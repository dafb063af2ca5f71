//! Chords: order-independent, deduplicated sets of virtual-key codes, kept in
//! a canonical strictly ascending representation so that structural equality
//! coincides with set equality.

use vstd::prelude::*;

verus! {

/// Left/right-specific modifier codes (left/right Shift, Control, Alt). A
/// keyboard-state scan records only the generic modifier code, so these are
/// excluded to avoid counting one physical modifier press twice.
pub open spec fn is_lr_key(k: u32) -> bool {
    k == 0xA0 || k == 0xA1 || k == 0xA2 || k == 0xA3 || k == 0xA4 || k == 0xA5
}

/// Slot `k` of the 256-slot snapshot has its press bit (the high bit) set.
pub open spec fn slot_pressed(st: Seq<u8>, k: u32) -> bool {
    (st[k as int] & 0x80u8) != 0
}

/// `k` is recorded by a full keyboard-state scan of `st`: inside the scanned
/// range and not a left/right modifier variant, with its own slot pressed or,
/// for the generic Shift/Control/Alt codes, either variant's slot pressed —
/// one physical modifier press never yields two entries.
pub open spec fn active_in_state(st: Seq<u8>, k: u32) -> bool {
    7 <= k < 0xE0 && !is_lr_key(k) && (slot_pressed(st, k) || (k == 0x10 && (slot_pressed(st, 0xA0)
        || slot_pressed(st, 0xA1))) || (k == 0x11 && (slot_pressed(st, 0xA2) || slot_pressed(
        st,
        0xA3,
    ))) || (k == 0x12 && (slot_pressed(st, 0xA4) || slot_pressed(st, 0xA5))))
}

pub open spec fn strictly_sorted(s: Seq<u32>) -> bool {
    forall|i: int, j: int| 0 <= i < j < s.len() ==> s[i] < s[j]
}

/// `r` is the canonical chord over the code multiset `codes`: strictly
/// ascending (hence deduplicated) with exactly the same members.
pub open spec fn is_canonical_chord_of(r: Seq<u32>, codes: Seq<u32>) -> bool {
    strictly_sorted(r) && (forall|x: u32| r.contains(x) <==> codes.contains(x))
}

/// A chord: the currently relevant key codes, always strictly ascending.
#[derive(Debug, Hash)]
pub struct Keys(Vec<u32>);

impl View for Keys {
    type V = Seq<u32>;

    closed spec fn view(&self) -> Seq<u32> {
        self.0@
    }
}

/// A strictly sorted sequence is determined by its members: canonical chords
/// built from inputs with equal member sets are equal. In particular, chords
/// built from any two permutations of one code list are equal.
pub proof fn lemma_canonical_unique(a: Seq<u32>, b: Seq<u32>)
    requires
        strictly_sorted(a),
        strictly_sorted(b),
        forall|x: u32| a.contains(x) <==> b.contains(x),
    ensures
        a == b,
    decreases a.len(),
{
    if a.len() == 0 {
        if b.len() > 0 {
            assert(b.contains(b[0]));
            assert(a.contains(b[0]));
        }
        assert(a =~= b);
    } else {
        assert(a.contains(a[0]));
        assert(b.contains(a[0]));
        assert(b.len() > 0);
        let ia = choose|i: int| 0 <= i < b.len() && b[i] == a[0];
        assert(b[0] <= a[0]) by {
            if ia > 0 {
                assert(b[0] < b[ia]);
            }
        }
        assert(a.contains(b[0]));
        let ib = choose|i: int| 0 <= i < a.len() && a[i] == b[0];
        assert(a[0] <= b[0]) by {
            if ib > 0 {
                assert(a[0] < a[ib]);
            }
        }
        assert(a[0] == b[0]);
        let at = a.drop_first();
        let bt = b.drop_first();
        assert forall|x: u32| at.contains(x) <==> bt.contains(x) by {
            lemma_tail_membership(a, x);
            lemma_tail_membership(b, x);
        }
        lemma_canonical_unique(at, bt);
        assert(a =~= b) by {
            assert(forall|i: int| 1 <= i < a.len() ==> a[i] == at[i - 1] && b[i] == bt[i - 1]);
        }
    }
}

/// In a strictly sorted non-empty sequence, the tail contains exactly the
/// members other than the (strictly minimal) head.
proof fn lemma_tail_membership(s: Seq<u32>, x: u32)
    requires
        strictly_sorted(s),
        s.len() > 0,
    ensures
        s.drop_first().contains(x) <==> (s.contains(x) && x != s[0]),
{
    let t = s.drop_first();
    if t.contains(x) {
        let i = choose|i: int| 0 <= i < t.len() && t[i] == x;
        assert(s[i + 1] == x);
        assert(s[0] < s[i + 1]);
    }
    if s.contains(x) && x != s[0] {
        let i = choose|i: int| 0 <= i < s.len() && s[i] == x;
        assert(i != 0);
        assert(t[i - 1] == x);
        assert(t.contains(x));
    }
}


/// Insert `x` into a strictly sorted sequence, in specification form.
pub open spec fn canon_insert(s: Seq<u32>, x: u32) -> Seq<u32>
    decreases s.len(),
{
    if s.len() == 0 {
        seq![x]
    } else if x < s[0] {
        seq![x] + s
    } else if x == s[0] {
        s
    } else {
        seq![s[0]] + canon_insert(s.drop_first(), x)
    }
}

/// The canonical (strictly sorted, deduplicated) chord of a code list, in
/// specification form.
pub open spec fn canon_of(codes: Seq<u32>) -> Seq<u32>
    decreases codes.len(),
{
    if codes.len() == 0 {
        Seq::empty()
    } else {
        canon_insert(canon_of(codes.drop_last()), codes.last())
    }
}

pub proof fn lemma_canon_insert_props(s: Seq<u32>, x: u32)
    requires
        strictly_sorted(s),
    ensures
        strictly_sorted(canon_insert(s, x)),
        forall|y: u32| canon_insert(s, x).contains(y) <==> (s.contains(y) || y == x),
        canon_insert(s, x).contains(x),
    decreases s.len(),
{
    let r = canon_insert(s, x);
    if s.len() == 0 || x < s[0] {
        assert(r[0] == x);
    } else if x == s[0] {
        assert(r[0] == x);
    }
    if s.len() == 0 {
        assert(r =~= seq![x]);
        assert(r[0] == x);
        assert forall|y: u32| r.contains(y) <==> (s.contains(y) || y == x) by {
            if r.contains(y) {
                let i = choose|i: int| 0 <= i < r.len() && r[i] == y;
                assert(i == 0);
            }
        }
    } else if x < s[0] {
        assert(r == seq![x] + s);
        assert forall|i: int, j: int| 0 <= i < j < r.len() implies r[i] < r[j] by {
            if i == 0 {
                assert(r[j] == s[j - 1]);
                assert(j - 1 == 0 || s[0] < s[j - 1]);
            } else {
                assert(r[i] == s[i - 1] && r[j] == s[j - 1]);
            }
        }
        assert forall|y: u32| r.contains(y) <==> (s.contains(y) || y == x) by {
            if r.contains(y) {
                let i = choose|i: int| 0 <= i < r.len() && r[i] == y;
                if i > 0 {
                    assert(s[i - 1] == y);
                }
            }
            if s.contains(y) {
                let i = choose|i: int| 0 <= i < s.len() && s[i] == y;
                assert(r[i + 1] == y);
            }
            assert(r[0] == x);
        }
    } else if x == s[0] {
        assert forall|y: u32| r.contains(y) <==> (s.contains(y) || y == x) by {
            assert(s[0] == x);
        }
    } else {
        let t = s.drop_first();
        assert(strictly_sorted(t)) by {
            assert(forall|i: int| 0 <= i < t.len() ==> t[i] == s[i + 1]);
        }
        lemma_canon_insert_props(t, x);
        let q = canon_insert(t, x);
        assert(r == seq![s[0]] + q);
        assert forall|i: int, j: int| 0 <= i < j < r.len() implies r[i] < r[j] by {
            if i == 0 {
                assert(r[j] == q[j - 1]);
                assert(q.contains(q[j - 1]));
                let w = q[j - 1];
                if t.contains(w) {
                    let u = choose|u: int| 0 <= u < t.len() && t[u] == w;
                    assert(s[u + 1] == w);
                    assert(s[0] < w);
                } else {
                    assert(w == x);
                    assert(s[0] < x);
                }
            } else {
                assert(r[i] == q[i - 1] && r[j] == q[j - 1]);
            }
        }
        assert forall|y: u32| r.contains(y) <==> (s.contains(y) || y == x) by {
            if r.contains(y) {
                let i = choose|i: int| 0 <= i < r.len() && r[i] == y;
                if i > 0 {
                    assert(q[i - 1] == y);
                    assert(q.contains(y));
                    if t.contains(y) {
                        lemma_tail_membership(s, y);
                    }
                }
            }
            if s.contains(y) {
                if y == s[0] {
                    assert(r[0] == y);
                } else {
                    lemma_tail_membership(s, y);
                    assert(q.contains(y));
                    let i = choose|i: int| 0 <= i < q.len() && q[i] == y;
                    assert(r[i + 1] == y);
                }
            }
            if y == x {
                let i = choose|i: int| 0 <= i < q.len() && q[i] == x;
                assert(r[i + 1] == x);
            }
        }
    }
}

pub proof fn lemma_canon_of_props(codes: Seq<u32>)
    ensures
        strictly_sorted(canon_of(codes)),
        forall|y: u32| canon_of(codes).contains(y) <==> codes.contains(y),
    decreases codes.len(),
{
    if codes.len() == 0 {
        assert forall|y: u32| !canon_of(codes).contains(y) && !codes.contains(y) by {}
    } else {
        let d = codes.drop_last();
        lemma_canon_of_props(d);
        lemma_canon_insert_props(canon_of(d), codes.last());
        assert forall|y: u32| canon_of(codes).contains(y) <==> codes.contains(y) by {
            if d.contains(y) {
                let i = choose|i: int| 0 <= i < d.len() && d[i] == y;
                assert(codes[i] == y);
            }
            if codes.contains(y) && y != codes.last() {
                let i = choose|i: int| 0 <= i < codes.len() && codes[i] == y;
                if i < codes.len() - 1 {
                    assert(d[i] == y);
                }
            }
        }
    }
}


/// A canonical chord is its own canonical form.
pub proof fn lemma_canon_fixpoint(s: Seq<u32>)
    requires
        strictly_sorted(s),
    ensures
        canon_of(s) == s,
{
    lemma_canon_of_props(s);
    lemma_canonical_unique(canon_of(s), s);
}

/// Insert `x` into the strictly sorted `out`, keeping it strictly sorted;
/// a code already present is left alone.
fn insert_sorted(out: &mut Vec<u32>, x: u32)
    requires
        strictly_sorted(old(out)@),
    ensures
        strictly_sorted(final(out)@),
        forall|y: u32| final(out)@.contains(y) <==> (old(out)@.contains(y) || y == x),
{
    let ghost pre = out@;
    let mut p: usize = 0;
    while p < out.len() && out[p] < x
        invariant
            p <= out@.len(),
            out@ == pre,
            strictly_sorted(out@),
            forall|t: int| 0 <= t < p ==> out@[t] < x,
        decreases out@.len() - p,
    {
        p += 1;
    }
    if p < out.len() && out[p] == x {
        proof {
            assert(out@[p as int] == x);
            assert(out@.contains(x));
        }
        return;
    }
    let ghost gp = p as int;
    proof {
        assert(gp < pre.len() ==> pre[gp] > x);
    }
    out.insert(p, x);
    proof {
        pre.insert_ensures(gp, x);
        assert forall|i: int, j: int| 0 <= i < j < out@.len() implies out@[i] < out@[j] by {
            if j < gp {
                assert(out@[i] == pre[i] && out@[j] == pre[j]);
            } else if j == gp {
                assert(out@[j] == x);
                assert(out@[i] == pre[i] && pre[i] < x);
            } else {
                assert(out@[j] == pre[j - 1]);
                assert(gp <= j - 1 < pre.len());
                assert(gp < j - 1 ==> pre[gp] < pre[j - 1]);
                assert(pre[gp] <= pre[j - 1]);
                if i < gp {
                    assert(out@[i] == pre[i] && pre[i] < x);
                    assert(x < pre[gp]);
                } else if i == gp {
                    assert(out@[i] == x);
                    assert(x < pre[gp]);
                } else {
                    assert(out@[i] == pre[i - 1]);
                    assert(pre[i - 1] < pre[j - 1]);
                }
            }
        }
        assert forall|y: u32| out@.contains(y) <==> (pre.contains(y) || y == x) by {
            if out@.contains(y) {
                let t = choose|t: int| 0 <= t < out@.len() && out@[t] == y;
                if t < p {
                    assert(pre[t] == y);
                } else if t == p {
                } else {
                    assert(pre[t - 1] == y);
                }
            }
            if pre.contains(y) {
                let t = choose|t: int| 0 <= t < pre.len() && pre[t] == y;
                if t < p {
                    assert(out@[t] == y);
                } else {
                    assert(out@[t + 1] == y);
                }
            }
            assert(out@[p as int] == x);
        }
    }
}

impl Keys {
    /// The canonical-representation invariant.
    pub open spec fn wf(&self) -> bool {
        strictly_sorted(self@)
    }

    /// A chord with no codes.
    pub fn new() -> (r: Self)
        ensures
            r@ == Seq::<u32>::empty(),
            r.wf(),
    {
        Keys(Vec::new())
    }

    /// An empty chord with room reserved for `n` codes.
    pub fn with_capacity(n: usize) -> (r: Self)
        ensures
            r@ == Seq::<u32>::empty(),
            r.wf(),
    {
        Keys(Vec::with_capacity(n))
    }

    /// The canonical chord over the given codes: sorted ascending and
    /// deduplicated, so the input order does not matter.
    pub fn from_slice(v: &[u32]) -> (r: Self)
        ensures
            r.wf(),
            is_canonical_chord_of(r@, v@),
            r@ == canon_of(v@),
    {
        let mut out: Vec<u32> = Vec::new();
        let mut i: usize = 0;
        while i < v.len()
            invariant
                i <= v@.len(),
                strictly_sorted(out@),
                forall|x: u32| out@.contains(x) <==> v@.subrange(0, i as int).contains(x),
            decreases v@.len() - i,
        {
            let x = v[i];
            insert_sorted(&mut out, x);
            proof {
                let pre = v@.subrange(0, i as int);
                let post = v@.subrange(0, i + 1 as int);
                assert(post.drop_last() =~= pre);
                assert forall|y: u32| post.contains(y) <==> (pre.contains(y) || y == x) by {
                    if post.contains(y) {
                        let j = choose|j: int| 0 <= j < post.len() && post[j] == y;
                        if j < pre.len() {
                            assert(pre[j] == y);
                        }
                    }
                    if pre.contains(y) {
                        let j = choose|j: int| 0 <= j < pre.len() && pre[j] == y;
                        assert(post[j] == y);
                    }
                    if y == x {
                        assert(post[i as int] == x);
                    }
                }
            }
            i += 1;
        }
        proof {
            assert(v@.subrange(0, v@.len() as int) =~= v@);
            lemma_canon_of_props(v@);
            lemma_canonical_unique(out@, canon_of(v@));
        }
        Keys(out)
    }

    /// No codes are held.
    pub fn is_empty(&self) -> (r: bool)
        ensures
            r == (self@.len() == 0),
    {
        self.0.is_empty()
    }

    /// Forget every code.
    pub fn clear(&mut self)
        ensures
            final(self)@ == Seq::<u32>::empty(),
            final(self).wf(),
    {
        self.0.clear();
    }

    /// Recompute the chord from a full 256-slot keyboard-state snapshot:
    /// exactly the codes in 0x07..0xE0 whose high bit is set, with
    /// left/right modifier variants excluded, in ascending order.
    pub fn keyboard_state(&mut self, v: &[u8])
        requires
            v@.len() == 256,
        ensures
            final(self).wf(),
            forall|k: u32| final(self)@.contains(k) <==> active_in_state(v@, k),
    {
        self.0.clear();
        let mut i: usize = 7;
        while i < 0xE0
            invariant
                7 <= i <= 0xE0,
                v@.len() == 256,
                strictly_sorted(self.0@),
                forall|j: int| 0 <= j < self.0@.len() ==> self.0@[j] < i,
                forall|k: u32| self.0@.contains(k) <==> (k < i && active_in_state(v@, k)),
            decreases 0xE0 - i,
        {
            let k = i as u32;
            let mut on = (v[i] & 0x80) != 0;
            if !on && k == 0x10 {
                on = (v[0xA0] & 0x80) != 0 || (v[0xA1] & 0x80) != 0;
            }
            if !on && k == 0x11 {
                on = (v[0xA2] & 0x80) != 0 || (v[0xA3] & 0x80) != 0;
            }
            if !on && k == 0x12 {
                on = (v[0xA4] & 0x80) != 0 || (v[0xA5] & 0x80) != 0;
            }
            if on && !(k >= 0xA0 && k <= 0xA5) {
                let ghost pre = self.0@;
                self.0.push(k);
                proof {
                    assert forall|x: u32| self.0@.contains(x) <==> (pre.contains(x) || x == k) by {
                        if self.0@.contains(x) {
                            let j = choose|j: int| 0 <= j < self.0@.len() && self.0@[j] == x;
                            if j < pre.len() {
                                assert(pre[j] == x);
                            }
                        }
                        if pre.contains(x) {
                            let j = choose|j: int| 0 <= j < pre.len() && pre[j] == x;
                            assert(self.0@[j] == x);
                        }
                        assert(self.0@.last() == k);
                    }
                }
            }
            i += 1;
        }
    }

    /// Reset the chord to the single code `vk`, bypassing a full-table scan.
    pub fn vk(&mut self, vk: u32)
        ensures
            final(self)@ == seq![vk],
            final(self).wf(),
    {
        self.0.clear();
        self.0.push(vk);
        proof {
            assert(self@ =~= seq![vk]);
        }
    }

    /// The held-prefix test used for release tracking: scans `other`'s codes
    /// in order, advancing through `self`'s codes on each match. For canonical
    /// chords this decides whether every code of `self` is still present in
    /// `other`; an empty `self` is trivially included.
    pub fn is_included(&self, other: &Keys) -> (r: bool)
        requires
            self.wf(),
            other.wf(),
        ensures
            r == (forall|x: u32| self@.contains(x) ==> other@.contains(x)),
    {
        let mut index: usize = 0;
        let mut j: usize = 0;
        while j < other.0.len() && index < self.0.len()
            invariant
                index <= self.0@.len(),
                j <= other.0@.len(),
                self.wf(),
                other.wf(),
                forall|t: int| 0 <= t < index ==> other@.contains(self.0@[t]),
                index < self.0@.len() ==> !other@.subrange(0, j as int).contains(self.0@[index as int]),
            decreases other.0@.len() - j,
        {
            let ghost pre_j = j as int;
            let ghost pre_index = index as int;
            if other.0[j] == self.0[index] {
                index += 1;
            }
            j += 1;
            proof {
                if index < self.0@.len() {
                    let cur = self.0@[index as int];
                    let sub = other@.subrange(0, j as int);
                    assert forall|t: int| 0 <= t < sub.len() implies sub[t] != cur by {
                        assert(sub[t] == other@[t]);
                        if t < pre_j {
                            if pre_index < index {
                                // advanced on a match: prior misses were against
                                // the previous target, which is smaller
                                assert(other@.subrange(0, pre_j)[t] == other@[t]);
                                assert(other@[t] != self.0@[pre_index]);
                                if other@[t] == cur {
                                    // other[t] == self[index] > self[pre_index] == other[pre_j]
                                    assert(self.0@[pre_index] < cur);
                                    assert(other@[pre_j] == self.0@[pre_index]);
                                    assert(t < pre_j ==> other@[t] < other@[pre_j]);
                                }
                            } else {
                                assert(other@.subrange(0, pre_j)[t] == other@[t]);
                            }
                        } else {
                            assert(t == pre_j);
                            if pre_index < index {
                                assert(other@[pre_j] == self.0@[pre_index]);
                                assert(self.0@[pre_index] < cur);
                            }
                        }
                    }
                }
            }
        }
        proof {
            if index == self.0@.len() {
                assert forall|x: u32| self@.contains(x) implies other@.contains(x) by {
                    let t = choose|t: int| 0 <= t < self@.len() && self@[t] == x;
                    assert(other@.contains(self.0@[t]));
                }
            } else {
                assert(j == other.0@.len());
                let cur = self.0@[index as int];
                assert(self@.contains(cur));
                assert(!other@.subrange(0, j as int).contains(cur));
                assert(other@.subrange(0, j as int) =~= other@);
            }
        }
        index == self.0.len()
    }

    /// Read access to the canonical code list, ascending.
    pub fn codes(&self) -> (r: &Vec<u32>)
        ensures
            r@ == self@,
    {
        &self.0
    }
}

impl Default for Keys {
    /// The empty chord.
    fn default() -> (r: Self)
        ensures
            r@ == Seq::<u32>::empty(),
            r.wf(),
    {
        Keys::new()
    }
}

impl Clone for Keys {
    /// The clone denotes the same chord.
    fn clone(&self) -> (r: Self)
        ensures
            r@ == self@,
    {
        Keys(self.0.clone())
    }
}

impl PartialEq for Keys {
    /// Structural equality over the canonical representation.
    fn eq(&self, other: &Self) -> (r: bool) {
        if self.0.len() != other.0.len() {
            return false;
        }
        let mut i: usize = 0;
        while i < self.0.len()
            invariant
                self.0@.len() == other.0@.len(),
                i <= self.0@.len(),
                forall|t: int| 0 <= t < i ==> self.0@[t] == other.0@[t],
            decreases self.0@.len() - i,
        {
            if self.0[i] != other.0[i] {
                return false;
            }
            i += 1;
        }
        proof {
            assert(self.0@ =~= other.0@);
        }
        true
    }
}

impl vstd::std_specs::cmp::PartialEqSpecImpl for Keys {
    open spec fn obeys_eq_spec() -> bool {
        true
    }

    open spec fn eq_spec(&self, other: &Self) -> bool {
        self@ == other@
    }
}

} // verus!
