//! The dispatcher: joins the action table and the user bindings into a
//! reverse index from chord to action kind, consumes raw key-down/key-up
//! edge events, and tracks which synthetic keys are currently asserted.
//!
//! Dispatch decides; the caller performs the chosen UI side effect against
//! the host window and feeds back what only the host can answer (a combo
//! box's selection, a control's visibility).

use vstd::prelude::*;

use crate::key_map::{km_model, km_wf, KeyMap};
use crate::keys::{active_in_state, lemma_canonical_unique, strictly_sorted, Keys};
use crate::mmd_map::{mmd_lookup, table_model, ComboDir, EntryModel, ItemKind, MmdMap};

verus! {

/// The specification view of the reverse index.
pub open spec fn idx_model(s: Seq<(Keys, ItemKind)>) -> Seq<(Seq<u32>, ItemKind)> {
    s.map_values(|e: (Keys, ItemKind)| (e.0@, e.1))
}

/// Index invariant: every chord canonical and non-empty, no chord twice.
pub open spec fn idx_wf(m: Seq<(Seq<u32>, ItemKind)>) -> bool {
    (forall|i: int|
        0 <= i < m.len() ==> strictly_sorted((#[trigger] m[i]).0) && m[i].0.len() > 0) && (forall|
        i: int,
        j: int,
    |
        0 <= i < j < m.len() ==> m[i].0 != m[j].0)
}

/// The chord `c` is exactly the set of codes a state scan records.
pub open spec fn chord_matches_state(c: Seq<u32>, st: Seq<u8>) -> bool {
    forall|k: u32| c.contains(k) <==> active_in_state(st, k)
}

/// Every code of `c` is still recorded by a state scan of `st`.
pub open spec fn chord_still_held(c: Seq<u32>, st: Seq<u8>) -> bool {
    forall|x: u32| c.contains(x) ==> active_in_state(st, x)
}

/// The action bound to the chord currently held in `st`, if any.
pub open spec fn lookup_state(m: Seq<(Seq<u32>, ItemKind)>, st: Seq<u8>) -> Option<ItemKind>
    decreases m.len(),
{
    if m.len() == 0 {
        None
    } else if chord_matches_state(m[0].0, st) {
        Some(m[0].1)
    } else {
        lookup_state(m.drop_first(), st)
    }
}

/// The action bound to exactly the chord `c`, if any.
pub open spec fn lookup_exact(m: Seq<(Seq<u32>, ItemKind)>, c: Seq<u32>) -> Option<ItemKind>
    decreases m.len(),
{
    if m.len() == 0 {
        None
    } else if m[0].0 == c {
        Some(m[0].1)
    } else {
        lookup_exact(m.drop_first(), c)
    }
}

/// What a key-down of `vk` dispatches once the press table reads `st`: the
/// full held chord's binding if one exists, else the binding of `vk` alone.
pub open spec fn dispatch_spec(m: Seq<(Seq<u32>, ItemKind)>, st: Seq<u8>, vk: u32) -> Option<
    ItemKind,
> {
    match lookup_state(m, st) {
        Some(k) => Some(k),
        None => lookup_exact(m, seq![vk]),
    }
}

/// Some `Key(k)` binding's chord is no longer fully held in `st`, so the
/// synthetic key `k` must stop being reported as pressed.
pub open spec fn released(m: Seq<(Seq<u32>, ItemKind)>, st: Seq<u8>, k: u32) -> bool {
    exists|i: int|
        0 <= i < m.len() && (#[trigger] m[i]).1 == ItemKind::Key(k) && !chord_still_held(
            m[i].0,
            st,
        )
}

/// The asserted flag for synthetic-key target `k`; false when unknown.
pub open spec fn state_of(m: Seq<(u32, bool)>, k: u32) -> bool
    decreases m.len(),
{
    if m.len() == 0 {
        false
    } else if m[0].0 == k {
        m[0].1
    } else {
        state_of(m.drop_first(), k)
    }
}

/// Target `k` has a slot in the state table.
pub open spec fn state_defined(m: Seq<(u32, bool)>, k: u32) -> bool {
    exists|i: int| 0 <= i < m.len() && (#[trigger] m[i]).0 == k
}

/// The state table `cur` reports exactly the targets of `states0` that the
/// scanned bindings `m` have not released under `st`.
pub open spec fn states_track(
    cur: Seq<(u32, bool)>,
    states0: Seq<(u32, bool)>,
    m: Seq<(Seq<u32>, ItemKind)>,
    st: Seq<u8>,
) -> bool {
    (forall|q: u32| #![trigger state_of(cur, q)]
        state_of(cur, q) == (state_of(states0, q) && !released(m, st, q))) && (forall|q: u32|
        #![trigger state_defined(cur, q)]
        state_defined(cur, q) == state_defined(states0, q))
}

/// No target has two slots.
pub open spec fn states_wf(m: Seq<(u32, bool)>) -> bool {
    forall|i: int, j: int| 0 <= i < j < m.len() ==> m[i].0 != m[j].0
}

/// The action table has a `Key(k)` entry.
pub open spec fn has_key_target(mm: Seq<EntryModel>, k: u32) -> bool {
    exists|i: int| 0 <= i < mm.len() && (#[trigger] mm[i]).1.1 == ItemKind::Key(k)
}

/// The hide-control ids of the table's `Fold` entries, in table order.
pub open spec fn fold_hides(mm: Seq<EntryModel>) -> Seq<u32>
    decreases mm.len(),
{
    if mm.len() == 0 {
        Seq::empty()
    } else {
        let rest = fold_hides(mm.drop_last());
        match mm.last().1.1 {
            ItemKind::Fold(h, _s) => rest.push(h),
            _ => rest,
        }
    }
}

/// The show-control ids of the table's `Fold` entries, in table order.
pub open spec fn fold_shows(mm: Seq<EntryModel>) -> Seq<u32>
    decreases mm.len(),
{
    if mm.len() == 0 {
        Seq::empty()
    } else {
        let rest = fold_shows(mm.drop_last());
        match mm.last().1.1 {
            ItemKind::Fold(_h, s) => rest.push(s),
            _ => rest,
        }
    }
}

/// Bind chord `c` to `kind`: replace the entry with the same chord in place,
/// or append.
pub open spec fn idx_insert(m: Seq<(Seq<u32>, ItemKind)>, c: Seq<u32>, kind: ItemKind) -> Seq<
    (Seq<u32>, ItemKind),
>
    decreases m.len(),
{
    if m.len() == 0 {
        seq![(c, kind)]
    } else if m[0].0 == c {
        seq![(c, kind)] + m.drop_first()
    } else {
        seq![m[0]] + idx_insert(m.drop_first(), c, kind)
    }
}

/// The reverse index the bindings build against the action table: bindings
/// in map order; a binding whose name has no table entry is skipped, as is
/// one with an empty chord (an empty chord must never fire); a chord bound
/// twice keeps the later binding, the design's documented ambiguity.
pub open spec fn build_index(mm: Seq<EntryModel>, km: Seq<(Seq<char>, Seq<u32>)>) -> Seq<
    (Seq<u32>, ItemKind),
>
    decreases km.len(),
{
    if km.len() == 0 {
        Seq::empty()
    } else {
        let rest = build_index(mm, km.drop_last());
        match mmd_lookup(mm, km.last().0) {
            Some(entry) => if km.last().1.len() > 0 {
                idx_insert(rest, km.last().1, entry.1)
            } else {
                rest
            },
            None => rest,
        }
    }
}

/// The dispatcher's live state.
pub struct Handler {
    input: Vec<u8>,
    input_keys: Keys,
    handler: Vec<(Keys, ItemKind)>,
    key_states: Vec<(u32, bool)>,
    folds: Vec<u32>,
    unfolds: Vec<u32>,
}

impl Handler {
    /// The raw per-virtual-key press table (256 slots).
    pub closed spec fn input_spec(&self) -> Seq<u8> {
        self.input@
    }

    /// The reverse index, chord to action kind.
    pub closed spec fn index_spec(&self) -> Seq<(Seq<u32>, ItemKind)> {
        idx_model(self.handler@)
    }

    /// The per-target synthetic-key state table.
    pub closed spec fn states_spec(&self) -> Seq<(u32, bool)> {
        self.key_states@
    }

    /// All fold (hide) target ids.
    pub closed spec fn folds_spec(&self) -> Seq<u32> {
        self.folds@
    }

    /// All unfold (show) target ids.
    pub closed spec fn unfolds_spec(&self) -> Seq<u32> {
        self.unfolds@
    }

    /// The dispatcher's invariant: a full press table, a well-formed index
    /// and a duplicate-free state table.
    pub open spec fn wf(&self) -> bool {
        self.input_spec().len() == 256 && idx_wf(self.index_spec()) && states_wf(
            self.states_spec(),
        )
    }

    /// All fold (hide) target ids, for a fold-all pass.
    pub fn folds(&self) -> (r: &Vec<u32>)
        ensures
            r@ == self.folds_spec(),
    {
        &self.folds
    }

    /// All unfold (show) target ids, for an unfold-all pass.
    pub fn unfolds(&self) -> (r: &Vec<u32>)
        ensures
            r@ == self.unfolds_spec(),
    {
        &self.unfolds
    }

    /// Whether the synthetic key `vk` is currently asserted; false for
    /// unknown targets.
    pub fn is_pressed(&self, vk: u32) -> (r: bool)
        ensures
            r == state_of(self.states_spec(), vk),
    {
        let mut i: usize = 0;
        proof {
            assert(self.key_states@.subrange(0, self.key_states@.len() as int) =~= self.key_states@);
        }
        while i < self.key_states.len()
            invariant
                i <= self.key_states@.len(),
                state_of(self.key_states@, vk) == state_of(
                    self.key_states@.subrange(i as int, self.key_states@.len() as int),
                    vk,
                ),
            decreases self.key_states@.len() - i,
        {
            let ghost rest = self.key_states@.subrange(i as int, self.key_states@.len() as int);
            proof {
                assert(rest[0] == self.key_states@[i as int]);
                assert(rest.drop_first() =~= self.key_states@.subrange(
                    i + 1 as int,
                    self.key_states@.len() as int,
                ));
            }
            if self.key_states[i].0 == vk {
                return self.key_states[i].1;
            }
            i += 1;
        }
        proof {
            assert(self.key_states@.subrange(i as int, self.key_states@.len() as int) =~= Seq::<
                (u32, bool),
            >::empty());
        }
        false
    }

    /// The key-state answer handed to the interception shim: codes at or
    /// above 0x07 are eligible for override and report the synthetic state
    /// (pressed as the high-bit/toggle pattern, released as zero); lower
    /// codes are always passed through to the real hardware state.
    pub fn get_key_state(&self, vk: u32) -> (r: Option<u16>)
        ensures
            vk >= 0x07 ==> r == Some(
                if state_of(self.states_spec(), vk) {
                    0xFF80u16
                } else {
                    0u16
                },
            ),
            vk < 0x07 ==> r is None,
    {
        if vk >= 0x07 {
            if self.is_pressed(vk) {
                Some(0xFF80)
            } else {
                Some(0x0000)
            }
        } else {
            None
        }
    }
}

/// One combo-box step: the new selection index, or `None` when the step
/// saturates at either end (no wraparound). A `Prev` at index 0 and a `Next`
/// at the last index are no-ops.
pub fn combo_step(dir: ComboDir, index: i64, count: i64) -> (r: Option<i64>)
    requires
        count > i64::MIN,
    ensures
        dir == ComboDir::Prev ==> r == (if index >= 1 {
            Some((index - 1) as i64)
        } else {
            None::<i64>
        }),
        dir == ComboDir::Next ==> r == (if index < count - 1 {
            Some((index + 1) as i64)
        } else {
            None::<i64>
        }),
{
    match dir {
        ComboDir::Prev => {
            if index >= 1 {
                Some(index - 1)
            } else {
                None
            }
        },
        ComboDir::Next => {
            if index < count - 1 {
                Some(index + 1)
            } else {
                None
            }
        },
    }
}

/// Which control a fold toggle clicks: the hide control while it is visible
/// (collapsing the panel), else the show control (expanding it).
pub fn fold_target(hide_visible: bool, hide_id: u32, show_id: u32) -> (r: u32)
    ensures
        r == (if hide_visible {
            hide_id
        } else {
            show_id
        }),
{
    if hide_visible {
        hide_id
    } else {
        show_id
    }
}


/// Target `k` has a slot in the state table.
fn states_has(states: &Vec<(u32, bool)>, k: u32) -> (r: bool)
    ensures
        r == state_defined(states@, k),
{
    let mut i: usize = 0;
    while i < states.len()
        invariant
            i <= states@.len(),
            forall|t: int| 0 <= t < i ==> (#[trigger] states@[t]).0 != k,
        decreases states@.len() - i,
    {
        if states[i].0 == k {
            return true;
        }
        i += 1;
    }
    false
}

/// A pushed slot changes only its own target's flag.
proof fn lemma_state_of_push(m: Seq<(u32, bool)>, k: u32, b: bool, q: u32)
    ensures
        q != k ==> state_of(m.push((k, b)), q) == state_of(m, q),
        (q == k && !state_defined(m, k)) ==> state_of(m.push((k, b)), q) == b,
    decreases m.len(),
{
    let u = m.push((k, b));
    if m.len() == 0 {
        assert(u[0] == (k, b));
        assert(u.drop_first() =~= Seq::<(u32, bool)>::empty());
        assert(state_of(Seq::<(u32, bool)>::empty(), q) == false);
        assert(state_of(m, q) == false);
    } else {
        assert(u[0] == m[0]);
        if q == m[0].0 {
            assert(state_of(u, q) == u[0].1);
            assert(state_of(m, q) == m[0].1);
        } else {
            assert(u.drop_first() =~= m.drop_first().push((k, b)));
            lemma_state_of_push(m.drop_first(), k, b, q);
            assert(state_of(u, q) == state_of(u.drop_first(), q));
            assert(state_of(m, q) == state_of(m.drop_first(), q));
            if q == k && !state_defined(m, k) {
                assert(!state_defined(m.drop_first(), k)) by {
                    if state_defined(m.drop_first(), k) {
                        let t = choose|t: int|
                            0 <= t < m.drop_first().len() && m.drop_first()[t].0 == k;
                        assert(m[t + 1].0 == k);
                    }
                }
            }
        }
    }
}

/// Updating the first slot of target `k` changes only that target's flag.
proof fn lemma_state_of_update(m: Seq<(u32, bool)>, i: int, k: u32, b: bool, q: u32)
    requires
        0 <= i < m.len(),
        m[i].0 == k,
        forall|t: int| 0 <= t < i ==> (#[trigger] m[t]).0 != k,
    ensures
        state_of(m.update(i, (k, b)), q) == (if q == k {
            b
        } else {
            state_of(m, q)
        }),
    decreases i,
{
    let u = m.update(i, (k, b));
    if i == 0 {
        if q != k {
            assert(u.drop_first() =~= m.drop_first());
        }
    } else {
        assert(u[0] == m[0]);
        if q != m[0].0 {
            assert(u.drop_first() =~= m.drop_first().update(i - 1, (k, b)));
            assert(forall|t: int| 0 <= t < i - 1 ==> (#[trigger] m.drop_first()[t]).0 != k);
            lemma_state_of_update(m.drop_first(), i - 1, k, b, q);
        }
    }
}

/// Set the flag of target `k` to `b`; a target without a slot is left alone.
fn set_state(states: &mut Vec<(u32, bool)>, k: u32, b: bool)
    requires
        states_wf(old(states)@),
    ensures
        states_wf(final(states)@),
        forall|q: u32|
            state_of(final(states)@, q) == (if q == k && state_defined(old(states)@, q) {
                b
            } else {
                state_of(old(states)@, q)
            }),
        forall|q: u32| state_defined(final(states)@, q) == state_defined(old(states)@, q),
{
    let ghost m = states@;
    let mut i: usize = 0;
    while i < states.len()
        invariant
            i <= states@.len(),
            states@ == m,
            m == old(states)@,
            states_wf(m),
            forall|t: int| 0 <= t < i ==> (#[trigger] m[t]).0 != k,
        decreases states@.len() - i,
    {
        if states[i].0 == k {
            states[i] = (k, b);
            proof {
                assert(states@ =~= m.update(i as int, (k, b)));
                assert(state_defined(m, k)) by {
                    assert(m[i as int].0 == k);
                }
                assert forall|q: u32|
                    state_of(states@, q) == (if q == k && state_defined(m, q) {
                        b
                    } else {
                        state_of(m, q)
                    }) by {
                    lemma_state_of_update(m, i as int, k, b, q);
                }
                assert forall|q: u32|
                    state_defined(states@, q) == state_defined(m, q) by {
                    assert(forall|t: int|
                        0 <= t < m.len() ==> (#[trigger] states@[t]).0 == m[t].0);
                    if state_defined(m, q) {
                        let t = choose|t: int| 0 <= t < m.len() && (#[trigger] m[t]).0 == q;
                        assert(states@[t].0 == q);
                    }
                    if state_defined(states@, q) {
                        let t = choose|t: int|
                            0 <= t < states@.len() && (#[trigger] states@[t]).0 == q;
                        assert(m[t].0 == q);
                    }
                }
                assert(states_wf(states@)) by {
                    assert(forall|t: int|
                        0 <= t < m.len() ==> (#[trigger] states@[t]).0 == m[t].0);
                }
                assert(m == old(states)@);
                assert forall|q: u32|
                    state_of(states@, q) == (if q == k && state_defined(old(states)@, q) {
                        b
                    } else {
                        state_of(old(states)@, q)
                    }) by {
                    lemma_state_of_update(m, i as int, k, b, q);
                }
                assert forall|q: u32|
                    state_defined(states@, q) == state_defined(old(states)@, q) by {
                    assert(state_defined(states@, q) == state_defined(m, q));
                }
            }
            return ;
        }
        i += 1;
    }
    proof {
        assert(!state_defined(m, k)) by {
            if state_defined(m, k) {
                let t = choose|t: int| 0 <= t < m.len() && (#[trigger] m[t]).0 == k;
            }
        }
    }
}

/// Inserting at the position of an equal chord replaces it.
proof fn lemma_idx_insert_at(m: Seq<(Seq<u32>, ItemKind)>, c: Seq<u32>, kind: ItemKind, i: int)
    requires
        0 <= i < m.len(),
        m[i].0 == c,
        forall|t: int| 0 <= t < i ==> (#[trigger] m[t]).0 != c,
    ensures
        idx_insert(m, c, kind) == m.update(i, (c, kind)),
    decreases i,
{
    if i == 0 {
        assert(idx_insert(m, c, kind) =~= m.update(0, (c, kind)));
    } else {
        let t = m.drop_first();
        assert(forall|u: int| 0 <= u < i - 1 ==> (#[trigger] t[u]) == m[u + 1]);
        lemma_idx_insert_at(t, c, kind, i - 1);
        assert(idx_insert(m, c, kind) =~= m.update(i, (c, kind)));
    }
}

/// Inserting a chord bound nowhere appends.
proof fn lemma_idx_insert_absent(m: Seq<(Seq<u32>, ItemKind)>, c: Seq<u32>, kind: ItemKind)
    requires
        forall|t: int| 0 <= t < m.len() ==> (#[trigger] m[t]).0 != c,
    ensures
        idx_insert(m, c, kind) == m.push((c, kind)),
    decreases m.len(),
{
    if m.len() == 0 {
        assert(idx_insert(m, c, kind) =~= m.push((c, kind)));
    } else {
        let t = m.drop_first();
        assert(forall|u: int| 0 <= u < t.len() ==> (#[trigger] t[u]) == m[u + 1]);
        lemma_idx_insert_absent(t, c, kind);
        assert(idx_insert(m, c, kind) =~= m.push((c, kind)));
    }
}

/// Bind `keys` to `kind` in the concrete index.
fn idx_insert_exec(idx: &mut Vec<(Keys, ItemKind)>, keys: Keys, kind: ItemKind)
    requires
        idx_wf(idx_model(old(idx)@)),
        keys.wf(),
        keys@.len() > 0,
    ensures
        idx_model(final(idx)@) == idx_insert(idx_model(old(idx)@), keys@, kind),
        idx_wf(idx_model(final(idx)@)),
{
    let ghost m = idx_model(idx@);
    let mut i: usize = 0;
    while i < idx.len()
        invariant
            i <= idx@.len(),
            idx_model(idx@) == m,
            m == idx_model(old(idx)@),
            idx_wf(m),
            keys.wf(),
            keys@.len() > 0,
            forall|t: int| 0 <= t < i ==> (#[trigger] m[t]).0 != keys@,
        decreases idx@.len() - i,
    {
        let hit = idx[i].0 == keys;
        proof {
            assert(m[i as int].0 == idx@[i as int].0@);
        }
        if hit {
            let ghost pre = idx@;
            idx[i] = (keys, kind);
            proof {
                lemma_idx_insert_at(m, keys@, kind, i as int);
                assert(idx_model(idx@) =~= m.update(i as int, (keys@, kind)));
                assert(idx_wf(idx_model(idx@))) by {
                    let u = idx_model(idx@);
                    assert(forall|t: int| 0 <= t < m.len() ==> (#[trigger] u[t]).0 == m[t].0);
                    assert(forall|t: int|
                        0 <= t < m.len() ==> strictly_sorted((#[trigger] u[t]).0) && u[t].0.len()
                            > 0);
                }
            }
            return ;
        }
        i += 1;
    }
    idx.push((keys, kind));
    proof {
        lemma_idx_insert_absent(m, keys@, kind);
        assert(idx_model(idx@) =~= m.push((keys@, kind)));
        assert(idx_wf(idx_model(idx@))) by {
            let u = idx_model(idx@);
            assert(forall|t: int| 0 <= t < m.len() ==> u[t] == m[t]);
            assert(u.last() == (keys@, kind));
        }
    }
}

impl Handler {
    /// Build the dispatcher from the action table and the bindings: one
    /// false slot per distinct `Key` target in the table; the fold and
    /// unfold id lists from the table's `Fold` entries; and the reverse
    /// index of the bindings (see [`build_index`]). A binding naming no
    /// table entry is skipped, so construction succeeds with the rest.
    pub fn new(mmd_map: &MmdMap, key_map: KeyMap) -> (r: Handler)
        requires
            key_map.wf(),
        ensures
            r.wf(),
            r.input_spec() == Seq::new(256, |i: int| 0u8),
            forall|k: u32| state_defined(r.states_spec(), k) <==> has_key_target(mmd_map@, k),
            forall|k: u32| !state_of(r.states_spec(), k),
            r.folds_spec() == fold_hides(mmd_map@),
            r.unfolds_spec() == fold_shows(mmd_map@),
            r.index_spec() == build_index(mmd_map@, key_map@),
    {
        let entries = mmd_map.iter();
        let ghost mm = mmd_map@;
        let mut key_states: Vec<(u32, bool)> = Vec::new();
        let mut folds: Vec<u32> = Vec::new();
        let mut unfolds: Vec<u32> = Vec::new();
        let mut i: usize = 0;
        proof {
            assert(mm.subrange(0, 0) =~= Seq::<EntryModel>::empty());
        }
        while i < entries.len()
            invariant
                i <= entries@.len(),
                table_model(entries@) == mm,
                mm == mmd_map@,
                states_wf(key_states@),
                forall|k: u32| !state_of(key_states@, k),
                forall|k: u32|
                    state_defined(key_states@, k) <==> has_key_target(
                        mm.subrange(0, i as int),
                        k,
                    ),
                folds@ == fold_hides(mm.subrange(0, i as int)),
                unfolds@ == fold_shows(mm.subrange(0, i as int)),
            decreases entries@.len() - i,
        {
            let ghost prefix = mm.subrange(0, i as int);
            let ghost next = mm.subrange(0, i + 1 as int);
            proof {
                assert(next.drop_last() =~= prefix);
                assert(next.last() == mm[i as int]);
                assert(mm[i as int].1.1 == entries@[i as int].1.kind);
            }
            let kind = entries[i].1.kind;
            match kind {
                ItemKind::Key(k) => {
                    let ghost pre = key_states@;
                    proof {
                        assert(next.last().1.1 == ItemKind::Key(k));
                    }
                    if !states_has(&key_states, k) {
                        key_states.push((k, false));
                        proof {
                            assert forall|q: u32| !state_of(key_states@, q) by {
                                lemma_state_of_push(pre, k, false, q);
                            }
                            assert forall|q: u32|
                                state_defined(key_states@, q) <==> (state_defined(pre, q) || q
                                    == k) by {
                                if state_defined(key_states@, q) {
                                    let t = choose|t: int|
                                        0 <= t < key_states@.len() && (#[trigger] key_states@[t]).0
                                            == q;
                                    if t < pre.len() {
                                        assert(pre[t].0 == q);
                                        assert(state_defined(pre, q));
                                    } else {
                                        assert(key_states@[t] == (k, false));
                                    }
                                }
                                if state_defined(pre, q) {
                                    let t = choose|t: int|
                                        0 <= t < pre.len() && (#[trigger] pre[t]).0 == q;
                                    assert(key_states@[t].0 == q);
                                    assert(state_defined(key_states@, q));
                                }
                                if q == k {
                                    assert(key_states@.last().0 == k);
                                    assert(state_defined(key_states@, k));
                                }
                            }
                            assert(states_wf(key_states@)) by {
                                assert(forall|t: int|
                                    0 <= t < pre.len() ==> (#[trigger] key_states@[t]) == pre[t]);
                                assert(!state_defined(pre, k));
                            }
                            assert forall|q: u32|
                                state_defined(key_states@, q) <==> has_key_target(next, q) by {
                                if has_key_target(next, q) {
                                    let t = choose|t: int|
                                        0 <= t < next.len() && (#[trigger] next[t]).1.1
                                            == ItemKind::Key(q);
                                    if t < prefix.len() {
                                        assert(prefix[t] == next[t]);
                                        assert(has_key_target(prefix, q));
                                        assert(state_defined(pre, q));
                                    } else {
                                        assert(next[t] == next.last());
                                        assert(q == k);
                                    }
                                    assert(state_defined(key_states@, q));
                                }
                                if state_defined(key_states@, q) {
                                    if state_defined(pre, q) {
                                        assert(has_key_target(prefix, q));
                                        let t = choose|t: int|
                                            0 <= t < prefix.len() && (#[trigger] prefix[t]).1.1
                                                == ItemKind::Key(q);
                                        assert(next[t] == prefix[t]);
                                        assert(has_key_target(next, q));
                                    } else {
                                        assert(q == k);
                                        assert(next[next.len() - 1].1.1 == ItemKind::Key(q));
                                        assert(has_key_target(next, q));
                                    }
                                }
                            }
                        }
                    } else {
                        proof {
                            assert(key_states@ == pre);
                            assert(state_defined(pre, k));
                            assert forall|q: u32|
                                state_defined(key_states@, q) <==> has_key_target(next, q) by {
                                if has_key_target(next, q) {
                                    let t = choose|t: int|
                                        0 <= t < next.len() && (#[trigger] next[t]).1.1
                                            == ItemKind::Key(q);
                                    if t < prefix.len() {
                                        assert(prefix[t] == next[t]);
                                        assert(has_key_target(prefix, q));
                                    } else {
                                        assert(next[t] == next.last());
                                        assert(q == k);
                                    }
                                    assert(state_defined(pre, q));
                                }
                                if state_defined(pre, q) {
                                    assert(has_key_target(prefix, q));
                                    let t = choose|t: int|
                                        0 <= t < prefix.len() && (#[trigger] prefix[t]).1.1
                                            == ItemKind::Key(q);
                                    assert(next[t] == prefix[t]);
                                    assert(has_key_target(next, q));
                                }
                            }
                        }
                    }
                    proof {
                        assert(fold_hides(next) =~= folds@);
                        assert(fold_shows(next) =~= unfolds@);
                    }
                },
                ItemKind::Fold(h, s) => {
                    folds.push(h);
                    unfolds.push(s);
                    proof {
                        assert(fold_hides(next) =~= folds@);
                        assert(fold_shows(next) =~= unfolds@);
                        assert forall|q: u32|
                            state_defined(key_states@, q) <==> has_key_target(next, q) by {
                            if has_key_target(next, q) {
                                let t = choose|t: int|
                                    0 <= t < next.len() && (#[trigger] next[t]).1.1
                                        == ItemKind::Key(q);
                                assert(t < prefix.len());
                                assert(prefix[t] == next[t]);
                            }
                            if has_key_target(prefix, q) {
                                let t = choose|t: int|
                                    0 <= t < prefix.len() && (#[trigger] prefix[t]).1.1
                                        == ItemKind::Key(q);
                                assert(next[t] == prefix[t]);
                            }
                        }
                    }
                },
                _ => {
                    proof {
                        assert(fold_hides(next) =~= folds@);
                        assert(fold_shows(next) =~= unfolds@);
                        assert forall|q: u32|
                            state_defined(key_states@, q) <==> has_key_target(next, q) by {
                            if has_key_target(next, q) {
                                let t = choose|t: int|
                                    0 <= t < next.len() && (#[trigger] next[t]).1.1
                                        == ItemKind::Key(q);
                                assert(t < prefix.len());
                                assert(prefix[t] == next[t]);
                            }
                            if has_key_target(prefix, q) {
                                let t = choose|t: int|
                                    0 <= t < prefix.len() && (#[trigger] prefix[t]).1.1
                                        == ItemKind::Key(q);
                                assert(next[t] == prefix[t]);
                            }
                        }
                    }
                },
            }
            i += 1;
        }
        proof {
            assert(mm.subrange(0, mm.len() as int) =~= mm);
        }
        let km_entries = key_map.iter();
        let ghost km = key_map@;
        let mut handler: Vec<(Keys, ItemKind)> = Vec::new();
        let mut j: usize = 0;
        proof {
            assert(km.subrange(0, 0) =~= Seq::<(Seq<char>, Seq<u32>)>::empty());
            assert(idx_model(handler@) =~= Seq::<(Seq<u32>, ItemKind)>::empty());
        }
        while j < km_entries.len()
            invariant
                j <= km_entries@.len(),
                km_model(km_entries@) == km,
                km == key_map@,
                km_wf(km),
                mm == mmd_map@,
                idx_model(handler@) == build_index(mm, km.subrange(0, j as int)),
                idx_wf(idx_model(handler@)),
            decreases km_entries@.len() - j,
        {
            let ghost prefix = km.subrange(0, j as int);
            let ghost next = km.subrange(0, j + 1 as int);
            proof {
                assert(next.drop_last() =~= prefix);
                assert(next.last() == km[j as int]);
                assert(km[j as int].0 == km_entries@[j as int].0@);
                assert(km[j as int].1 == km_entries@[j as int].1@);
            }
            match mmd_map.get(km_entries[j].0.as_str()) {
                Some(item) => {
                    let chord = &km_entries[j].1;
                    if !chord.is_empty() {
                        let kind = item.kind;
                        proof {
                            assert(strictly_sorted(km[j as int].1));
                        }
                        idx_insert_exec(&mut handler, chord.clone(), kind);
                    }
                },
                None => {},
            }
            proof {
                assert(idx_model(handler@) == build_index(mm, next));
            }
            j += 1;
        }
        proof {
            assert(km.subrange(0, km.len() as int) =~= km);
        }
        let input = vec![0u8; 256];
        let r = Handler {
            input,
            input_keys: Keys::with_capacity(3),
            handler,
            key_states,
            folds,
            unfolds,
        };
        r
    }
}



/// One index entry's effect on the release pass: starting from the state
/// table that reflects the already-scanned prefix, clearing the entry's
/// `Key` target exactly when its chord is no longer held yields the table
/// that reflects the prefix extended by this entry.
proof fn lemma_release_step(
    states0: Seq<(u32, bool)>,
    pre: Seq<(u32, bool)>,
    cur: Seq<(u32, bool)>,
    prefix: Seq<(Seq<u32>, ItemKind)>,
    entry: (Seq<u32>, ItemKind),
    st: Seq<u8>,
    changed: Option<u32>,
)
    requires
        states_track(pre, states0, prefix, st),
        match changed {
            Some(k) => entry.1 == ItemKind::Key(k) && !chord_still_held(entry.0, st) && (forall|
                q: u32,
            | #![trigger state_of(pre, q)]
                state_of(cur, q) == (if q == k && state_defined(pre, q) {
                    false
                } else {
                    state_of(pre, q)
                })) && (forall|q: u32| #![trigger state_defined(pre, q)]
                state_defined(cur, q) == state_defined(pre, q)),
            None => cur == pre && !(entry.1 is Key && !chord_still_held(entry.0, st)),
        },
    ensures
        states_track(cur, states0, prefix.push(entry), st),
{
    let next = prefix.push(entry);
    assert(next.drop_last() =~= prefix);
    assert(next.last() == entry);
    assert forall|q: u32|
        released(next, st, q) == (released(prefix, st, q) || (entry.1 == ItemKind::Key(q)
            && !chord_still_held(entry.0, st))) by {
        if released(next, st, q) {
            let t = choose|t: int|
                0 <= t < next.len() && (#[trigger] next[t]).1 == ItemKind::Key(q)
                    && !chord_still_held(next[t].0, st);
            if t < prefix.len() {
                assert(prefix[t] == next[t]);
                assert(released(prefix, st, q));
            } else {
                assert(next[t] == entry);
            }
        }
        if released(prefix, st, q) {
            let t = choose|t: int|
                0 <= t < prefix.len() && (#[trigger] prefix[t]).1 == ItemKind::Key(q)
                    && !chord_still_held(prefix[t].0, st);
            assert(next[t] == prefix[t]);
            assert(released(next, st, q));
        }
        if entry.1 == ItemKind::Key(q) && !chord_still_held(entry.0, st) {
            assert(next[next.len() - 1] == entry);
            assert(released(next, st, q));
        }
    }
    match changed {
        Some(k) => {
            assert forall|q: u32|
                state_of(cur, q) == (state_of(states0, q) && !released(next, st, q)) by {
                assert(state_of(pre, q) == (state_of(states0, q) && !released(prefix, st, q)));
                assert(state_defined(pre, q) == state_defined(states0, q));
                assert(state_of(cur, q) == (if q == k && state_defined(pre, q) {
                    false
                } else {
                    state_of(pre, q)
                }));
                if q == k {
                    assert(released(next, st, k));
                    if !state_defined(pre, k) {
                        lemma_state_of_undefined(pre, k);
                    }
                }
            }
            assert forall|q: u32|
                state_defined(cur, q) == state_defined(states0, q) by {
                assert(state_defined(cur, q) == state_defined(pre, q));
                assert(state_defined(pre, q) == state_defined(states0, q));
            }
        },
        None => {
            assert forall|q: u32|
                state_of(cur, q) == (state_of(states0, q) && !released(next, st, q)) by {
                assert(state_of(pre, q) == (state_of(states0, q) && !released(prefix, st, q)));
            }
            assert forall|q: u32|
                state_defined(cur, q) == state_defined(states0, q) by {
                assert(state_defined(pre, q) == state_defined(states0, q));
            }
        },
    }
}

/// A target without a slot is never reported pressed.
proof fn lemma_state_of_undefined(m: Seq<(u32, bool)>, k: u32)
    requires
        !state_defined(m, k),
    ensures
        !state_of(m, k),
    decreases m.len(),
{
    if m.len() > 0 {
        assert(m[0].0 != k);
        assert(!state_defined(m.drop_first(), k)) by {
            if state_defined(m.drop_first(), k) {
                let t = choose|t: int|
                    0 <= t < m.drop_first().len() && (#[trigger] m.drop_first()[t]).0 == k;
                assert(m[t + 1].0 == k);
            }
        }
        lemma_state_of_undefined(m.drop_first(), k);
    }
}

/// For canonical chords, looking up by held state agrees with looking up
/// the state's canonical chord exactly.
proof fn lemma_lookup_state_exact(m: Seq<(Seq<u32>, ItemKind)>, st: Seq<u8>, c: Seq<u32>)
    requires
        forall|i: int| 0 <= i < m.len() ==> strictly_sorted((#[trigger] m[i]).0),
        strictly_sorted(c),
        chord_matches_state(c, st),
    ensures
        lookup_state(m, st) == lookup_exact(m, c),
    decreases m.len(),
{
    if m.len() > 0 {
        if m[0].0 == c {
            assert(chord_matches_state(m[0].0, st));
        } else {
            if chord_matches_state(m[0].0, st) {
                assert forall|x: u32| m[0].0.contains(x) <==> c.contains(x) by {}
                lemma_canonical_unique(m[0].0, c);
            }
            assert(forall|i: int|
                0 <= i < m.drop_first().len() ==> (#[trigger] m.drop_first()[i]) == m[i + 1]);
            lemma_lookup_state_exact(m.drop_first(), st, c);
        }
    }
}

/// In a well-formed index every chord is non-empty, so nothing is bound to
/// the empty chord: with no keys recorded as held, no binding matches, and
/// the empty chord itself looks up nothing.
pub proof fn lemma_empty_chord_never_fires(m: Seq<(Seq<u32>, ItemKind)>, st: Seq<u8>)
    requires
        idx_wf(m),
        forall|k: u32| !active_in_state(st, k),
    ensures
        lookup_state(m, st) is None,
        lookup_exact(m, Seq::<u32>::empty()) is None,
    decreases m.len(),
{
    if m.len() > 0 {
        assert(m[0].0.len() > 0);
        if chord_matches_state(m[0].0, st) {
            assert(m[0].0.contains(m[0].0[0]));
            assert(active_in_state(st, m[0].0[0]));
        }
        assert(m[0].0 != Seq::<u32>::empty());
        assert(idx_wf(m.drop_first())) by {
            assert(forall|i: int|
                0 <= i < m.drop_first().len() ==> (#[trigger] m.drop_first()[i]) == m[i + 1]);
        }
        lemma_empty_chord_never_fires(m.drop_first(), st);
    }
}

/// The action bound to exactly the chord `c`, scanned in index order.
fn lookup_chord(idx: &Vec<(Keys, ItemKind)>, c: &Keys) -> (r: Option<ItemKind>)
    ensures
        r == lookup_exact(idx_model(idx@), c@),
{
    let ghost m = idx_model(idx@);
    let mut i: usize = 0;
    proof {
        assert(m.subrange(0, m.len() as int) =~= m);
    }
    while i < idx.len()
        invariant
            i <= idx@.len(),
            m == idx_model(idx@),
            lookup_exact(m, c@) == lookup_exact(m.subrange(i as int, m.len() as int), c@),
        decreases idx@.len() - i,
    {
        let ghost rest = m.subrange(i as int, m.len() as int);
        proof {
            assert(rest[0] == m[i as int]);
            assert(rest.drop_first() =~= m.subrange(i + 1 as int, m.len() as int));
            assert(m[i as int].0 == idx@[i as int].0@);
        }
        if idx[i].0 == *c {
            return Some(idx[i].1);
        }
        i += 1;
    }
    proof {
        assert(m.subrange(i as int, m.len() as int) =~= Seq::<(Seq<u32>, ItemKind)>::empty());
    }
    None
}


/// Clear `kind`'s `Key` target when `chord` is no longer fully held, taking
/// the state table from reflecting the scanned prefix to reflecting the
/// prefix extended by this entry.
#[verifier::rlimit(50)]
#[verifier::spinoff_prover]
fn release_if_broken(
    states: &mut Vec<(u32, bool)>,
    chord: &Keys,
    kind: ItemKind,
    held: &Keys,
    Ghost(st): Ghost<Seq<u8>>,
    Ghost(states0): Ghost<Seq<(u32, bool)>>,
    Ghost(prefix): Ghost<Seq<(Seq<u32>, ItemKind)>>,
)
    requires
        states_wf(old(states)@),
        chord.wf(),
        held.wf(),
        chord_matches_state(held@, st),
        states_track(old(states)@, states0, prefix, st),
    ensures
        states_wf(final(states)@),
        states_track(final(states)@, states0, prefix.push((chord@, kind)), st),
{
    let ghost pre = states@;
    let ghost entry = (chord@, kind);
    match kind {
        ItemKind::Key(k) => {
            let inc = chord.is_included(held);
            proof {
                assert(inc == chord_still_held(entry.0, st)) by {
                    let c = entry.0;
                    if inc {
                        assert forall|x: u32| c.contains(x) implies active_in_state(st, x) by {
                            assert(held@.contains(x));
                        }
                    }
                    if chord_still_held(c, st) {
                        assert forall|x: u32| c.contains(x) implies held@.contains(x) by {
                            assert(active_in_state(st, x));
                        }
                    }
                }
            }
            if !inc {
                set_state(states, k, false);
                proof {
                    lemma_release_step(states0, pre, states@, prefix, entry, st, Some(k));
                }
                return ;
            }
            proof {
                lemma_release_step(states0, pre, states@, prefix, entry, st, None);
            }
            return ;
        },
        _ => {
            proof {
                lemma_release_step(states0, pre, states@, prefix, entry, st, None);
            }
            return ;
        },
    }
}

impl Handler {
    /// Consume one key-down edge: record the press, look up the full held
    /// chord, fall back to the pressed key alone, and return the bound
    /// action, if any, for the caller to perform. A matched `Key` target is
    /// marked asserted here. Codes outside the press table are ignored.
    pub fn key_down(&mut self, vk: u32) -> (r: Option<ItemKind>)
        requires
            old(self).wf(),
        ensures
            final(self).wf(),
            final(self).index_spec() == old(self).index_spec(),
            final(self).folds_spec() == old(self).folds_spec(),
            final(self).unfolds_spec() == old(self).unfolds_spec(),
            vk >= 256 ==> final(self).input_spec() == old(self).input_spec() && final(self).states_spec() == old(self).states_spec() && r is None,
            vk < 256 ==> final(self).input_spec() == old(self).input_spec().update(
                vk as int,
                0x80u8,
            ) && r == dispatch_spec(old(self).index_spec(), final(self).input_spec(), vk),
            vk < 256 ==> match r {
                Some(ItemKind::Key(k)) => (forall|q: u32|
                    state_of(final(self).states_spec(), q) == (if q == k && state_defined(
                        old(self).states_spec(),
                        q,
                    ) {
                        true
                    } else {
                        state_of(old(self).states_spec(), q)
                    })) && (forall|q: u32|
                    state_defined(final(self).states_spec(), q) == state_defined(
                        old(self).states_spec(),
                        q,
                    )),
                _ => final(self).states_spec() == old(self).states_spec(),
            },
    {
        if vk >= 256 {
            return None;
        }
        self.input[vk as usize] = 0x80;
        self.input_keys.keyboard_state(self.input.as_slice());
        let first = lookup_chord(&self.handler, &self.input_keys);
        proof {
            lemma_lookup_state_exact(idx_model(self.handler@), self.input@, self.input_keys@);
        }
        let matched = match first {
            Some(kind) => Some(kind),
            None => {
                self.input_keys.vk(vk);
                lookup_chord(&self.handler, &self.input_keys)
            },
        };
        match matched {
            Some(kind) => {
                match kind {
                    ItemKind::Key(k) => {
                        set_state(&mut self.key_states, k, true);
                    },
                    _ => {},
                }
                Some(kind)
            },
            None => None,
        }
    }

    /// Consume one key-up edge: record the release and, for every `Key`
    /// binding whose chord is no longer fully held, clear its target's
    /// asserted flag — a multi-key action releases as soon as any of its
    /// constituent keys does. Codes outside the press table are ignored.
    pub fn key_up(&mut self, vk: u32)
        requires
            old(self).wf(),
        ensures
            final(self).wf(),
            final(self).index_spec() == old(self).index_spec(),
            final(self).folds_spec() == old(self).folds_spec(),
            final(self).unfolds_spec() == old(self).unfolds_spec(),
            vk >= 256 ==> final(self).input_spec() == old(self).input_spec() && final(self).states_spec() == old(self).states_spec(),
            vk < 256 ==> final(self).input_spec() == old(self).input_spec().update(
                vk as int,
                0u8,
            ),
            vk < 256 ==> states_track(
                final(self).states_spec(),
                old(self).states_spec(),
                old(self).index_spec(),
                final(self).input_spec(),
            ),
    {
        if vk >= 256 {
            return ;
        }
        self.input[vk as usize] = 0x00;
        self.input_keys.keyboard_state(self.input.as_slice());
        let ghost st = self.input@;
        let ghost idx0 = idx_model(self.handler@);
        let ghost states0 = self.key_states@;
        let mut i: usize = 0;
        proof {
            assert(idx0.subrange(0, 0) =~= Seq::<(Seq<u32>, ItemKind)>::empty());
            assert(states_track(self.key_states@, states0, idx0.subrange(0, 0), st)) by {
                assert forall|q: u32| !released(idx0.subrange(0, 0), st, q) by {}
            }
        }
        while i < self.handler.len()
            invariant
                i <= self.handler@.len(),
                self.input@ == st,
                st.len() == 256,
                st == old(self).input_spec().update(vk as int, 0u8),
                idx_model(self.handler@) == idx0,
                idx0 == old(self).index_spec(),
                idx_wf(idx0),
                self.folds@ == old(self).folds_spec(),
                self.unfolds@ == old(self).unfolds_spec(),
                strictly_sorted(self.input_keys@),
                chord_matches_state(self.input_keys@, st),
                states0 == old(self).states_spec(),
                states_wf(self.key_states@),
                states_track(self.key_states@, states0, idx0.subrange(0, i as int), st),
            decreases self.handler@.len() - i,
        {
            let ghost prefix = idx0.subrange(0, i as int);
            let ghost next = idx0.subrange(0, i + 1 as int);
            proof {
                assert(next.drop_last() =~= prefix);
                assert(next.last() == idx0[i as int]);
                assert(idx0[i as int].0 == self.handler@[i as int].0@);
                assert(idx0[i as int].1 == self.handler@[i as int].1);
            }
            let kind = self.handler[i].1;
            let ghost entry = idx0[i as int];
            proof {
                assert(entry == (self.handler@[i as int].0@, self.handler@[i as int].1));
            }
            let chord = &self.handler[i].0;
            release_if_broken(
                &mut self.key_states,
                chord,
                kind,
                &self.input_keys,
                Ghost(st),
                Ghost(states0),
                Ghost(prefix),
            );
            i += 1;
            proof {
                assert(prefix.push((entry.0, kind)) =~= idx0.subrange(0, i as int));
            }
        }
        proof {
            assert(idx0.subrange(0, idx0.len() as int) =~= idx0);
            assert(states_track(self.key_states@, states0, idx0, st));
        }
    }
}

} // verus!
