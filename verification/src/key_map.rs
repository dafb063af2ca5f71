//! The user bindings: symbolic action name to chord, in insertion order with
//! unique names, loaded from and saved to a flat declarative object whose
//! values are the chords' ascending code lists.

use vstd::prelude::*;

use crate::config_value::ConfigValue;
use crate::keys::{canon_of, strictly_sorted, Keys};
use crate::text::{chars_eq, collect_chars};

verus! {

/// The specification view of the bindings: (name, chord) pairs.
pub open spec fn km_model(s: Seq<(String, Keys)>) -> Seq<(Seq<char>, Seq<u32>)> {
    s.map_values(|e: (String, Keys)| (e.0@, e.1@))
}

/// The chord bound under `name`, if any (first match).
pub open spec fn km_lookup(m: Seq<(Seq<char>, Seq<u32>)>, name: Seq<char>) -> Option<Seq<u32>>
    decreases m.len(),
{
    if m.len() == 0 {
        None
    } else if m[0].0 == name {
        Some(m[0].1)
    } else {
        km_lookup(m.drop_first(), name)
    }
}

/// Bind `name` to `keys`: replace the existing entry in place, or append.
pub open spec fn km_insert(
    m: Seq<(Seq<char>, Seq<u32>)>,
    name: Seq<char>,
    keys: Seq<u32>,
) -> Seq<(Seq<char>, Seq<u32>)>
    decreases m.len(),
{
    if m.len() == 0 {
        seq![(name, keys)]
    } else if m[0].0 == name {
        seq![(name, keys)] + m.drop_first()
    } else {
        seq![m[0]] + km_insert(m.drop_first(), name, keys)
    }
}

/// The codes carried by an array of unsigned integers that all fit a `u32`,
/// in writing order.
pub open spec fn codes_of(items: Seq<ConfigValue>) -> Option<Seq<u32>>
    decreases items.len(),
{
    if items.len() == 0 {
        Some(Seq::empty())
    } else {
        match codes_of(items.drop_last()) {
            Some(rest) => match items.last() {
                ConfigValue::UInt(n) => if n <= u32::MAX {
                    Some(rest.push(n as u32))
                } else {
                    None
                },
                _ => None,
            },
            None => None,
        }
    }
}

/// The code list a chord value carries on the wire.
pub open spec fn chord_codes(v: ConfigValue) -> Option<Seq<u32>> {
    match v {
        ConfigValue::Array(items) => codes_of(items@),
        _ => None,
    }
}

/// The bindings a flat object denotes, built entry by entry: every value must
/// be a code array (else the whole load fails), each chord is canonicalized,
/// and a repeated name keeps the later entry.
pub open spec fn km_from_entries(entries: Seq<(String, ConfigValue)>) -> Option<
    Seq<(Seq<char>, Seq<u32>)>,
>
    decreases entries.len(),
{
    if entries.len() == 0 {
        Some(Seq::empty())
    } else {
        match km_from_entries(entries.drop_last()) {
            Some(m) => match chord_codes(entries.last().1) {
                Some(codes) => Some(km_insert(m, entries.last().0@, canon_of(codes))),
                None => None,
            },
            None => None,
        }
    }
}

/// The bindings a declarative value denotes: the value must be an object.
pub open spec fn km_from_value(v: ConfigValue) -> Option<Seq<(Seq<char>, Seq<u32>)>> {
    match v {
        ConfigValue::Object(entries) => km_from_entries(entries@),
        _ => None,
    }
}

/// The entries written on save: bindings with empty chords are omitted.
pub open spec fn km_save(m: Seq<(Seq<char>, Seq<u32>)>) -> Seq<(Seq<char>, Seq<u32>)>
    decreases m.len(),
{
    if m.len() == 0 {
        Seq::empty()
    } else if m[0].1.len() > 0 {
        seq![m[0]] + km_save(m.drop_first())
    } else {
        km_save(m.drop_first())
    }
}

/// Saved object entries `es` carry exactly the bindings `m`: same names in
/// order, and each value is the chord's code array.
pub open spec fn save_entries_match(
    es: Seq<(String, ConfigValue)>,
    m: Seq<(Seq<char>, Seq<u32>)>,
) -> bool {
    es.len() == m.len() && forall|i: int|
        0 <= i < es.len() ==> (#[trigger] es[i]).0@ == m[i].0 && chord_codes(es[i].1) == Some(
            m[i].1,
        )
}

/// The codes a chord value carries, read off an array of fitting unsigned
/// integers.
fn chord_value_codes(v: &ConfigValue) -> (r: Option<Vec<u32>>)
    ensures
        match r {
            Some(cs) => chord_codes(*v) == Some(cs@),
            None => chord_codes(*v) is None,
        },
{
    let items = match v {
        ConfigValue::Array(items) => items,
        _ => {
            return None;
        },
    };
    let mut codes: Vec<u32> = Vec::new();
    let mut j: usize = 0;
    proof {
        assert(items@.subrange(0, 0) =~= Seq::<ConfigValue>::empty());
        assert(codes_of(items@.subrange(0, 0)) == Some(codes@));
    }
    while j < items.len()
        invariant
            j <= items@.len(),
            *v == ConfigValue::Array(*items),
            codes_of(items@.subrange(0, j as int)) == Some(codes@),
        decreases items@.len() - j,
    {
        let ghost sub_next = items@.subrange(0, j + 1 as int);
        proof {
            assert(sub_next.drop_last() =~= items@.subrange(0, j as int));
            assert(sub_next.last() == items@[j as int]);
        }
        match &items[j] {
            ConfigValue::UInt(c) => {
                if *c <= 0xFFFF_FFFFu64 {
                    codes.push(*c as u32);
                } else {
                    proof {
                        assert(codes_of(sub_next) is None);
                        lemma_codes_of_none_extends(items@, j + 1, items@.len() as int);
                        assert(items@.subrange(0, items@.len() as int) =~= items@);
                    }
                    return None;
                }
            },
            _ => {
                proof {
                    assert(codes_of(sub_next) is None);
                    lemma_codes_of_none_extends(items@, j + 1, items@.len() as int);
                    assert(items@.subrange(0, items@.len() as int) =~= items@);
                }
                return None;
            },
        }
        j += 1;
    }
    proof {
        assert(items@.subrange(0, items@.len() as int) =~= items@);
    }
    Some(codes)
}

/// The user bindings, keyed by symbolic action name.
pub struct KeyMap(Vec<(String, Keys)>);

impl View for KeyMap {
    type V = Seq<(Seq<char>, Seq<u32>)>;

    closed spec fn view(&self) -> Seq<(Seq<char>, Seq<u32>)> {
        km_model(self.0@)
    }
}

/// Every bound chord is canonical.
pub open spec fn km_wf(m: Seq<(Seq<char>, Seq<u32>)>) -> bool {
    forall|i: int| 0 <= i < m.len() ==> strictly_sorted((#[trigger] m[i]).1)
}

/// Inserting under a name that sits at position `i`, with no earlier entry of
/// that name, replaces position `i`.
proof fn lemma_km_insert_at(
    m: Seq<(Seq<char>, Seq<u32>)>,
    name: Seq<char>,
    keys: Seq<u32>,
    i: int,
)
    requires
        0 <= i < m.len(),
        m[i].0 == name,
        forall|t: int| 0 <= t < i ==> (#[trigger] m[t]).0 != name,
    ensures
        km_insert(m, name, keys) == m.update(i, (name, keys)),
    decreases i,
{
    if i == 0 {
        assert(km_insert(m, name, keys) =~= m.update(0, (name, keys)));
    } else {
        let t = m.drop_first();
        assert(forall|u: int| 0 <= u < i - 1 ==> (#[trigger] t[u]) == m[u + 1]);
        lemma_km_insert_at(t, name, keys, i - 1);
        assert(km_insert(m, name, keys) =~= m.update(i, (name, keys)));
    }
}

/// Inserting a name bound nowhere appends.
proof fn lemma_km_insert_absent(m: Seq<(Seq<char>, Seq<u32>)>, name: Seq<char>, keys: Seq<u32>)
    requires
        forall|t: int| 0 <= t < m.len() ==> (#[trigger] m[t]).0 != name,
    ensures
        km_insert(m, name, keys) == m.push((name, keys)),
    decreases m.len(),
{
    if m.len() == 0 {
        assert(km_insert(m, name, keys) =~= m.push((name, keys)));
    } else {
        let t = m.drop_first();
        assert(forall|u: int| 0 <= u < t.len() ==> (#[trigger] t[u]) == m[u + 1]);
        lemma_km_insert_absent(t, name, keys);
        assert(km_insert(m, name, keys) =~= m.push((name, keys)));
    }
}

/// Once one entry fails to load, every longer prefix fails too.
proof fn lemma_km_from_none_extends(entries: Seq<(String, ConfigValue)>, i: int, j: int)
    requires
        0 <= i <= j <= entries.len(),
        km_from_entries(entries.subrange(0, i)) is None,
    ensures
        km_from_entries(entries.subrange(0, j)) is None,
    decreases j - i,
{
    if j > i {
        lemma_km_from_none_extends(entries, i, j - 1);
        assert(entries.subrange(0, j).drop_last() =~= entries.subrange(0, j - 1));
    }
}

impl KeyMap {
    /// Every bound chord is canonical.
    pub open spec fn wf(&self) -> bool {
        km_wf(self@)
    }

    /// An empty bindings map.
    pub fn new() -> (r: Self)
        ensures
            r@ == Seq::<(Seq<char>, Seq<u32>)>::empty(),
            r.wf(),
    {
        let r = KeyMap(Vec::new());
        proof {
            assert(r@ =~= Seq::<(Seq<char>, Seq<u32>)>::empty());
        }
        r
    }

    /// Bind `k` to `v`: replace an existing entry in place or append.
    pub fn insert(&mut self, k: &str, v: Keys)
        requires
            old(self).wf(),
            v.wf(),
        ensures
            final(self)@ == km_insert(old(self)@, k@, v@),
            final(self).wf(),
    {
        let kcs = collect_chars(k);
        let n = kcs.len();
        let ghost m = self@;
        let mut i: usize = 0;
        while i < self.0.len()
            invariant
                i <= self.0@.len(),
                kcs@ == k@,
                n == kcs@.len(),
                self@ == m,
                m == old(self)@,
                self.wf(),
                v.wf(),
                forall|t: int| 0 <= t < i ==> (#[trigger] m[t]).0 != k@,
            decreases self.0@.len() - i,
        {
            let hit = chars_eq(&kcs, 0, n, self.0[i].0.as_str());
            proof {
                assert(kcs@.subrange(0, n as int) =~= k@);
                assert(m[i as int].0 == self.0@[i as int].0@);
            }
            if hit {
                let ghost pre = self.0@;
                let name = self.0.remove(i);
                let ghost mid = self.0@;
                let nm = name.0;
                self.0.insert(i, (nm, v));
                proof {
                    pre.remove_ensures(i as int);
                    mid.insert_ensures(i as int, (nm, v));
                    lemma_km_insert_at(m, k@, v@, i as int);
                    assert(nm@ == k@);
                    assert forall|t: int| 0 <= t < self.0@.len() implies self.0@[t] == pre.update(
                        i as int,
                        (nm, v),
                    )[t] by {
                        if t < i {
                            assert(self.0@[t] == mid[t]);
                        } else if t > i {
                            assert(self.0@[t] == mid[t - 1]);
                            assert(mid[t - 1] == pre[t]);
                        }
                    }
                    assert(self.0@ =~= pre.update(i as int, (nm, v)));
                    assert(self@ =~= m.update(i as int, (k@, v@)));
                }
                return ;
            }
            i += 1;
        }
        self.0.push((String::from_str(k), v));
        proof {
            lemma_km_insert_absent(m, k@, v@);
            assert(self@ =~= m.push((k@, v@)));
            assert(forall|t: int| 0 <= t < m.len() ==> self@[t] == m[t]);
        }
    }

    /// The chord bound under `k`, if any.
    pub fn get(&self, k: &str) -> (r: Option<&Keys>)
        ensures
            match r {
                Some(keys) => km_lookup(self@, k@) == Some(keys@),
                None => km_lookup(self@, k@) is None,
            },
    {
        let kcs = collect_chars(k);
        let n = kcs.len();
        let mut i: usize = 0;
        proof {
            assert(self@.subrange(0, self@.len() as int) =~= self@);
        }
        while i < self.0.len()
            invariant
                i <= self.0@.len(),
                kcs@ == k@,
                n == kcs@.len(),
                km_lookup(self@, k@) == km_lookup(
                    self@.subrange(i as int, self@.len() as int),
                    k@,
                ),
            decreases self.0@.len() - i,
        {
            let ghost rest = self@.subrange(i as int, self@.len() as int);
            proof {
                assert(rest[0] == self@[i as int]);
                assert(rest.drop_first() =~= self@.subrange(i + 1 as int, self@.len() as int));
            }
            let hit = chars_eq(&kcs, 0, n, self.0[i].0.as_str());
            proof {
                assert(kcs@.subrange(0, n as int) =~= k@);
            }
            if hit {
                return Some(&self.0[i].1);
            }
            i += 1;
        }
        proof {
            assert(self@.subrange(i as int, self@.len() as int) =~= Seq::<
                (Seq<char>, Seq<u32>),
            >::empty());
        }
        None
    }

    /// The bindings, in insertion order.
    pub fn iter(&self) -> (r: &Vec<(String, Keys)>)
        ensures
            km_model(r@) == self@,
    {
        &self.0
    }

    /// Load the bindings from a declarative value (see [`km_from_value`]):
    /// the value must be an object and every entry's value a code array, or
    /// the whole load fails.
    pub fn from_value(v: &ConfigValue) -> (r: Option<KeyMap>)
        ensures
            match r {
                Some(km) => km_from_value(*v) == Some(km@) && km.wf(),
                None => km_from_value(*v) is None,
            },
    {
        let entries = match v {
            ConfigValue::Object(entries) => entries,
            _ => {
                return None;
            },
        };
        let mut km = KeyMap::new();
        let mut i: usize = 0;
        proof {
            assert(entries@.subrange(0, 0) =~= Seq::<(String, ConfigValue)>::empty());
        }
        while i < entries.len()
            invariant
                i <= entries@.len(),
                *v == ConfigValue::Object(*entries),
                km_from_entries(entries@.subrange(0, i as int)) == Some(km@),
                km.wf(),
            decreases entries@.len() - i,
        {
            let ghost prefix = entries@.subrange(0, i as int);
            let ghost next = entries@.subrange(0, i + 1 as int);
            proof {
                assert(next.drop_last() =~= prefix);
                assert(next.last() == entries@[i as int]);
            }
            let codes = match chord_value_codes(&entries[i].1) {
                Some(codes) => codes,
                None => {
                    proof {
                        assert(km_from_entries(next) is None);
                        lemma_km_from_none_extends(entries@, i + 1, entries@.len() as int);
                        assert(entries@.subrange(0, entries@.len() as int) =~= entries@);
                    }
                    return None;
                },
            };
            let keys = Keys::from_slice(codes.as_slice());
            km.insert(entries[i].0.as_str(), keys);
            proof {
                assert(km_from_entries(next) == Some(km@));
            }
            i += 1;
        }
        proof {
            assert(entries@.subrange(0, entries@.len() as int) =~= entries@);
        }
        Some(km)
    }

    /// Write the bindings to a declarative object: one entry per binding with
    /// a non-empty chord, in map order, each value the chord's ascending code
    /// array. Bindings with empty chords are omitted.
    pub fn to_value(&self) -> (r: ConfigValue)
        ensures
            r is Object,
            save_entries_match(r->Object_0@, km_save(self@)),
    {
        let mut es: Vec<(String, ConfigValue)> = Vec::new();
        let mut i: usize = 0;
        proof {
            assert(self@.subrange(0, 0) =~= Seq::<(Seq<char>, Seq<u32>)>::empty());
            assert(save_entries_match(es@, km_save(self@.subrange(0, 0))));
        }
        while i < self.0.len()
            invariant
                i <= self.0@.len(),
                save_entries_match(es@, km_save(self@.subrange(0, i as int))),
            decreases self.0@.len() - i,
        {
            proof {
                lemma_km_save_step(self@, i as int);
            }
            let keys = &self.0[i].1;
            let codes = keys.codes();
            if codes.len() > 0 {
                let mut items: Vec<ConfigValue> = Vec::new();
                let mut j: usize = 0;
                proof {
                    assert(items@.subrange(0, 0) =~= Seq::<ConfigValue>::empty());
                }
                while j < codes.len()
                    invariant
                        j <= codes@.len(),
                        j == items@.len(),
                        codes_of(items@) == Some(codes@.subrange(0, j as int)),
                    decreases codes@.len() - j,
                {
                    let ghost pre = items@;
                    items.push(ConfigValue::UInt(codes[j] as u64));
                    proof {
                        assert(items@.drop_last() =~= pre);
                        assert(codes@.subrange(0, j + 1 as int) =~= codes@.subrange(
                            0,
                            j as int,
                        ).push(codes@[j as int]));
                    }
                    j += 1;
                }
                proof {
                    assert(codes@.subrange(0, codes@.len() as int) =~= codes@);
                }
                let ghost pre_es = es@;
                es.push((self.0[i].0.clone(), ConfigValue::Array(items)));
                proof {
                    let saved = km_save(self@.subrange(0, i + 1 as int));
                    assert(saved =~= km_save(self@.subrange(0, i as int)).push(self@[i as int]));
                    assert(forall|t: int| 0 <= t < pre_es.len() ==> es@[t] == pre_es[t]);
                    assert(es@.last().0@ == self@[i as int].0);
                    assert(chord_codes(es@.last().1) == Some(self@[i as int].1));
                    assert(save_entries_match(es@, saved));
                }
            } else {
                proof {
                    assert(km_save(self@.subrange(0, i + 1 as int)) =~= km_save(
                        self@.subrange(0, i as int),
                    ));
                }
            }
            i += 1;
        }
        proof {
            assert(self@.subrange(0, self@.len() as int) =~= self@);
        }
        ConfigValue::Object(es)
    }
}

/// Once one array element fails to read as a code, every longer prefix fails.
proof fn lemma_codes_of_none_extends(items: Seq<ConfigValue>, i: int, j: int)
    requires
        0 <= i <= j <= items.len(),
        codes_of(items.subrange(0, i)) is None,
    ensures
        codes_of(items.subrange(0, j)) is None,
    decreases j - i,
{
    if j > i {
        lemma_codes_of_none_extends(items, i, j - 1);
        assert(items.subrange(0, j).drop_last() =~= items.subrange(0, j - 1));
    }
}

/// Saving a one-longer prefix appends the entry when its chord is non-empty
/// and changes nothing otherwise.
proof fn lemma_km_save_step(m: Seq<(Seq<char>, Seq<u32>)>, i: int)
    requires
        0 <= i < m.len(),
    ensures
        m[i].1.len() > 0 ==> km_save(m.subrange(0, i + 1)) == km_save(m.subrange(0, i)).push(m[i]),
        m[i].1.len() == 0 ==> km_save(m.subrange(0, i + 1)) == km_save(m.subrange(0, i)),
    decreases i,
{
    if i == 0 {
        let s = m.subrange(0, 1);
        assert(s.drop_first() =~= Seq::<(Seq<char>, Seq<u32>)>::empty());
        assert(m.subrange(0, 0) =~= Seq::<(Seq<char>, Seq<u32>)>::empty());
        assert(s[0] == m[0]);
        if m[0].1.len() > 0 {
            assert(km_save(s) =~= km_save(m.subrange(0, 0)).push(m[0]));
        }
    } else {
        let t = m.drop_first();
        lemma_km_save_step(t, i - 1);
        let a = m.subrange(0, i + 1);
        let b = m.subrange(0, i);
        assert(a.drop_first() =~= t.subrange(0, i));
        assert(b.drop_first() =~= t.subrange(0, i - 1));
        assert(t[i - 1] == m[i]);
        assert(a[0] == m[0] && b[0] == m[0]);
        if m[i].1.len() > 0 {
            assert(km_save(a) =~= km_save(b).push(m[i]));
        } else {
            assert(km_save(a) =~= km_save(b));
        }
    }
}

/// A one-code chord.
fn chord1(a: u32) -> (r: Keys)
    ensures
        r@ == canon_of(seq![a]),
        r.wf(),
{
    let mut v: Vec<u32> = Vec::new();
    v.push(a);
    proof {
        assert(v@ =~= seq![a]);
    }
    Keys::from_slice(v.as_slice())
}

/// A two-code chord.
fn chord2(a: u32, b: u32) -> (r: Keys)
    ensures
        r@ == canon_of(seq![a, b]),
        r.wf(),
{
    let mut v: Vec<u32> = Vec::new();
    v.push(a);
    v.push(b);
    proof {
        assert(v@ =~= seq![a, b]);
    }
    Keys::from_slice(v.as_slice())
}


/// With no empty chord to omit, saving writes every binding.
proof fn lemma_km_save_all(m: Seq<(Seq<char>, Seq<u32>)>)
    requires
        forall|i: int| 0 <= i < m.len() ==> (#[trigger] m[i]).1.len() > 0,
    ensures
        km_save(m) == m,
    decreases m.len(),
{
    if m.len() > 0 {
        let t = m.drop_first();
        assert(forall|i: int| 0 <= i < t.len() ==> (#[trigger] t[i]) == m[i + 1]);
        lemma_km_save_all(t);
        assert(km_save(m) =~= m);
    }
}

/// Round trip: saving bindings and loading the saved object back reproduces
/// them exactly, provided every action is bound at most once, every chord is
/// canonical, and no binding is empty. (A binding with an empty chord is
/// represented by omission on save, so it would be absent after the trip.)
pub proof fn lemma_bindings_round_trip(
    m: Seq<(Seq<char>, Seq<u32>)>,
    es: Seq<(String, ConfigValue)>,
)
    requires
        forall|i: int, j: int| 0 <= i < j < m.len() ==> m[i].0 != m[j].0,
        km_wf(m),
        forall|i: int| 0 <= i < m.len() ==> (#[trigger] m[i]).1.len() > 0,
        save_entries_match(es, km_save(m)),
    ensures
        km_from_entries(es) == Some(m),
    decreases es.len(),
{
    lemma_km_save_all(m);
    assert(es.len() == m.len());
    if es.len() == 0 {
        assert(m =~= Seq::<(Seq<char>, Seq<u32>)>::empty());
    } else {
        let md = m.drop_last();
        let ed = es.drop_last();
        assert(forall|i: int| 0 <= i < md.len() ==> (#[trigger] md[i]) == m[i]);
        assert(forall|i: int| 0 <= i < ed.len() ==> (#[trigger] ed[i]) == es[i]);
        assert(km_wf(md));
        lemma_km_save_all(md);
        assert(save_entries_match(ed, km_save(md)));
        lemma_bindings_round_trip(md, ed);
        assert(chord_codes(es.last().1) == Some(m.last().1));
        crate::keys::lemma_canon_fixpoint(m.last().1);
        assert(forall|t: int| 0 <= t < md.len() ==> (#[trigger] md[t]).0 != m.last().0);
        lemma_km_insert_absent(md, m.last().0, m.last().1);
        assert(md.push((m.last().0, m.last().1)) =~= m);
        assert(es.last().0@ == m.last().0);
        assert(km_from_entries(es) == Some(m));
    }
}

/// The default bindings shipped with the tool.
pub open spec fn default_bindings() -> Seq<(Seq<char>, Seq<u32>)> {
    seq![
        ("Undo"@, canon_of(seq![0x11u32, 0x5Au32])),
        ("Redo"@, canon_of(seq![0x11u32, 0x58u32])),
        ("BoneSelect"@, canon_of(seq![0x43u32])),
        ("BoneRotate"@, canon_of(seq![0x58u32])),
        ("BoneMove"@, canon_of(seq![0x5Au32])),
        ("BoneAllSelect"@, canon_of(seq![0x41u32])),
        ("BoneUnregisterSelect"@, canon_of(seq![0x53u32])),
        ("MenuViewHalfTransparency"@, canon_of(seq![0x56u32])),
        ("FramePrev"@, canon_of(seq![0x25u32])),
        ("FrameNext"@, canon_of(seq![0x27u32])),
        ("MainChangeEditor"@, canon_of(seq![0x09u32])),
        ("FrameRegister"@, canon_of(seq![0x0Du32])),
        ("FrameKeyPrev"@, canon_of(seq![0x11u32, 0x25u32])),
        ("FrameKeyNext"@, canon_of(seq![0x11u32, 0x27u32])),
        ("BonePrev"@, canon_of(seq![0x26u32])),
        ("BoneNext"@, canon_of(seq![0x28u32])),
        ("KeyCopy"@, canon_of(seq![0x11u32, 0x43u32])),
        ("KeyPaste"@, canon_of(seq![0x11u32, 0x56u32])),
        ("MenuBackgroundBlack"@, canon_of(seq![0x42u32])),
        ("MenuEditCenterBias"@, canon_of(seq![0x44u32])),
        ("ChangeSpace"@, canon_of(seq![0x4Cu32])),
        ("MenuEditAnotherFramePaste"@, canon_of(seq![0x46u32])),
        ("MenuEditInsertEmptyFrame"@, canon_of(seq![0x49u32])),
        ("MenuEditDeleteVerticalFrames"@, canon_of(seq![0x4Bu32])),
        ("MenuEditInsertEmptyFrameMorphOrLighting"@, canon_of(seq![0x55u32])),
        ("MenuEditDeleteVerticalFramesMorphOrLighting"@, canon_of(seq![0x4Au32])),
        ("MenuEditCorrectBone"@, canon_of(seq![0x52u32])),
        ("Play"@, canon_of(seq![0x50u32])),
        ("ViewBottom"@, canon_of(seq![0x30u32])),
        ("ViewFront"@, canon_of(seq![0x32u32])),
        ("ViewLeft"@, canon_of(seq![0x34u32])),
        ("ViewTop"@, canon_of(seq![0x35u32])),
        ("ViewRight"@, canon_of(seq![0x36u32])),
        ("ViewBack"@, canon_of(seq![0x38u32])),
        ("MenuFileSave"@, canon_of(seq![0x11u32, 0x53u32])),
        ("InterpolationAuto"@, canon_of(seq![0xDDu32])),
    ]
}

impl Default for KeyMap {
    /// The default bindings shipped with the tool.
    fn default() -> (r: Self)
        ensures
            r@ == default_bindings(),
            r.wf(),
    {
        let mut e: Vec<(String, Keys)> = Vec::new();
        e.push((String::from_str("Undo"), chord2(0x11, 0x5A)));
        e.push((String::from_str("Redo"), chord2(0x11, 0x58)));
        e.push((String::from_str("BoneSelect"), chord1(0x43)));
        e.push((String::from_str("BoneRotate"), chord1(0x58)));
        e.push((String::from_str("BoneMove"), chord1(0x5A)));
        e.push((String::from_str("BoneAllSelect"), chord1(0x41)));
        e.push((String::from_str("BoneUnregisterSelect"), chord1(0x53)));
        e.push((String::from_str("MenuViewHalfTransparency"), chord1(0x56)));
        e.push((String::from_str("FramePrev"), chord1(0x25)));
        e.push((String::from_str("FrameNext"), chord1(0x27)));
        e.push((String::from_str("MainChangeEditor"), chord1(0x09)));
        e.push((String::from_str("FrameRegister"), chord1(0x0D)));
        e.push((String::from_str("FrameKeyPrev"), chord2(0x11, 0x25)));
        e.push((String::from_str("FrameKeyNext"), chord2(0x11, 0x27)));
        e.push((String::from_str("BonePrev"), chord1(0x26)));
        e.push((String::from_str("BoneNext"), chord1(0x28)));
        e.push((String::from_str("KeyCopy"), chord2(0x11, 0x43)));
        e.push((String::from_str("KeyPaste"), chord2(0x11, 0x56)));
        e.push((String::from_str("MenuBackgroundBlack"), chord1(0x42)));
        e.push((String::from_str("MenuEditCenterBias"), chord1(0x44)));
        e.push((String::from_str("ChangeSpace"), chord1(0x4C)));
        e.push((String::from_str("MenuEditAnotherFramePaste"), chord1(0x46)));
        e.push((String::from_str("MenuEditInsertEmptyFrame"), chord1(0x49)));
        e.push((String::from_str("MenuEditDeleteVerticalFrames"), chord1(0x4B)));
        e.push((String::from_str("MenuEditInsertEmptyFrameMorphOrLighting"), chord1(0x55)));
        e.push((String::from_str("MenuEditDeleteVerticalFramesMorphOrLighting"), chord1(0x4A)));
        e.push((String::from_str("MenuEditCorrectBone"), chord1(0x52)));
        e.push((String::from_str("Play"), chord1(0x50)));
        e.push((String::from_str("ViewBottom"), chord1(0x30)));
        e.push((String::from_str("ViewFront"), chord1(0x32)));
        e.push((String::from_str("ViewLeft"), chord1(0x34)));
        e.push((String::from_str("ViewTop"), chord1(0x35)));
        e.push((String::from_str("ViewRight"), chord1(0x36)));
        e.push((String::from_str("ViewBack"), chord1(0x38)));
        e.push((String::from_str("MenuFileSave"), chord2(0x11, 0x53)));
        e.push((String::from_str("InterpolationAuto"), chord1(0xDD)));
        let r = KeyMap(e);
        proof {
            assert(r@ =~= default_bindings());
        }
        r
    }
}

} // verus!
