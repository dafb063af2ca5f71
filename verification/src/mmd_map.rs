//! The action table: a flat list of (symbolic name, entry) pairs read from a
//! nested declarative structure, where each entry carries a display label and
//! an action kind describing one host-UI side effect.

use vstd::prelude::*;

use crate::config_value::ConfigValue;
use crate::text::{chars_eq, collect_chars, parse_hex_u32, parse_hex_u32_spec};

verus! {

/// The stepping direction of a combo-box action.
#[derive(Clone, Copy, PartialEq, Eq, Structural, Debug)]
pub enum ComboDir {
    Prev,
    Next,
}

/// How a bound action manifests against the host UI: assert a synthetic key,
/// click a button, focus an edit box, step a combo box, invoke a menu item,
/// toggle one fold panel, defocus, or fold/unfold every panel.
#[derive(Clone, Copy, PartialEq, Eq, Structural, Debug)]
pub enum ItemKind {
    Key(u32),
    Button(u32),
    Edit(u32),
    Combo(ComboDir, u32),
    Menu(u32, u32),
    Fold(u32, u32),
    KillFocus,
    FoldAll,
    UnfoldAll,
}

impl ItemKind {
    /// The synthetic-key target id, when this is a `Key` action.
    pub fn as_key(&self) -> (r: Option<u32>)
        ensures
            r == if self is Key {
                Some(self->Key_0)
            } else {
                None::<u32>
            },
    {
        match self {
            ItemKind::Key(v) => Some(*v),
            _ => None,
        }
    }

    /// The (hide, show) control pair, when this is a `Fold` action.
    pub fn as_fold(&self) -> (r: Option<(u32, u32)>)
        ensures
            r == if self is Fold {
                Some((self->Fold_0, self->Fold_1))
            } else {
                None::<(u32, u32)>
            },
    {
        match self {
            ItemKind::Fold(h, s) => Some((*h, *s)),
            _ => None,
        }
    }
}

/// One action-table entry: display label and action kind.
pub struct Item {
    pub name: String,
    pub kind: ItemKind,
}

/// The hexadecimal id carried by a string field.
pub open spec fn hex_field(v: ConfigValue) -> Option<u32> {
    match v {
        ConfigValue::Str(s) => parse_hex_u32_spec(s@),
        _ => None,
    }
}

/// The number carried by an unsigned-integer field.
pub open spec fn u64_field(v: ConfigValue) -> Option<u64> {
    match v {
        ConfigValue::UInt(n) => Some(n),
        _ => None,
    }
}

/// The action kind a leaf array denotes: element 1 is the kind tag, and the
/// remaining arity and field shapes are fixed per tag (hexadecimal-string ids
/// for controls, decimal indices for menus, nothing for the zero-argument
/// tags). A wrong tag, arity or field yields `None`.
pub open spec fn item_kind_spec(a: Seq<ConfigValue>) -> Option<ItemKind>
    recommends
        a.len() >= 2,
{
    match a[1] {
        ConfigValue::Str(tag) => {
            let t = tag@;
            if t == "key"@ && a.len() == 3 {
                match hex_field(a[2]) {
                    Some(v) => Some(ItemKind::Key(v)),
                    None => None,
                }
            } else if t == "button"@ && a.len() == 3 {
                match hex_field(a[2]) {
                    Some(v) => Some(ItemKind::Button(v)),
                    None => None,
                }
            } else if t == "edit"@ && a.len() == 3 {
                match hex_field(a[2]) {
                    Some(v) => Some(ItemKind::Edit(v)),
                    None => None,
                }
            } else if t == "combo_prev"@ && a.len() == 3 {
                match hex_field(a[2]) {
                    Some(v) => Some(ItemKind::Combo(ComboDir::Prev, v)),
                    None => None,
                }
            } else if t == "combo_next"@ && a.len() == 3 {
                match hex_field(a[2]) {
                    Some(v) => Some(ItemKind::Combo(ComboDir::Next, v)),
                    None => None,
                }
            } else if t == "menu"@ && a.len() == 4 {
                match (u64_field(a[2]), u64_field(a[3])) {
                    (Some(x), Some(y)) => Some(ItemKind::Menu(x as u32, y as u32)),
                    _ => None,
                }
            } else if t == "fold"@ && a.len() == 4 {
                match (hex_field(a[2]), hex_field(a[3])) {
                    (Some(h), Some(s)) => Some(ItemKind::Fold(h, s)),
                    _ => None,
                }
            } else if t == "kill_focus"@ {
                Some(ItemKind::KillFocus)
            } else if t == "fold_all"@ {
                Some(ItemKind::FoldAll)
            } else if t == "unfold_all"@ {
                Some(ItemKind::UnfoldAll)
            } else {
                None
            }
        },
        _ => None,
    }
}

/// The (display label, action kind) pair a leaf array denotes: element 0 must
/// be the label string and the rest a valid action kind.
pub open spec fn item_spec(a: Seq<ConfigValue>) -> Option<(Seq<char>, ItemKind)> {
    if a.len() < 2 {
        None
    } else {
        match a[0] {
            ConfigValue::Str(nm) => match item_kind_spec(a) {
                Some(k) => Some((nm@, k)),
                None => None,
            },
            _ => None,
        }
    }
}

/// The hexadecimal id carried by a string field.
fn hex_field_exec(v: &ConfigValue) -> (r: Option<u32>)
    ensures
        r == hex_field(*v),
{
    match v {
        ConfigValue::Str(s) => {
            let cs = collect_chars(s.as_str());
            let n = cs.len();
            proof {
                assert(cs@.subrange(0, n as int) =~= s@);
            }
            parse_hex_u32(&cs, 0, n)
        },
        _ => None,
    }
}

/// Whether the string value `s` spells `lit`.
fn tag_is(cs: &Vec<char>, lit: &str) -> (r: bool)
    ensures
        r == (cs@ == lit@),
{
    let n = cs.len();
    proof {
        assert(cs@.subrange(0, n as int) =~= cs@);
    }
    chars_eq(cs, 0, n, lit)
}

impl ItemKind {
    /// Read an action kind from a leaf array (see [`item_kind_spec`]).
    pub fn new(a: &Vec<ConfigValue>) -> (r: Option<ItemKind>)
        requires
            a@.len() >= 2,
        ensures
            r == item_kind_spec(a@),
    {
        let tag = match &a[1] {
            ConfigValue::Str(tag) => tag,
            _ => {
                return None;
            },
        };
        let tcs = collect_chars(tag.as_str());
        if tag_is(&tcs, "key") && a.len() == 3 {
            match hex_field_exec(&a[2]) {
                Some(v) => Some(ItemKind::Key(v)),
                None => None,
            }
        } else if tag_is(&tcs, "button") && a.len() == 3 {
            match hex_field_exec(&a[2]) {
                Some(v) => Some(ItemKind::Button(v)),
                None => None,
            }
        } else if tag_is(&tcs, "edit") && a.len() == 3 {
            match hex_field_exec(&a[2]) {
                Some(v) => Some(ItemKind::Edit(v)),
                None => None,
            }
        } else if tag_is(&tcs, "combo_prev") && a.len() == 3 {
            match hex_field_exec(&a[2]) {
                Some(v) => Some(ItemKind::Combo(ComboDir::Prev, v)),
                None => None,
            }
        } else if tag_is(&tcs, "combo_next") && a.len() == 3 {
            match hex_field_exec(&a[2]) {
                Some(v) => Some(ItemKind::Combo(ComboDir::Next, v)),
                None => None,
            }
        } else if tag_is(&tcs, "menu") && a.len() == 4 {
            let x = match &a[2] {
                ConfigValue::UInt(x) => *x,
                _ => {
                    return None;
                },
            };
            let y = match &a[3] {
                ConfigValue::UInt(y) => *y,
                _ => {
                    return None;
                },
            };
            Some(ItemKind::Menu(#[verifier::truncate] (x as u32), #[verifier::truncate] (y as u32)))
        } else if tag_is(&tcs, "fold") && a.len() == 4 {
            let h = match hex_field_exec(&a[2]) {
                Some(h) => h,
                None => {
                    return None;
                },
            };
            match hex_field_exec(&a[3]) {
                Some(s) => Some(ItemKind::Fold(h, s)),
                None => None,
            }
        } else if tag_is(&tcs, "kill_focus") {
            Some(ItemKind::KillFocus)
        } else if tag_is(&tcs, "fold_all") {
            Some(ItemKind::FoldAll)
        } else if tag_is(&tcs, "unfold_all") {
            Some(ItemKind::UnfoldAll)
        } else {
            None
        }
    }
}

impl Item {
    /// Read one entry from a leaf array (see [`item_spec`]).
    pub fn new(a: &Vec<ConfigValue>) -> (r: Option<Item>)
        ensures
            match r {
                Some(it) => item_spec(a@) == Some((it.name@, it.kind)),
                None => item_spec(a@) is None,
            },
    {
        if a.len() < 2 {
            return None;
        }
        let name = match &a[0] {
            ConfigValue::Str(nm) => nm.clone(),
            _ => {
                return None;
            },
        };
        match ItemKind::new(a) {
            Some(kind) => Some(Item { name, kind }),
            None => None,
        }
    }
}

/// One flattened table entry in specification form: the symbolic name, then
/// the display label and action kind.
pub type EntryModel = (Seq<char>, (Seq<char>, ItemKind));

/// The flattening one entry contributes: a nested object's own flattening, a
/// valid leaf array's single entry, nothing otherwise.
pub open spec fn flatten_head(e: (String, ConfigValue)) -> Seq<EntryModel>
    decreases e,
{
    match e.1 {
        ConfigValue::Object(inner) => flatten_entries(inner@),
        ConfigValue::Array(arr) => match item_spec(arr@) {
            Some(it) => seq![(e.0@, it)],
            None => Seq::empty(),
        },
        _ => Seq::empty(),
    }
}

/// The flat table a nested object denotes: entries in writing order, nested
/// objects flattened in place, valid leaf arrays kept, malformed leaf arrays
/// and other values skipped.
pub open spec fn flatten_entries(entries: Seq<(String, ConfigValue)>) -> Seq<EntryModel>
    decreases entries,
{
    if entries.len() == 0 {
        Seq::empty()
    } else {
        flatten_head(entries[0]) + flatten_entries(entries.drop_first())
    }
}

/// The specification view of a concrete table.
pub open spec fn table_model(s: Seq<(String, Item)>) -> Seq<EntryModel> {
    s.map_values(|e: (String, Item)| (e.0@, (e.1.name@, e.1.kind)))
}

/// The first entry named `name`, if any.
pub open spec fn mmd_lookup(m: Seq<EntryModel>, name: Seq<char>) -> Option<(Seq<char>, ItemKind)>
    decreases m.len(),
{
    if m.len() == 0 {
        None
    } else if m[0].0 == name {
        Some(m[0].1)
    } else {
        mmd_lookup(m.drop_first(), name)
    }
}

/// The action table: flattened (name, entry) pairs, immutable after loading.
pub struct MmdMap(Vec<(String, Item)>);

impl View for MmdMap {
    type V = Seq<EntryModel>;

    closed spec fn view(&self) -> Seq<EntryModel> {
        table_model(self.0@)
    }
}

/// Append the flattening of `entries` to `out`.
fn flatten_into(entries: &Vec<(String, ConfigValue)>, out: &mut Vec<(String, Item)>)
    ensures
        table_model(final(out)@) == table_model(old(out)@) + flatten_entries(entries@),
    decreases entries@,
{
    let mut i: usize = 0;
    let ghost base = out@;
    while i < entries.len()
        invariant
            i <= entries@.len(),
            table_model(out@) == table_model(base) + flatten_entries(entries@.subrange(0, i as int)),
        decreases entries@.len() - i,
    {
        let ghost pre = out@;
        match &entries[i].1 {
            ConfigValue::Object(inner) => {
                proof {
                    assert(decreases_to!(entries@ => entries@[i as int]));
                    assert(decreases_to!(entries@[i as int] => entries@[i as int].1));
                    assert(decreases_to!(entries@[i as int].1 => inner));
                    assert(decreases_to!(inner => inner@));
                }
                flatten_into(inner, out);
            },
            ConfigValue::Array(arr) => {
                match Item::new(arr) {
                    Some(it) => {
                        out.push((entries[i].0.clone(), it));
                        proof {
                            assert(table_model(out@) =~= table_model(pre) + seq![
                                (entries@[i as int].0@, (it.name@, it.kind)),
                            ]);
                        }
                    },
                    None => {},
                }
            },
            _ => {},
        }
        proof {
            lemma_flatten_step(entries@, i as int);
            assert(table_model(out@) == table_model(pre) + flatten_head(entries@[i as int]));
            assert(table_model(out@) =~= table_model(base) + flatten_entries(
                entries@.subrange(0, i + 1 as int),
            ));
        }
        i += 1;
    }
    proof {
        assert(entries@.subrange(0, entries@.len() as int) =~= entries@);
    }
}

/// Flattening a one-longer prefix appends that entry's own flattening.
proof fn lemma_flatten_step(entries: Seq<(String, ConfigValue)>, i: int)
    requires
        0 <= i < entries.len(),
    ensures
        flatten_entries(entries.subrange(0, i + 1)) == flatten_entries(entries.subrange(0, i))
            + flatten_head(entries[i]),
    decreases i,
{
    if i == 0 {
        let s = entries.subrange(0, 1);
        assert(s.drop_first() =~= Seq::<(String, ConfigValue)>::empty());
        assert(entries.subrange(0, 0) =~= Seq::<(String, ConfigValue)>::empty());
        assert(s[0] == entries[0]);
        assert(flatten_entries(s) =~= flatten_entries(entries.subrange(0, 0)) + flatten_head(
            entries[0],
        ));
    } else {
        let t = entries.drop_first();
        lemma_flatten_step(t, i - 1);
        let a = entries.subrange(0, i + 1);
        let b = entries.subrange(0, i);
        assert(a.drop_first() =~= t.subrange(0, i));
        assert(b.drop_first() =~= t.subrange(0, i - 1));
        assert(t[i - 1] == entries[i]);
        assert(a[0] == entries[0] && b[0] == entries[0]);
        assert(flatten_entries(a) == flatten_head(entries[0]) + flatten_entries(t.subrange(0, i)));
        assert(flatten_entries(b) == flatten_head(entries[0]) + flatten_entries(
            t.subrange(0, i - 1),
        ));
        assert(flatten_entries(a) =~= flatten_entries(b) + flatten_head(entries[i]));
    }
}

impl MmdMap {
    /// Load the table from a declarative value. The value must be an object
    /// (the fatal case); within it, nested objects are flattened and each
    /// malformed leaf entry is skipped on its own.
    pub fn from_value(v: &ConfigValue) -> (r: Option<MmdMap>)
        ensures
            r.is_some() == (v is Object),
            v is Object ==> r.unwrap()@ == flatten_entries(v->Object_0@),
    {
        match v {
            ConfigValue::Object(entries) => {
                let mut out: Vec<(String, Item)> = Vec::new();
                proof {
                    assert(table_model(out@) =~= Seq::<EntryModel>::empty());
                }
                flatten_into(entries, &mut out);
                Some(MmdMap(out))
            },
            _ => None,
        }
    }

    /// The first entry under the exact symbolic name, if any.
    pub fn get(&self, key: &str) -> (r: Option<&Item>)
        ensures
            match r {
                Some(it) => mmd_lookup(self@, key@) == Some((it.name@, it.kind)),
                None => mmd_lookup(self@, key@) is None,
            },
    {
        let kcs = collect_chars(key);
        let n = kcs.len();
        let mut i: usize = 0;
        proof {
            assert(table_model(self.0@).subrange(0, self.0@.len() as int) =~= self@);
        }
        while i < self.0.len()
            invariant
                i <= self.0@.len(),
                kcs@ == key@,
                n == kcs@.len(),
                mmd_lookup(self@, key@) == mmd_lookup(
                    table_model(self.0@).subrange(i as int, self.0@.len() as int),
                    key@,
                ),
            decreases self.0@.len() - i,
        {
            let ghost rest = table_model(self.0@).subrange(i as int, self.0@.len() as int);
            proof {
                assert(rest[0] == table_model(self.0@)[i as int]);
                assert(rest.drop_first() =~= table_model(self.0@).subrange(
                    i + 1 as int,
                    self.0@.len() as int,
                ));
            }
            if chars_eq(&kcs, 0, n, self.0[i].0.as_str()) {
                proof {
                    assert(kcs@.subrange(0, n as int) =~= key@);
                }
                return Some(&self.0[i].1);
            }
            proof {
                assert(kcs@.subrange(0, n as int) =~= key@);
            }
            i += 1;
        }
        proof {
            assert(table_model(self.0@).subrange(i as int, self.0@.len() as int) =~= Seq::<
                EntryModel,
            >::empty());
        }
        None
    }

    /// The flattened entries, in table order.
    pub fn iter(&self) -> (r: &Vec<(String, Item)>)
        ensures
            table_model(r@) == self@,
    {
        &self.0
    }
}

} // verus!
