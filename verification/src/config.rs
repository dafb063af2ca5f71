//! Persisted settings: the injected add-on's own switches and the backup
//! tool's schedule, read from small declarative files by the surrounding
//! program.

use vstd::prelude::*;

use crate::config_value::ConfigValue;
use crate::text::{chars_eq, collect_chars};

verus! {

/// The first value under `name` in a declarative object's entries.
pub open spec fn obj_lookup(es: Seq<(String, ConfigValue)>, name: Seq<char>) -> Option<
    ConfigValue,
>
    decreases es.len(),
{
    if es.len() == 0 {
        None
    } else if es[0].0@ == name {
        Some(es[0].1)
    } else {
        obj_lookup(es.drop_first(), name)
    }
}

/// The boolean a field carries, when it is present and boolean.
pub open spec fn bool_field(es: Seq<(String, ConfigValue)>, name: Seq<char>) -> Option<bool> {
    match obj_lookup(es, name) {
        Some(ConfigValue::Bool(b)) => Some(b),
        _ => None,
    }
}

/// The injected add-on's settings.
pub struct Settings {
    pub raise_timer_resolution: bool,
}

impl Default for Settings {
    /// The raised timer resolution starts enabled.
    fn default() -> (r: Self)
        ensures
            r.raise_timer_resolution == true,
    {
        Settings { raise_timer_resolution: true }
    }
}

/// The first value under `name`, read off the concrete entries.
fn obj_get<'a>(es: &'a Vec<(String, ConfigValue)>, name: &str) -> (r: Option<&'a ConfigValue>)
    ensures
        match r {
            Some(v) => obj_lookup(es@, name@) == Some(*v),
            None => obj_lookup(es@, name@) is None,
        },
{
    let ncs = collect_chars(name);
    let n = ncs.len();
    let mut i: usize = 0;
    proof {
        assert(es@.subrange(0, es@.len() as int) =~= es@);
    }
    while i < es.len()
        invariant
            i <= es@.len(),
            ncs@ == name@,
            n == ncs@.len(),
            obj_lookup(es@, name@) == obj_lookup(es@.subrange(i as int, es@.len() as int), name@),
        decreases es@.len() - i,
    {
        let ghost rest = es@.subrange(i as int, es@.len() as int);
        proof {
            assert(rest[0] == es@[i as int]);
            assert(rest.drop_first() =~= es@.subrange(i + 1 as int, es@.len() as int));
        }
        let hit = chars_eq(&ncs, 0, n, es[i].0.as_str());
        proof {
            assert(ncs@.subrange(0, n as int) =~= name@);
        }
        if hit {
            return Some(&es[i].1);
        }
        i += 1;
    }
    proof {
        assert(es@.subrange(i as int, es@.len() as int) =~= Seq::<(String, ConfigValue)>::empty());
    }
    None
}

impl Settings {
    /// Read the settings from a declarative value: the value must be an
    /// object (else the caller falls back to the defaults wholesale), and a
    /// missing or non-boolean field keeps its default.
    pub fn from_value(v: &ConfigValue) -> (r: Option<Settings>)
        ensures
            r.is_some() == (v is Object),
            v is Object ==> r.unwrap().raise_timer_resolution == (match bool_field(
                v->Object_0@,
                "raise_timer_resolution"@,
            ) {
                Some(b) => b,
                None => true,
            }),
    {
        let es = match v {
            ConfigValue::Object(es) => es,
            _ => {
                return None;
            },
        };
        let raise_timer_resolution = match obj_get(es, "raise_timer_resolution") {
            Some(ConfigValue::Bool(b)) => *b,
            _ => Settings::default().raise_timer_resolution,
        };
        Some(Settings { raise_timer_resolution })
    }

    /// The settings in their on-disk object form.
    pub fn to_value(&self) -> (r: ConfigValue)
        ensures
            r is Object,
            r->Object_0@.len() == 1,
            r->Object_0@[0].0@ == "raise_timer_resolution"@,
            r->Object_0@[0].1 == ConfigValue::Bool(self.raise_timer_resolution),
    {
        let mut es: Vec<(String, ConfigValue)> = Vec::new();
        es.push(
            (
                String::from_str("raise_timer_resolution"),
                ConfigValue::Bool(self.raise_timer_resolution),
            ),
        );
        ConfigValue::Object(es)
    }
}

/// Periodic-backup settings: how often to copy the open project file, where
/// to, and how many copies to keep.
pub struct Config {
    pub backup_interval_minutes: u64,
    pub backup_dir: String,
    pub max_backups: usize,
}

impl Default for Config {
    /// Five-minute interval, a `Backup` directory, ten copies kept.
    fn default() -> (r: Self)
        ensures
            r.backup_interval_minutes == 5,
            r.backup_dir@ == "Backup"@,
            r.max_backups == 10,
    {
        Config { backup_interval_minutes: 5, backup_dir: String::from_str("Backup"), max_backups: 10 }
    }
}

} // verus!
