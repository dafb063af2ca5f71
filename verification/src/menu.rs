//! The add-on's menu: a command table built once at menu construction and
//! reversed by direct lookup when the host reports a menu command. The
//! platform layer replays the recorded UI operations to draw the real menu
//! and feeds back the one thing only it knows, a check mark's current state.

use vstd::prelude::*;

verus! {

/// The first command identifier handed to the host for a table entry;
/// entry `i` gets `ROOT_ID + i`.
pub const ROOT_ID: u32 = 50000;

/// How a menu entry behaves: a plain command, or a command with a check
/// mark carrying the check's new state.
#[derive(Clone, Copy, PartialEq, Eq, Structural, Debug)]
pub enum MenuItemType {
    Item,
    WithCheck(bool),
}

impl MenuItemType {
    /// The check state, when this entry carries one.
    pub fn as_with_check(&self) -> (r: Option<bool>)
        ensures
            r == if self is WithCheck {
                Some(self->WithCheck_0)
            } else {
                None::<bool>
            },
    {
        match self {
            MenuItemType::WithCheck(b) => Some(*b),
            _ => None,
        }
    }
}

/// A command set a menu can emit: each command has a fixed numeric code,
/// and a code read back from the host resolves to the command, with a
/// checkable entry's payload taken from the check state.
pub trait MenuCommand: Sized {
    /// The command's fixed code.
    spec fn command_code_spec(&self) -> u32;

    /// The command a code and entry type resolve to, if any.
    spec fn from_command_spec(code: u32, item_type: MenuItemType) -> Option<Self>;

    /// The command's fixed code.
    fn command_code(&self) -> (r: u32)
        ensures
            r == self.command_code_spec(),
    ;

    /// Resolve a code read back from the host (see [`Self::from_command_spec`]).
    fn from_command(code: u32, item_type: MenuItemType) -> (r: Option<Self>)
        ensures
            r == Self::from_command_spec(code, item_type),
    ;
}

/// The add-on's own menu commands: open the bindings editor, toggle the
/// raised timer resolution, show version information.
#[derive(Clone, Copy, PartialEq, Eq, Structural, Debug)]
pub enum MenuItem {
    LaunchConfig,
    RaiseTimerResolution(bool),
    Version,
}

impl MenuCommand for MenuItem {
    open spec fn command_code_spec(&self) -> u32 {
        match self {
            MenuItem::LaunchConfig => 0,
            MenuItem::RaiseTimerResolution(_) => 1,
            MenuItem::Version => 2,
        }
    }

    open spec fn from_command_spec(code: u32, item_type: MenuItemType) -> Option<MenuItem> {
        if code == 0 {
            Some(MenuItem::LaunchConfig)
        } else if code == 1 {
            match item_type {
                MenuItemType::WithCheck(b) => Some(MenuItem::RaiseTimerResolution(b)),
                MenuItemType::Item => None,
            }
        } else if code == 2 {
            Some(MenuItem::Version)
        } else {
            None
        }
    }

    fn command_code(&self) -> (r: u32) {
        match self {
            MenuItem::LaunchConfig => 0,
            MenuItem::RaiseTimerResolution(_) => 1,
            MenuItem::Version => 2,
        }
    }

    fn from_command(code: u32, item_type: MenuItemType) -> (r: Option<MenuItem>) {
        if code == 0 {
            Some(MenuItem::LaunchConfig)
        } else if code == 1 {
            match item_type {
                MenuItemType::WithCheck(b) => Some(MenuItem::RaiseTimerResolution(b)),
                MenuItemType::Item => None,
            }
        } else if code == 2 {
            Some(MenuItem::Version)
        } else {
            None
        }
    }
}

/// One recorded menu-construction operation for the platform layer to
/// replay against the host's real menu.
pub enum MenuOp {
    /// Insert a command entry with this label under command identifier
    /// `id`; `checked` carries the initial check state of a checkable entry.
    Entry { label: String, id: u32, checked: Option<bool> },
    /// Insert a separator line.
    Separator,
}

/// Builds the command table and the operation list entry by entry.
pub struct MenuBuilder<T> {
    id: u32,
    table: Vec<(u32, MenuItemType)>,
    ops: Vec<MenuOp>,
    commands: core::marker::PhantomData<T>,
}

/// The menu's reverse command table: entry `i` answers to `ROOT_ID + i`.
pub struct Menu<T> {
    table: Vec<(u32, MenuItemType)>,
    commands: core::marker::PhantomData<T>,
}

impl<T: MenuCommand> MenuBuilder<T> {
    /// The command table built so far.
    pub closed spec fn table_spec(&self) -> Seq<(u32, MenuItemType)> {
        self.table@
    }

    /// How many command entries were added.
    pub closed spec fn id_spec(&self) -> u32 {
        self.id
    }

    pub open spec fn wf(&self) -> bool {
        self.table_spec().len() == self.id_spec()
    }

    /// An empty menu under construction.
    pub fn new() -> (r: Self)
        ensures
            r.table_spec() == Seq::<(u32, MenuItemType)>::empty(),
            r.wf(),
    {
        MenuBuilder {
            id: 0,
            table: Vec::new(),
            ops: Vec::new(),
            commands: core::marker::PhantomData,
        }
    }

    /// Append a plain command entry labelled `text`.
    pub fn item(self, v: &T, text: &str) -> (r: Self)
        requires
            self.wf(),
            self.table_spec().len() < 0xFFFF,
        ensures
            r.table_spec() == self.table_spec().push(
                (v.command_code_spec(), MenuItemType::Item),
            ),
            r.wf(),
    {
        let mut b = self;
        let code = v.command_code();
        b.ops.push(
            MenuOp::Entry { label: String::from_str(text), id: ROOT_ID + b.id, checked: None },
        );
        b.table.push((code, MenuItemType::Item));
        b.id = b.id + 1;
        b
    }

    /// Append a checkable command entry labelled `text`, initially `checked`.
    pub fn with_check(self, v: &T, text: &str, checked: bool) -> (r: Self)
        requires
            self.wf(),
            self.table_spec().len() < 0xFFFF,
        ensures
            r.table_spec() == self.table_spec().push(
                (v.command_code_spec(), MenuItemType::WithCheck(checked)),
            ),
            r.wf(),
    {
        let mut b = self;
        let code = v.command_code();
        b.ops.push(
            MenuOp::Entry {
                label: String::from_str(text),
                id: ROOT_ID + b.id,
                checked: Some(checked),
            },
        );
        b.table.push((code, MenuItemType::WithCheck(checked)));
        b.id = b.id + 1;
        b
    }

    /// Append a separator line.
    pub fn separator(self) -> (r: Self)
        ensures
            r.table_spec() == self.table_spec(),
            r.id_spec() == self.id_spec(),
    {
        let mut b = self;
        b.ops.push(MenuOp::Separator);
        b
    }

    /// Finish: the reverse command table, and the recorded operations for
    /// the platform layer to replay.
    pub fn build(self) -> (r: (Menu<T>, Vec<MenuOp>))
        ensures
            r.0.table_spec() == self.table_spec(),
    {
        let MenuBuilder { id: _, table, ops, commands } = self;
        (Menu { table, commands }, ops)
    }
}

/// The table entry a host command report addresses: the report's high word
/// must be zero and its low word must fall in the menu's identifier range.
pub open spec fn menu_command_index(table: Seq<(u32, MenuItemType)>, wparam: usize) -> Option<
    int,
> {
    let low = (wparam & 0xFFFF) as u32;
    if (wparam >> 16) & 0xFFFF != 0 {
        None
    } else if low < ROOT_ID || low - ROOT_ID >= table.len() {
        None
    } else {
        Some(low - ROOT_ID)
    }
}

/// The command a host report resolves to, given the addressed entry's
/// current check state: a checkable entry toggles, so the command carries
/// the negated state.
pub open spec fn recv_command_spec<T: MenuCommand>(
    table: Seq<(u32, MenuItemType)>,
    wparam: usize,
    was_checked: bool,
) -> Option<T> {
    match menu_command_index(table, wparam) {
        Some(i) => match table[i].1 {
            MenuItemType::Item => T::from_command_spec(table[i].0, MenuItemType::Item),
            MenuItemType::WithCheck(_) => T::from_command_spec(
                table[i].0,
                MenuItemType::WithCheck(!was_checked),
            ),
        },
        None => None,
    }
}

impl<T: MenuCommand> Menu<T> {
    /// The reverse command table.
    pub closed spec fn table_spec(&self) -> Seq<(u32, MenuItemType)> {
        self.table@
    }

    /// The table entry a host command report addresses, if any.
    pub fn command_index(&self, wparam: usize) -> (r: Option<usize>)
        ensures
            match r {
                Some(i) => menu_command_index(self.table_spec(), wparam) == Some(i as int),
                None => menu_command_index(self.table_spec(), wparam) is None,
            },
    {
        if (wparam >> 16) & 0xFFFF != 0 {
            return None;
        }
        let low = (wparam & 0xFFFF) as u32;
        if low < ROOT_ID {
            return None;
        }
        let idx = (low - ROOT_ID) as usize;
        if idx >= self.table.len() {
            return None;
        }
        Some(idx)
    }

    /// The addressed entry.
    pub fn entry(&self, i: usize) -> (r: (u32, MenuItemType))
        requires
            i < self.table_spec().len(),
        ensures
            r == self.table_spec()[i as int],
    {
        self.table[i]
    }

    /// Resolve a host command report to a command, with `was_checked` the
    /// addressed entry's current check state as the host reports it (see
    /// [`recv_command_spec`]). The caller applies the toggled check mark.
    pub fn recv_command(&self, wparam: usize, was_checked: bool) -> (r: Option<T>)
        ensures
            r == recv_command_spec::<T>(self.table_spec(), wparam, was_checked),
    {
        let i = match self.command_index(wparam) {
            Some(i) => i,
            None => {
                return None;
            },
        };
        let (code, item_type) = self.table[i];
        match item_type {
            MenuItemType::Item => T::from_command(code, MenuItemType::Item),
            MenuItemType::WithCheck(_) => T::from_command(
                code,
                MenuItemType::WithCheck(!was_checked),
            ),
        }
    }
}

} // verus!
