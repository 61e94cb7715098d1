//! Keyboard shortcuts and the editing actions they are bound to.

use vstd::prelude::*;

verus! {

/// The keys that shortcuts use.
#[derive(PartialEq, Eq, Structural, Debug, Clone, Copy, Hash)]
pub enum Key {
    Left,
    Right,
    Up,
    Down,
    Home,
    End,
    Delete,
    Backspace,
    Return,
    X,
    C,
    V,
    S,
    F,
    J,
    R,
    I,
    F3,
}

/// The hardware key code of each key.
pub open spec fn key_code(k: Key) -> u16 {
    match k {
        Key::Left => 113,
        Key::Right => 114,
        Key::Up => 111,
        Key::Down => 116,
        Key::Home => 110,
        Key::End => 115,
        Key::Delete => 119,
        Key::Backspace => 22,
        Key::Return => 36,
        Key::X => 53,
        Key::C => 54,
        Key::V => 55,
        Key::S => 39,
        Key::F => 41,
        Key::J => 44,
        Key::R => 27,
        Key::I => 31,
        Key::F3 => 69,
    }
}

impl Key {
    /// The key's hardware key code.
    pub fn code(&self) -> (r: u16)
        ensures
            r == key_code(*self),
    {
        match self {
            Key::Left => 113,
            Key::Right => 114,
            Key::Up => 111,
            Key::Down => 116,
            Key::Home => 110,
            Key::End => 115,
            Key::Delete => 119,
            Key::Backspace => 22,
            Key::Return => 36,
            Key::X => 53,
            Key::C => 54,
            Key::V => 55,
            Key::S => 39,
            Key::F => 41,
            Key::J => 44,
            Key::R => 27,
            Key::I => 31,
            Key::F3 => 69,
        }
    }
}

/// A key press: the modifiers held and the hardware key code.
#[derive(PartialEq, Eq, Structural, Debug, Clone, Copy, Hash)]
pub struct KeyboardShortcut {
    pub control: bool,
    pub shift: bool,
    pub alt: bool,
    pub key: u16,
}

impl KeyboardShortcut {
    /// The shortcut of `key` with the given modifiers.
    pub fn new(control: bool, shift: bool, alt: bool, key: Key) -> (r: KeyboardShortcut)
        ensures
            r == (KeyboardShortcut { control, shift, alt, key: key_code(key) }),
    {
        KeyboardShortcut { control, shift, alt, key: key.code() }
    }

    /// A key press with the given modifiers and hardware key code.
    pub fn from_key_code(control: bool, shift: bool, alt: bool, key: u16) -> (r: KeyboardShortcut)
        ensures
            r == (KeyboardShortcut { control, shift, alt, key }),
    {
        KeyboardShortcut { control, shift, alt, key }
    }

    /// Whether Control is held.
    pub fn control(&self) -> (r: bool)
        ensures
            r == self.control,
    {
        self.control
    }

    /// Whether Alt is held.
    pub fn alt(&self) -> (r: bool)
        ensures
            r == self.alt,
    {
        self.alt
    }
}

/// What a shortcut does.
#[derive(PartialEq, Eq, Structural, Debug, Clone, Copy)]
pub enum Action {
    Save,
    NavigateToPreviousLine,
    NavigateToNextLine,
    NavigateToPreviousCharacter,
    NavigateToNextCharacter,
    NavigateToAreaBeginning,
    NavigateToAreaEnding,
    NavigateToLineBeginning,
    NavigateToLineEnding,
    IncreaseIndentationLevel,
    DecreaseIndentationLevel,
    JumpToLine,
    Find,
    Refind,
    BackwardRefind,
    SelectPreviousLine,
    SelectNextLine,
    CreateNewLine,
    CreateNewBlock,
    DeleteCharacter,
    Delete,
    Copy,
    Cut,
    Paste,
    Reformat,
    AddCharacterDefinition,
    AddStringDefinition,
}

/// The action bound to `k`, if any.
pub open spec fn bound_action(table: Seq<(KeyboardShortcut, Action)>, k: KeyboardShortcut) -> Option<Action> {
    if exists|i: int| 0 <= i < table.len() && table[i].0 == k {
        Some(table[choose|i: int| 0 <= i < table.len() && table[i].0 == k].1)
    } else {
        None
    }
}

/// Whether every shortcut is bound at most once.
pub open spec fn bound_once(table: Seq<(KeyboardShortcut, Action)>) -> bool {
    forall|i: int, j: int| 0 <= i < j < table.len() ==> table[i].0 != table[j].0
}

/// The bindings of shortcuts to actions.
pub struct KeyboardShortcutsManager {
    keyboard_shortcuts: Vec<(KeyboardShortcut, Action)>,
}

impl View for KeyboardShortcutsManager {
    type V = Seq<(KeyboardShortcut, Action)>;

    closed spec fn view(&self) -> Seq<(KeyboardShortcut, Action)> {
        self.keyboard_shortcuts@
    }
}

impl KeyboardShortcutsManager {
    /// No bindings.
    pub fn new() -> (r: KeyboardShortcutsManager)
        ensures
            r@.len() == 0,
    {
        KeyboardShortcutsManager { keyboard_shortcuts: Vec::new() }
    }

    /// Binds the shortcut of `key` with the given modifiers to `action`,
    /// replacing what it was bound to.
    pub fn add_shortcut(&mut self, control: bool, shift: bool, alt: bool, key: Key, action: Action)
        requires
            bound_once(old(self)@),
        ensures
            bound_once(final(self)@),
            forall|k: KeyboardShortcut| #[trigger]
                bound_action(final(self)@, k) == if k == (KeyboardShortcut {
                    control,
                    shift,
                    alt,
                    key: key_code(key),
                }) {
                    Some(action)
                } else {
                    bound_action(old(self)@, k)
                },
    {
        let ghost table = self@;
        let shortcut = KeyboardShortcut::new(control, shift, alt, key);
        let mut i: usize = 0;
        while i < self.keyboard_shortcuts.len()
            invariant
                table == self@,
                old(self)@ == self@,
                bound_once(table),
                i <= table.len(),
                forall|j: int| 0 <= j < i ==> table[j].0 != shortcut,
                shortcut == (KeyboardShortcut { control, shift, alt, key: key_code(key) }),
            decreases table.len() - i,
        {
            if self.keyboard_shortcuts[i].0 == shortcut {
                self.keyboard_shortcuts.set(i, (shortcut, action));
                let ghost t2 = table.update(i as int, (shortcut, action));
                assert(self@ == t2);
                assert forall|k: KeyboardShortcut| #[trigger]
                    bound_action(t2, k) == if k == shortcut {
                        Some(action)
                    } else {
                        bound_action(table, k)
                    } by {
                    if k == shortcut {
                        let c = choose|c: int| 0 <= c < t2.len() && t2[c].0 == k;
                        assert(t2[i as int].0 == k);
                        assert(c == i);
                    } else {
                        if exists|c: int| 0 <= c < table.len() && table[c].0 == k {
                            let c = choose|c: int| 0 <= c < table.len() && table[c].0 == k;
                            assert(t2[c].0 == k);
                            let c2 = choose|c: int| 0 <= c < t2.len() && t2[c].0 == k;
                            assert(c2 != i);
                            assert(c == c2);
                        } else {
                            assert forall|c: int| 0 <= c < t2.len() implies t2[c].0 != k by {
                                if c != i {
                                    assert(t2[c] == table[c]);
                                }
                            }
                        }
                    }
                }
                return;
            }
            i = i + 1;
        }
        self.keyboard_shortcuts.push((shortcut, action));
        let ghost t2 = table.push((shortcut, action));
        assert(self@ == t2);
        assert forall|k: KeyboardShortcut| #[trigger]
            bound_action(t2, k) == if k == shortcut {
                Some(action)
            } else {
                bound_action(table, k)
            } by {
            if k == shortcut {
                let c = choose|c: int| 0 <= c < t2.len() && t2[c].0 == k;
                assert(t2[table.len() as int].0 == k);
                assert(c == table.len());
            } else {
                if exists|c: int| 0 <= c < table.len() && table[c].0 == k {
                    let c = choose|c: int| 0 <= c < table.len() && table[c].0 == k;
                    assert(t2[c].0 == k);
                    let c2 = choose|c: int| 0 <= c < t2.len() && t2[c].0 == k;
                    assert(c == c2);
                } else {
                    assert forall|c: int| 0 <= c < t2.len() implies t2[c].0 != k by {
                        if c < table.len() {
                            assert(t2[c] == table[c]);
                        }
                    }
                }
            }
        }
    }

    /// The action that `key` is bound to.
    pub fn get_function(&self, key: &KeyboardShortcut) -> (r: Option<Action>)
        requires
            bound_once(self@),
        ensures
            r == bound_action(self@, *key),
    {
        let ghost table = self@;
        let mut i: usize = 0;
        while i < self.keyboard_shortcuts.len()
            invariant
                table == self@,
                bound_once(table),
                i <= table.len(),
                forall|j: int| 0 <= j < i ==> table[j].0 != *key,
            decreases table.len() - i,
        {
            if self.keyboard_shortcuts[i].0 == *key {
                proof {
                    let c = choose|c: int| 0 <= c < table.len() && table[c].0 == *key;
                    assert(table[i as int].0 == *key);
                    assert(c == i);
                }
                return Some(self.keyboard_shortcuts[i].1);
            }
            i = i + 1;
        }
        None
    }
}

} // verus!
