//! The editor's keyboard shortcuts: what one frame of keyboard input asks for, by the built-in
//! shortcuts and by the keybindings of the settings.
use vstd::prelude::*;

use crate::keys::{key_named, parse_key, wanted_modifiers, wants, BindingModel, KeyBindingConfig, KeyName};
use crate::trusted::ascii_uppercase;

verus! {

/// An action of a built-in shortcut.
#[derive(Debug, Clone, Copy, PartialEq, Eq, Structural)]
pub enum ShortcutAction {
    NewFile,
    Open,
    Save,
    SaveAs,
    OpenFolder,
    Undo,
    Redo,
    CommandPalette,
    QuickOpen,
    ProjectSearch,
    Find,
    GotoLine,
    Copy,
    Cut,
    Paste,
    SelectAll,
    Close,
}

/// One frame of keyboard input: the modifiers held and the keys pressed.
#[derive(Debug, Clone)]
pub struct KeyInput {
    pub command: bool,
    pub shift: bool,
    pub alt: bool,
    pub pressed: Vec<KeyName>,
}

/// `a` when `c` holds, else nothing.
pub open spec fn when(c: bool, a: ShortcutAction) -> Seq<ShortcutAction> {
    if c { seq![a] } else { Seq::empty() }
}

/// The actions of the built-in shortcuts for input with the command modifier `cmd`, shift `shift`
/// and the keys `pressed`, in the order they are carried out.
pub open spec fn builtin_actions(cmd: bool, shift: bool, pressed: Seq<KeyName>) -> Seq<ShortcutAction> {
    let k = |key: KeyName| pressed.contains(key);
    when(cmd && k(KeyName::N), ShortcutAction::NewFile)
        + when(cmd && k(KeyName::O), ShortcutAction::Open)
        + when(cmd && k(KeyName::S) && !shift, ShortcutAction::Save)
        + when(cmd && k(KeyName::S) && shift, ShortcutAction::SaveAs)
        + when(cmd && shift && k(KeyName::O), ShortcutAction::OpenFolder)
        + when(cmd && k(KeyName::Z) && !shift, ShortcutAction::Undo)
        + when((cmd && k(KeyName::Z) && shift) || (cmd && k(KeyName::Y)), ShortcutAction::Redo)
        + when(cmd && shift && k(KeyName::P), ShortcutAction::CommandPalette)
        + when(cmd && k(KeyName::P) && !shift, ShortcutAction::QuickOpen)
        + when(cmd && shift && k(KeyName::F), ShortcutAction::ProjectSearch)
        + when(cmd && k(KeyName::F) && !shift, ShortcutAction::Find)
        + when(cmd && k(KeyName::G), ShortcutAction::GotoLine)
        + when(cmd && k(KeyName::C), ShortcutAction::Copy)
        + when(cmd && k(KeyName::X), ShortcutAction::Cut)
        + when(cmd && k(KeyName::V), ShortcutAction::Paste)
        + when(cmd && k(KeyName::A), ShortcutAction::SelectAll)
        + when(cmd && k(KeyName::W), ShortcutAction::Close)
}

/// Whether `key` is among `pressed`.
fn is_pressed(pressed: &Vec<KeyName>, key: KeyName) -> (r: bool)
    ensures
        r == pressed@.contains(key),
{
    let mut i: usize = 0;
    while i < pressed.len()
        invariant
            i <= pressed@.len(),
            forall|j: int| 0 <= j < i ==> pressed@[j] != key,
        decreases pressed@.len() - i,
    {
        if pressed[i] == key {
            return true;
        }
        i = i + 1;
    }
    false
}

/// Appends `a` to `out` when `c` holds.
fn push_when(out: &mut Vec<ShortcutAction>, c: bool, a: ShortcutAction)
    ensures
        final(out)@ == old(out)@ + when(c, a),
{
    if c {
        out.push(a);
    } else {
        assert(old(out)@ + when(c, a) == old(out)@);
    }
}

/// The actions that the built-in shortcuts ask for in a frame of input.
pub fn builtin_shortcut_actions(input: &KeyInput) -> (r: Vec<ShortcutAction>)
    ensures
        r@ == builtin_actions(input.command, input.shift, input.pressed@),
{
    let cmd = input.command;
    let shift = input.shift;
    let p = &input.pressed;
    let mut out: Vec<ShortcutAction> = Vec::new();
    push_when(&mut out, cmd && is_pressed(p, KeyName::N), ShortcutAction::NewFile);
    push_when(&mut out, cmd && is_pressed(p, KeyName::O), ShortcutAction::Open);
    push_when(&mut out, cmd && is_pressed(p, KeyName::S) && !shift, ShortcutAction::Save);
    push_when(&mut out, cmd && is_pressed(p, KeyName::S) && shift, ShortcutAction::SaveAs);
    push_when(&mut out, cmd && shift && is_pressed(p, KeyName::O), ShortcutAction::OpenFolder);
    push_when(&mut out, cmd && is_pressed(p, KeyName::Z) && !shift, ShortcutAction::Undo);
    let redo = (cmd && is_pressed(p, KeyName::Z) && shift) || (cmd && is_pressed(p, KeyName::Y));
    push_when(&mut out, redo, ShortcutAction::Redo);
    push_when(&mut out, cmd && shift && is_pressed(p, KeyName::P), ShortcutAction::CommandPalette);
    push_when(&mut out, cmd && is_pressed(p, KeyName::P) && !shift, ShortcutAction::QuickOpen);
    push_when(&mut out, cmd && shift && is_pressed(p, KeyName::F), ShortcutAction::ProjectSearch);
    push_when(&mut out, cmd && is_pressed(p, KeyName::F) && !shift, ShortcutAction::Find);
    push_when(&mut out, cmd && is_pressed(p, KeyName::G), ShortcutAction::GotoLine);
    push_when(&mut out, cmd && is_pressed(p, KeyName::C), ShortcutAction::Copy);
    push_when(&mut out, cmd && is_pressed(p, KeyName::X), ShortcutAction::Cut);
    push_when(&mut out, cmd && is_pressed(p, KeyName::V), ShortcutAction::Paste);
    push_when(&mut out, cmd && is_pressed(p, KeyName::A), ShortcutAction::SelectAll);
    push_when(&mut out, cmd && is_pressed(p, KeyName::W), ShortcutAction::Close);
    out
}

/// Whether a keybinding fires on input with the given modifiers and pressed keys: its key is
/// pressed and it asks for exactly the command, shift and alt modifiers that are held.
pub open spec fn binding_fires(b: BindingModel, cmd: bool, shift: bool, alt: bool, pressed: Seq<KeyName>) -> bool {
    &&& key_named(ascii_uppercase(b.key)) matches Some(k) && pressed.contains(k)
    &&& wants(b.modifiers, seq!["command"@, "ctrl"@]) == cmd
    &&& wants(b.modifiers, seq!["shift"@, "shift"@]) == shift
    &&& wants(b.modifiers, seq!["alt"@, "option"@]) == alt
}

/// The commands of the keybindings among `bs` that fire, in order.
pub open spec fn fired_commands(bs: Seq<BindingModel>, cmd: bool, shift: bool, alt: bool, pressed: Seq<KeyName>) -> Seq<Seq<char>>
    decreases bs.len(),
{
    if bs.len() == 0 {
        Seq::empty()
    } else {
        let rest = fired_commands(bs.drop_last(), cmd, shift, alt, pressed);
        if binding_fires(bs.last(), cmd, shift, alt, pressed) {
            rest.push(bs.last().command)
        } else {
            rest
        }
    }
}

/// The commands of the keybindings among `bindings` that fire in a frame of input, in order.
pub fn fired_binding_commands(bindings: &Vec<KeyBindingConfig>, input: &KeyInput) -> (r: Vec<String>)
    ensures
        r@.map_values(|s: String| s@) == fired_commands(
            bindings@.map_values(|b: KeyBindingConfig| b@),
            input.command,
            input.shift,
            input.alt,
            input.pressed@,
        ),
{
    let ghost bs = bindings@.map_values(|b: KeyBindingConfig| b@);
    let mut out: Vec<String> = Vec::new();
    let mut i: usize = 0;
    proof {
        assert(bs.take(0) == Seq::<BindingModel>::empty());
        assert(out@.map_values(|s: String| s@) == Seq::<Seq<char>>::empty());
    }
    while i < bindings.len()
        invariant
            i <= bindings@.len(),
            bs == bindings@.map_values(|b: KeyBindingConfig| b@),
            out@.map_values(|s: String| s@) == fired_commands(bs.take(i as int), input.command, input.shift, input.alt, input.pressed@),
        decreases bindings@.len() - i,
    {
        let b = &bindings[i];
        let fires = match parse_key(b.key.as_str()) {
            Some(k) => {
                let (c, s, a) = wanted_modifiers(b);
                is_pressed(&input.pressed, k) && c == input.command && s == input.shift && a == input.alt
            },
            None => false,
        };
        let ghost before = out@;
        if fires {
            out.push(b.command.clone());
        }
        proof {
            assert(bs.take(i + 1).drop_last() == bs.take(i as int));
            assert(bs.take(i + 1).last() == bs[i as int]);
            assert(bs[i as int] == b@);
            if fires {
                assert(out@.map_values(|s: String| s@) == before.map_values(|s: String| s@).push(b.command@));
            }
        }
        i = i + 1;
    }
    proof {
        assert(bs.take(bindings@.len() as int) == bs);
    }
    out
}

} // verus!
