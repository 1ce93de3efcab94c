//! Key names as the keybinding configuration writes them, and the display of
//! chords.
use vstd::prelude::*;

verus! {

/// A key, as the terminal reports it.
#[derive(Debug, PartialEq, Eq)]
pub enum KeyCode {
    Backspace,
    Enter,
    Left,
    Right,
    Up,
    Down,
    Home,
    End,
    PageUp,
    PageDown,
    Tab,
    Delete,
    Insert,
    Esc,
    /// A function key.
    F(u8),
    /// A character key.
    Char(char),
    /// Any other key, by the name its terminal event gives it.
    Other(String),
}

/// Modifier keys held with a key, one bit each.
#[derive(Clone, Copy, Debug, PartialEq, Eq, Structural)]
pub struct KeyModifiers {
    pub bits: u8,
}

/// The bit of the Shift key.
pub const SHIFT: u8 = 1;

/// The bit of the Control key.
pub const CONTROL: u8 = 2;

/// The bit of the Alt key.
pub const ALT: u8 = 4;

/// The bit of the Super key.
pub const SUPER: u8 = 8;

/// The decimal spelling of `n`.
pub open spec fn decimal_chars(n: nat) -> Seq<char>
    decreases n,
{
    if n < 10 {
        seq![digit_char_of(n)]
    } else {
        decimal_chars(n / 10).push(digit_char_of(n % 10))
    }
}

/// The digit character of `d` (below 10).
pub open spec fn digit_char_of(d: nat) -> char {
    if d == 0 {
        '0'
    } else if d == 1 {
        '1'
    } else if d == 2 {
        '2'
    } else if d == 3 {
        '3'
    } else if d == 4 {
        '4'
    } else if d == 5 {
        '5'
    } else if d == 6 {
        '6'
    } else if d == 7 {
        '7'
    } else if d == 8 {
        '8'
    } else {
        '9'
    }
}

/// The configuration name of key `k`.
pub open spec fn config_name(k: KeyCode) -> Seq<char> {
    match k {
        KeyCode::Char(c) => seq![c],
        KeyCode::Enter => "Enter"@,
        KeyCode::Tab => "Tab"@,
        KeyCode::Backspace => "Backspace"@,
        KeyCode::Delete => "Delete"@,
        KeyCode::Esc => "Escape"@,
        KeyCode::Up => "Up"@,
        KeyCode::Down => "Down"@,
        KeyCode::Left => "Left"@,
        KeyCode::Right => "Right"@,
        KeyCode::Home => "Home"@,
        KeyCode::End => "End"@,
        KeyCode::PageUp => "PageUp"@,
        KeyCode::PageDown => "PageDown"@,
        KeyCode::Insert => "Insert"@,
        KeyCode::F(n) => seq!['F'] + decimal_chars(n as nat),
        KeyCode::Other(name) => name@,
    }
}

/// The configuration names of the modifiers held in `m`, in the order ctrl, alt,
/// shift, super.
pub open spec fn modifier_names(m: KeyModifiers) -> Seq<Seq<char>> {
    (if m.bits & CONTROL != 0 {
        seq!["ctrl"@]
    } else {
        Seq::empty()
    }) + (if m.bits & ALT != 0 {
        seq!["alt"@]
    } else {
        Seq::empty()
    }) + (if m.bits & SHIFT != 0 {
        seq!["shift"@]
    } else {
        Seq::empty()
    }) + (if m.bits & SUPER != 0 {
        seq!["super"@]
    } else {
        Seq::empty()
    })
}

/// The pieces of `parts` that are there, in order.
pub open spec fn present(parts: Seq<Option<Seq<char>>>) -> Seq<Seq<char>>
    decreases parts.len(),
{
    if parts.len() == 0 {
        Seq::empty()
    } else {
        match parts.last() {
            Some(p) => present(parts.drop_last()).push(p),
            None => present(parts.drop_last()),
        }
    }
}

/// The text that `k` holds, if any.
pub open spec fn text_of(k: Option<String>) -> Option<Seq<char>> {
    match k {
        Some(s) => Some(s@),
        None => None,
    }
}

/// `strs` joined with single spaces.
pub open spec fn spaced(strs: Seq<Seq<char>>) -> Seq<char>
    decreases strs.len(),
{
    if strs.len() == 0 {
        Seq::empty()
    } else if strs.len() == 1 {
        strs[0]
    } else {
        spaced(strs.drop_last()) + seq![' '] + strs.last()
    }
}

/// Relies on `String::push`: the character is appended at the end.
#[verifier::external_body]
fn push_char(s: &mut String, c: char)
    ensures
        final(s)@ == old(s)@.push(c),
{
    s.push(c)
}

fn digit_char(d: u8) -> (r: char)
    requires
        d < 10,
    ensures
        r == digit_char_of(d as nat),
{
    match d {
        0 => '0',
        1 => '1',
        2 => '2',
        3 => '3',
        4 => '4',
        5 => '5',
        6 => '6',
        7 => '7',
        8 => '8',
        _ => '9',
    }
}

fn push_decimal(s: &mut String, n: u8)
    ensures
        final(s)@ == old(s)@ + decimal_chars(n as nat),
    decreases n,
{
    if n >= 10 {
        push_decimal(s, n / 10);
    }
    push_char(s, digit_char(n % 10));
    assert(final(s)@ =~= old(s)@ + decimal_chars(n as nat));
}

/// The name of `key_code` in the keybinding configuration.
pub fn key_code_to_config_name(key_code: KeyCode) -> (r: String)
    ensures
        r@ == config_name(key_code),
{
    match key_code {
        KeyCode::Char(c) => {
            let mut s = String::new();
            push_char(&mut s, c);
            assert(s@ =~= seq![c]);
            s
        },
        KeyCode::Enter => String::from_str("Enter"),
        KeyCode::Tab => String::from_str("Tab"),
        KeyCode::Backspace => String::from_str("Backspace"),
        KeyCode::Delete => String::from_str("Delete"),
        KeyCode::Esc => String::from_str("Escape"),
        KeyCode::Up => String::from_str("Up"),
        KeyCode::Down => String::from_str("Down"),
        KeyCode::Left => String::from_str("Left"),
        KeyCode::Right => String::from_str("Right"),
        KeyCode::Home => String::from_str("Home"),
        KeyCode::End => String::from_str("End"),
        KeyCode::PageUp => String::from_str("PageUp"),
        KeyCode::PageDown => String::from_str("PageDown"),
        KeyCode::Insert => String::from_str("Insert"),
        KeyCode::F(n) => {
            let mut s = String::new();
            push_char(&mut s, 'F');
            push_decimal(&mut s, n);
            assert(s@ =~= seq!['F'] + decimal_chars(n as nat));
            s
        },
        KeyCode::Other(name) => name,
    }
}

/// The configuration names of the modifiers held in `modifiers`.
pub fn modifiers_to_config_names(modifiers: KeyModifiers) -> (r: Vec<String>)
    ensures
        r@.map_values(|s: String| s@) == modifier_names(modifiers),
{
    let mut names: Vec<String> = Vec::new();
    if modifiers.bits & CONTROL != 0 {
        names.push(String::from_str("ctrl"));
    }
    if modifiers.bits & ALT != 0 {
        names.push(String::from_str("alt"));
    }
    if modifiers.bits & SHIFT != 0 {
        names.push(String::from_str("shift"));
    }
    if modifiers.bits & SUPER != 0 {
        names.push(String::from_str("super"));
    }
    assert(names@.map_values(|s: String| s@) =~= modifier_names(modifiers));
    names
}

/// The display of a chord: the display of each of its keys that could be read,
/// in order, separated by spaces; `keys` holds each key's display, or `None` for a
/// key that could not be read.
pub fn format_chord_keys(keys: &Vec<Option<String>>) -> (r: String)
    ensures
        r@ == spaced(present(keys@.map_values(|k: Option<String>| text_of(k)))),
{
    let ghost parts = keys@.map_values(|k: Option<String>| text_of(k));
    let mut out = String::new();
    let mut any = false;
    let mut i: usize = 0;
    while i < keys.len()
        invariant
            0 <= i <= keys@.len(),
            parts == keys@.map_values(|k: Option<String>| text_of(k)),
            out@ == spaced(present(parts.take(i as int))),
            any == (present(parts.take(i as int)).len() > 0),
        decreases keys@.len() - i,
    {
        assert(parts.take(i + 1).drop_last() =~= parts.take(i as int));
        assert(parts.take(i + 1).last() == parts[i as int]);
        match &keys[i] {
            Some(k) => {
                let ghost prev = present(parts.take(i as int));
                assert(parts[i as int] == Some(k@));
                assert(present(parts.take(i + 1)) == prev.push(k@));
                assert(prev.push(k@).drop_last() =~= prev);
                if any {
                    out.append(" ");
                    proof {
                        reveal_strlit(" ");
                    }
                }
                out.append(k.as_str());
                any = true;
                assert(out@ =~= spaced(present(parts.take(i + 1))));
            },
            None => {},
        }
        i = i + 1;
    }
    assert(parts.take(i as int) =~= parts);
    out
}

} // verus!
