//! Key-shortcut formatting: the label shown for a key press, built from the
//! modifier state, the key's name and the hardware keycode.

use vstd::prelude::*;

verus! {

/// The modifier keys that may be held during a key press.
#[derive(Clone, Copy, PartialEq, Eq, Structural)]
pub struct KeyModifiers {
    pub super_key: bool,
    pub hyper: bool,
    pub meta: bool,
    pub control: bool,
    pub alt: bool,
    pub shift: bool,
}

/// The prefix written before the key name: the highest-ranked modifier held,
/// in the order Super, Hyper, Meta, Ctrl, Alt, Shift; nothing when none is
/// held.
pub open spec fn modifier_prefix(m: KeyModifiers) -> Seq<char> {
    if m.super_key {
        "Super+"@
    } else if m.hyper {
        "Hyper+"@
    } else if m.meta {
        "Meta+"@
    } else if m.control {
        "Ctrl+"@
    } else if m.alt {
        "Alt+"@
    } else if m.shift {
        "Shift+"@
    } else {
        Seq::empty()
    }
}

/// The decimal digit with value `n`.
pub open spec fn dec_digit(n: int) -> char
    recommends
        0 <= n < 10,
{
    if n == 0 {
        '0'
    } else if n == 1 {
        '1'
    } else if n == 2 {
        '2'
    } else if n == 3 {
        '3'
    } else if n == 4 {
        '4'
    } else if n == 5 {
        '5'
    } else if n == 6 {
        '6'
    } else if n == 7 {
        '7'
    } else if n == 8 {
        '8'
    } else {
        '9'
    }
}

/// The decimal digits of `n`, most significant first, with no leading
/// zeroes (a single `'0'` for zero).
pub open spec fn dec_rep(n: int) -> Seq<char>
    recommends
        n >= 0,
    decreases n,
{
    if n < 10 {
        seq![dec_digit(n)]
    } else {
        dec_rep(n / 10).push(dec_digit(n % 10))
    }
}

/// The digit character for a value below ten.
fn digit_str(d: u8) -> (r: &'static str)
    requires
        d < 10,
    ensures
        r@ == seq![dec_digit(d as int)],
{
    if d == 0 {
        proof {
            reveal_strlit("0");
            assert("0"@ =~= seq![dec_digit(0)]);
        }
        "0"
    } else if d == 1 {
        proof {
            reveal_strlit("1");
            assert("1"@ =~= seq![dec_digit(1)]);
        }
        "1"
    } else if d == 2 {
        proof {
            reveal_strlit("2");
            assert("2"@ =~= seq![dec_digit(2)]);
        }
        "2"
    } else if d == 3 {
        proof {
            reveal_strlit("3");
            assert("3"@ =~= seq![dec_digit(3)]);
        }
        "3"
    } else if d == 4 {
        proof {
            reveal_strlit("4");
            assert("4"@ =~= seq![dec_digit(4)]);
        }
        "4"
    } else if d == 5 {
        proof {
            reveal_strlit("5");
            assert("5"@ =~= seq![dec_digit(5)]);
        }
        "5"
    } else if d == 6 {
        proof {
            reveal_strlit("6");
            assert("6"@ =~= seq![dec_digit(6)]);
        }
        "6"
    } else if d == 7 {
        proof {
            reveal_strlit("7");
            assert("7"@ =~= seq![dec_digit(7)]);
        }
        "7"
    } else if d == 8 {
        proof {
            reveal_strlit("8");
            assert("8"@ =~= seq![dec_digit(8)]);
        }
        "8"
    } else {
        proof {
            reveal_strlit("9");
            assert("9"@ =~= seq![dec_digit(9)]);
        }
        "9"
    }
}

/// Append the decimal digits of `n` to `s`.
fn append_dec(s: &mut String, n: u16)
    ensures
        final(s)@ == old(s)@ + dec_rep(n as int),
    decreases n,
{
    if n < 10 {
        let d = digit_str(n as u8);
        s.append(d);
        proof {
            assert(final(s)@ =~= old(s)@ + dec_rep(n as int));
        }
    } else {
        append_dec(s, n / 10);
        let d = digit_str((n % 10) as u8);
        s.append(d);
        proof {
            assert((n / 10) as int == (n as int) / 10);
            assert((n % 10) as int == (n as int) % 10);
            assert(final(s)@ =~= old(s)@ + dec_rep(n as int));
        }
    }
}

/// The view of an optional key name.
pub open spec fn opt_name_view(name: Option<&String>) -> Option<Seq<char>> {
    match name {
        Some(n) => Some(n@),
        None => None,
    }
}

/// The label for a key press: the modifier prefix, then the key's name (or
/// `Unknown` for a key without one), then the hardware keycode in
/// parentheses.
pub open spec fn format_key_spec(code: u16, m: KeyModifiers, name: Option<Seq<char>>) -> Seq<
    char,
> {
    modifier_prefix(m) + (match name {
        Some(s) => s,
        None => "Unknown"@,
    }) + " ("@ + dec_rep(code as int) + ")"@
}

/// Build the label that [`format_key_spec`] describes.
pub fn format_key(code: u16, modifiers: KeyModifiers, name: Option<&String>) -> (r: String)
    ensures
        r@ == format_key_spec(code, modifiers, opt_name_view(name)),
{
    let mut out = String::new();
    if modifiers.super_key {
        out.append("Super+");
    } else if modifiers.hyper {
        out.append("Hyper+");
    } else if modifiers.meta {
        out.append("Meta+");
    } else if modifiers.control {
        out.append("Ctrl+");
    } else if modifiers.alt {
        out.append("Alt+");
    } else if modifiers.shift {
        out.append("Shift+");
    }
    proof {
        assert(out@ =~= modifier_prefix(modifiers));
    }
    match name {
        Some(n) => out.append(n.as_str()),
        None => out.append("Unknown"),
    }
    out.append(" (");
    append_dec(&mut out, code);
    out.append(")");
    proof {
        assert(out@ =~= format_key_spec(code, modifiers, opt_name_view(name)));
    }
    out
}

} // verus!
