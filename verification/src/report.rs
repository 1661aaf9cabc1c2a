//! Text colouring for the headless report.
use vstd::prelude::*;
use crate::text::{append_chars, chars_of, dec, decimal_chars, string_of};

verus! {

/// `text` in 24-bit foreground colour `rgb`: `ESC [38;2;r;g;bm` before it and
/// `ESC [0m` after it.
pub open spec fn painted(rgb: [u8; 3], text: Seq<char>) -> Seq<char> {
    seq!['\x1b', '[', '3', '8', ';', '2', ';'] + dec(rgb[0] as nat) + seq![';'] + dec(rgb[1] as nat) + seq![';']
        + dec(rgb[2] as nat) + seq!['m'] + text + seq!['\x1b', '[', '0', 'm']
}

/// `text` coloured with `rgb` when `color` is on, else unchanged.
pub fn paint(rgb: [u8; 3], color: bool, text: &str) -> (s: String)
    ensures
        s@ == if color { painted(rgb, text@) } else { text@ },
{
    if !color {
        return text.to_owned();
    }
    let mut out: Vec<char> = Vec::new();
    out.push('\x1b');
    out.push('[');
    out.push('3');
    out.push('8');
    out.push(';');
    out.push('2');
    out.push(';');
    let r = decimal_chars(rgb[0] as u64);
    append_chars(&mut out, &r);
    out.push(';');
    let g = decimal_chars(rgb[1] as u64);
    append_chars(&mut out, &g);
    out.push(';');
    let b = decimal_chars(rgb[2] as u64);
    append_chars(&mut out, &b);
    out.push('m');
    let t = chars_of(text);
    append_chars(&mut out, &t);
    out.push('\x1b');
    out.push('[');
    out.push('0');
    out.push('m');
    proof {
        assert(out@ =~= painted(rgb, text@));
    }
    string_of(out.as_slice())
}

} // verus!
