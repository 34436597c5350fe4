//! "Start Faint Light when the computer starts": the text of the XDG
//! autostart entry, and the UTF-16 strings the Windows shell takes.

use vstd::prelude::*;

use crate::text::{push_str, string_of};

verus! {

/// The autostart entry that runs `exe` at login (the path is quoted: it
/// routinely contains spaces).
pub open spec fn desktop_entry_text(exe: Seq<char>) -> Seq<char> {
    "[Desktop Entry]\nType=Application\nName=Faint Light\nComment=Plate-solving server\nExec=\""@ + exe
        + "\"\nTerminal=false\nX-GNOME-Autostart-enabled=true\n"@
}

/// The XDG `.desktop` entry that starts the program at `exe` at login.
pub fn desktop_entry(exe: &str) -> (r: String)
    ensures
        r@ == desktop_entry_text(exe@),
{
    let mut out: Vec<char> = Vec::new();
    push_str("[Desktop Entry]\nType=Application\nName=Faint Light\nComment=Plate-solving server\nExec=\"", &mut out);
    push_str(exe, &mut out);
    push_str("\"\nTerminal=false\nX-GNOME-Autostart-enabled=true\n", &mut out);
    string_of(out)
}

/// The UTF-16 code units of one character.
pub open spec fn utf16_units(c: char) -> Seq<u16> {
    let v = c as u32;
    if v < 0x10000 {
        seq![v as u16]
    } else {
        let w = v - 0x10000;
        seq![(0xD800 + w / 0x400) as u16, (0xDC00 + w % 0x400) as u16]
    }
}

/// The UTF-16 encoding of `s`.
pub open spec fn utf16(s: Seq<char>) -> Seq<u16>
    decreases s.len(),
{
    if s.len() == 0 {
        seq![]
    } else {
        utf16(s.drop_last()) + utf16_units(s.last())
    }
}

/// `s` as the NUL-terminated UTF-16 string Windows APIs take.
pub fn wide(s: &str) -> (r: Vec<u16>)
    ensures
        r@ == utf16(s@).push(0u16),
{
    let c = crate::text::chars_of(s);
    let mut out: Vec<u16> = Vec::new();
    let mut i: usize = 0;
    while i < c.len()
        invariant
            i <= c@.len(),
            c@ == s@,
            out@ == utf16(c@.take(i as int)),
        decreases c.len() - i,
    {
        let ch = c[i];
        let v = ch as u32;
        proof { vstd::utf8::char_is_scalar(ch); }
        assert(v <= 0x10FFFF);
        if v < 0x10000 {
            out.push(v as u16);
        } else {
            let w = v - 0x10000;
            out.push((0xD800 + w / 0x400) as u16);
            out.push((0xDC00 + w % 0x400) as u16);
        }
        assert(c@.take(i + 1).drop_last() =~= c@.take(i as int));
        assert(c@.take(i + 1).last() == ch);
        assert(utf16(c@.take(i + 1)) == utf16(c@.take(i as int)) + utf16_units(ch));
        i = i + 1;
        assert(out@ =~= utf16(c@.take(i as int)));
    }
    assert(c@.take(c@.len() as int) =~= c@);
    out.push(0u16);
    out
}

} // verus!
