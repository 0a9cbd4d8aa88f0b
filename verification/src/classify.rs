//! Character classification shared by both shell dialects: control
//! characters that can never be printed verbatim, directional-formatting
//! characters, the suspicious-bidi scan, and terminal display width.

use vstd::prelude::*;

verus! {

/// True for the explicit directional-formatting characters: the
/// left-to-right/right-to-left marks, the embedding and override controls
/// with their terminator, and the isolate controls with theirs.
pub open spec fn char_is_bidi(c: char) -> bool {
    let u = c as u32;
    u == 0x200E || u == 0x200F || (0x202A <= u && u <= 0x202E) || (0x2066 <= u && u <= 0x2069)
}

pub fn is_bidi(c: char) -> (r: bool)
    ensures
        r == char_is_bidi(c),
{
    let u = c as u32;
    u == 0x200E || u == 0x200F || (0x202A <= u && u <= 0x202E) || (0x2066 <= u && u <= 0x2069)
}

/// True for code points that are never safe to print to a terminal
/// verbatim: the control characters (ASCII controls, delete, and the
/// C1 range).
pub open spec fn char_requires_escape(c: char) -> bool {
    let u = c as u32;
    u < 0x20 || (0x7F <= u && u <= 0x9F)
}

pub fn requires_escape(c: char) -> (r: bool)
    ensures
        r == char_requires_escape(c),
{
    let u = c as u32;
    u < 0x20 || (0x7F <= u && u <= 0x9F)
}

/// True for the directional controls that open an embedding or override
/// scope, which the pop-directional-formatting character closes.
pub open spec fn bidi_opens_embed(c: char) -> bool {
    let u = c as u32;
    u == 0x202A || u == 0x202B || u == 0x202D || u == 0x202E
}

/// True for the directional controls that open an isolate scope, which the
/// pop-directional-isolate character closes.
pub open spec fn bidi_opens_isolate(c: char) -> bool {
    let u = c as u32;
    u == 0x2066 || u == 0x2067 || u == 0x2068
}

/// Runs the directional-scope simulation over the text: the embedding
/// depth, the isolate depth, and whether a closing control ever appeared
/// with no scope of its kind open.
pub open spec fn bidi_state(s: Seq<char>) -> (int, int, bool)
    decreases s.len(),
{
    if s.len() == 0 {
        (0, 0, false)
    } else {
        let prior = bidi_state(s.drop_last());
        let e = prior.0;
        let iso = prior.1;
        let bad = prior.2;
        let c = s.last();
        if bidi_opens_embed(c) {
            (e + 1, iso, bad)
        } else if c as u32 == 0x202C {
            if e == 0 {
                (0, iso, true)
            } else {
                (e - 1, iso, bad)
            }
        } else if bidi_opens_isolate(c) {
            (e, iso + 1, bad)
        } else if c as u32 == 0x2069 {
            if iso == 0 {
                (e, 0, true)
            } else {
                (e, iso - 1, bad)
            }
        } else {
            (e, iso, bad)
        }
    }
}

/// The text's directional controls would reorder content in a way that can
/// hide what is really pasted: a scope is opened and never closed, or a
/// closing control appears with nothing to close.
pub open spec fn suspicious_bidi(s: Seq<char>) -> bool {
    let end = bidi_state(s);
    end.2 || end.0 != 0 || end.1 != 0
}

/// Scans the whole text and decides whether its directional-formatting
/// characters are used suspiciously.
pub fn is_suspicious_bidi(text: &Vec<char>) -> (r: bool)
    ensures
        r == suspicious_bidi(text@),
{
    let n = text.len();
    let mut embed: usize = 0;
    let mut isolate: usize = 0;
    let mut bad = false;
    let mut i: usize = 0;
    while i < n
        invariant
            n == text@.len(),
            i <= n,
            embed <= i,
            isolate <= i,
            bidi_state(text@.take(i as int)) == (embed as int, isolate as int, bad),
        decreases n - i,
    {
        let c = text[i];
        let u = c as u32;
        assert(text@.take(i as int + 1).drop_last() =~= text@.take(i as int));
        if u == 0x202A || u == 0x202B || u == 0x202D || u == 0x202E {
            embed = embed + 1;
        } else if u == 0x202C {
            if embed == 0 {
                bad = true;
            } else {
                embed = embed - 1;
            }
        } else if u == 0x2066 || u == 0x2067 || u == 0x2068 {
            isolate = isolate + 1;
        } else if u == 0x2069 {
            if isolate == 0 {
                bad = true;
            } else {
                isolate = isolate - 1;
            }
        }
        i = i + 1;
    }
    assert(text@.take(n as int) =~= text@);
    bad || embed != 0 || isolate != 0
}

/// Text with no directional-formatting character at all is never
/// suspicious: the scope simulation ends balanced.
pub proof fn lemma_no_bidi_state(s: Seq<char>)
    requires
        forall|j: int| 0 <= j < s.len() ==> !char_is_bidi(s[j]),
    ensures
        bidi_state(s) == (0int, 0int, false),
        !suspicious_bidi(s),
    decreases s.len(),
{
    if s.len() > 0 {
        assert(forall|j: int| 0 <= j < s.drop_last().len() ==> s.drop_last()[j] == s[j]);
        lemma_no_bidi_state(s.drop_last());
        assert(!char_is_bidi(s.last()));
    }
}

/// The width in columns that a terminal gives the character.
pub uninterp spec fn display_width(c: char) -> Option<usize>;

/// Relies on `unicode_width::UnicodeWidthChar::width`: the column width of
/// a character, `None` for a control character. The result depends on the
/// character alone.
#[verifier::external_body]
fn char_width(c: char) -> (r: Option<usize>)
    ensures
        r == display_width(c),
{
    unicode_width::UnicodeWidthChar::width(c)
}

/// The character occupies no columns when printed, so it would be
/// invisible when pasted.
pub open spec fn char_is_zero_width(c: char) -> bool {
    match display_width(c) {
        Option::None => true,
        Option::Some(w) => w == 0,
    }
}

pub fn is_zero_width(c: char) -> (r: bool)
    ensures
        r == char_is_zero_width(c),
{
    match char_width(c) {
        Option::None => true,
        Option::Some(w) => w == 0,
    }
}

} // verus!
