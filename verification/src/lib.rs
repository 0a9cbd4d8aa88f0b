//! Formatters for rendering strings — including strings that are not valid
//! under their declared encoding — so that they can be copied and pasted
//! back into a shell as a single argument, with quoting and escaping chosen
//! per dialect: bash/ksh syntax or PowerShell syntax.

use vstd::prelude::*;
use vstd::string::StrSliceExecFns;

pub mod classify;
pub mod decode;
pub mod hex;
pub mod unix;
pub mod windows;

verus! {

/// What is being quoted, and for which dialect: valid text, raw bytes
/// that may not be valid UTF-8 (bash/ksh), or raw 16-bit units that may
/// hold unpaired surrogates (PowerShell).
pub enum Kind {
    Unix(Vec<char>),
    UnixRaw(Vec<u8>),
    Windows(Vec<char>),
    WindowsRaw(Vec<u16>),
}

/// A string together with the dialect and quoting mode chosen for it;
/// `render` produces the safe-to-paste form.
pub struct Quoted {
    pub source: Kind,
    pub force_quote: bool,
}

/// Turns a string slice into its characters.
fn str_chars(text: &str) -> (r: Vec<char>)
    ensures
        r@ == text@,
{
    let n = text.unicode_len();
    let mut out: Vec<char> = Vec::new();
    let mut i: usize = 0;
    while i < n
        invariant
            n == text@.len(),
            i <= n,
            out@ == text@.take(i as int),
        decreases n - i,
    {
        out.push(text.get_char(i));
        assert(out@ =~= text@.take(i as int + 1));
        i = i + 1;
    }
    assert(text@.take(n as int) =~= text@);
    out
}

/// Relies on `String::from_iter` (through `collect`): the string holds
/// exactly the iterated characters, in order.
#[verifier::external_body]
fn chars_to_string(chars: &Vec<char>) -> (r: String)
    ensures
        r@ == chars@,
{
    chars.iter().collect()
}

impl Quoted {
    /// The rendered form this value stands for: the dialect's encoding of
    /// the source, with raw sources decoded first and routed to the
    /// escaped form when they do not decode.
    pub open spec fn spec_output(&self) -> Seq<char> {
        match self.source {
            Kind::Unix(t) => unix::ux_write(t@, self.force_quote),
            Kind::UnixRaw(b) => if vstd::utf8::valid_utf8(b@) {
                unix::ux_write(vstd::utf8::decode_utf8(b@), self.force_quote)
            } else {
                unix::ux_escaped(decode::utf8_items(b@))
            },
            Kind::Windows(t) => windows::ps_write(t@, self.force_quote),
            Kind::WindowsRaw(u) => if decode::utf16_valid(u@) {
                windows::ps_write(decode::utf16_chars(u@), self.force_quote)
            } else {
                windows::ps_escaped(decode::utf16_items(u@))
            },
        }
    }

    /// Quote a string using bash/ksh syntax.
    pub fn unix(text: &str) -> (r: Quoted)
        ensures
            r.source matches Kind::Unix(t) && t@ == text@,
            r.force_quote,
    {
        Quoted { source: Kind::Unix(str_chars(text)), force_quote: true }
    }

    /// Quote possibly invalid UTF-8 using bash/ksh syntax.
    pub fn unix_raw(bytes: &[u8]) -> (r: Quoted)
        ensures
            r.source matches Kind::UnixRaw(b) && b@ == bytes@,
            r.force_quote,
    {
        Quoted { source: Kind::UnixRaw(vstd::slice::slice_to_vec(bytes)), force_quote: true }
    }

    /// Quote a string using PowerShell syntax.
    pub fn windows(text: &str) -> (r: Quoted)
        ensures
            r.source matches Kind::Windows(t) && t@ == text@,
            r.force_quote,
    {
        Quoted { source: Kind::Windows(str_chars(text)), force_quote: true }
    }

    /// Quote possibly invalid UTF-16 using PowerShell syntax.
    pub fn windows_raw(units: &[u16]) -> (r: Quoted)
        ensures
            r.source matches Kind::WindowsRaw(u) && u@ == units@,
            r.force_quote,
    {
        Quoted { source: Kind::WindowsRaw(vstd::slice::slice_to_vec(units)), force_quote: true }
    }

    /// Toggle forced quoting. If `true`, quotes are added even if no
    /// special characters are present. Defaults to `true`.
    pub fn force(self, force: bool) -> (r: Quoted)
        ensures
            r.source == self.source,
            r.force_quote == force,
    {
        Quoted { source: self.source, force_quote: force }
    }

    /// Renders the quoted form.
    pub fn render(&self) -> (r: String)
        ensures
            r@ == self.spec_output(),
    {
        let out: Vec<char> = match &self.source {
            Kind::Unix(t) => unix::write(t, self.force_quote),
            Kind::UnixRaw(b) => {
                let (items, chars_opt) = decode::decode_utf8_items(b);
                proof {
                    decode::lemma_utf8_items_of_valid(b@);
                }
                match chars_opt {
                    Option::Some(cs) => unix::write(&cs, self.force_quote),
                    Option::None => unix::write_escaped_items(&items),
                }
            },
            Kind::Windows(t) => windows::write(t, self.force_quote),
            Kind::WindowsRaw(u) => {
                let (items, chars_opt) = decode::decode_utf16_items(u);
                match chars_opt {
                    Option::Some(cs) => windows::write(&cs, self.force_quote),
                    Option::None => windows::write_escaped(&items),
                }
            },
        };
        chars_to_string(&out)
    }
}

} // verus!
