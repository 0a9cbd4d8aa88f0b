//! The PowerShell encoder: single/double quoting, quote doubling, and the
//! backtick escaped-literal form.
//!
//! PowerShell's parser treats a fixed set of Unicode lookalikes (curly
//! quotes, long dashes, exotic whitespace) like their ASCII counterparts in
//! some contexts, so the classification here recognizes the lookalikes too.

use vstd::prelude::*;
use crate::classify::{
    char_is_bidi, char_is_zero_width, char_requires_escape, is_bidi, is_suspicious_bidi,
    is_zero_width, requires_escape, suspicious_bidi,
};
use crate::decode::UnitItem;
use crate::hex::{hex_seq, push_hex};

verus! {

/// PowerShell whitespace: ASCII space, tab, vertical tab and form feed,
/// the no-break space and next-line characters, and every separator.
pub open spec fn char_is_whitespace(c: char) -> bool {
    let u = c as u32;
    u == 0x20 || u == 0x09 || u == 0x0B || u == 0x0C || u == 0xA0 || u == 0x85
        || char_is_separator(c)
}

pub fn is_whitespace(c: char) -> (r: bool)
    ensures
        r == char_is_whitespace(c),
{
    let u = c as u32;
    u == 0x20 || u == 0x09 || u == 0x0B || u == 0x0C || u == 0xA0 || u == 0x85 || is_separator(c)
}

/// The space, line and paragraph separator categories.
pub open spec fn char_is_separator(c: char) -> bool {
    let u = c as u32;
    u == 0x0020 || u == 0x00A0 || u == 0x1680 || (0x2000 <= u && u <= 0x200A) || u == 0x2028
        || u == 0x2029 || u == 0x202F || u == 0x205F || u == 0x3000
}

pub fn is_separator(c: char) -> (r: bool)
    ensures
        r == char_is_separator(c),
{
    let u = c as u32;
    u == 0x0020 || u == 0x00A0 || u == 0x1680 || (0x2000 <= u && u <= 0x200A) || u == 0x2028
        || u == 0x2029 || u == 0x202F || u == 0x205F || u == 0x3000
}

/// The characters that can start an option: the ASCII dash and the long
/// dashes PowerShell accepts in its place.
pub open spec fn char_is_dash(c: char) -> bool {
    let u = c as u32;
    u == 0x2D || u == 0x2013 || u == 0x2014 || u == 0x2015
}

pub fn is_dash(c: char) -> (r: bool)
    ensures
        r == char_is_dash(c),
{
    let u = c as u32;
    u == 0x2D || u == 0x2013 || u == 0x2014 || u == 0x2015
}

/// The ASCII single quote and its curly lookalikes.
pub open spec fn char_is_single_quote(c: char) -> bool {
    c == '\'' || c == '\u{2018}' || c == '\u{2019}' || c == '\u{201A}' || c == '\u{201B}'
}

pub fn is_single_quote(c: char) -> (r: bool)
    ensures
        r == char_is_single_quote(c),
{
    c == '\'' || c == '\u{2018}' || c == '\u{2019}' || c == '\u{201A}' || c == '\u{201B}'
}

/// The ASCII double quote and its curly lookalikes.
pub open spec fn char_is_double_quote(c: char) -> bool {
    c == '"' || c == '\u{201C}' || c == '\u{201D}' || c == '\u{201E}'
}

pub fn is_double_quote(c: char) -> (r: bool)
    ensures
        r == char_is_double_quote(c),
{
    c == '"' || c == '\u{201C}' || c == '\u{201D}' || c == '\u{201E}'
}

/// ASCII characters with a special meaning to PowerShell anywhere in a
/// bare word. The backslash is absent on purpose: it is the path
/// separator.
pub open spec fn ps_special(c: char) -> bool {
    c == '|' || c == '&' || c == ';' || c == '<' || c == '>' || c == '(' || c == ')' || c == '$'
        || c == '`' || c == '"' || c == '\'' || c == '*' || c == '?' || c == '[' || c == ']' || c
        == '=' || c == ',' || c == '{' || c == '}' || c == ' '
}

fn is_special(c: char) -> (r: bool)
    ensures
        r == ps_special(c),
{
    c == '|' || c == '&' || c == ';' || c == '<' || c == '>' || c == '(' || c == ')' || c == '$'
        || c == '`' || c == '"' || c == '\'' || c == '*' || c == '?' || c == '[' || c == ']' || c
        == '=' || c == ',' || c == '{' || c == '}' || c == ' '
}

/// Characters that are special only when they lead the word.
pub open spec fn ps_start_special(c: char) -> bool {
    c == '~' || c == '#' || c == '@' || c == '!'
}

fn is_start_special(c: char) -> (r: bool)
    ensures
        r == ps_start_special(c),
{
    c == '~' || c == '#' || c == '@' || c == '!'
}

pub open spec fn char_is_ascii_digit(c: char) -> bool {
    let u = c as u32;
    0x30 <= u && u <= 0x39
}

fn is_ascii_digit(c: char) -> (r: bool)
    ensures
        r == char_is_ascii_digit(c),
{
    let u = c as u32;
    0x30 <= u && u <= 0x39
}

/// A character that is unsafe between double quotes: the interpolation
/// introducers and anything the parser may read as a closing quote.
pub open spec fn ps_double_unsafe(c: char) -> bool {
    c == '`' || c == '$' || char_is_double_quote(c)
}

fn is_double_unsafe(c: char) -> (r: bool)
    ensures
        r == ps_double_unsafe(c),
{
    c == '`' || c == '$' || is_double_quote(c)
}

/// A character that escalates "quoting required" during the scan: a
/// special ASCII character, or — beyond ASCII — dialect whitespace or a
/// quote lookalike.
pub open spec fn ps_scan_special(c: char) -> bool {
    if (c as u32) < 0x80 {
        ps_special(c)
    } else {
        char_is_whitespace(c) || char_is_double_quote(c) || char_is_single_quote(c)
    }
}

fn is_scan_special(c: char) -> (r: bool)
    ensures
        r == ps_scan_special(c),
{
    if (c as u32) < 0x80 {
        is_special(c)
    } else {
        is_whitespace(c) || is_double_quote(c) || is_single_quote(c)
    }
}

/// The first character alone forces quoting: a leading-sensitive
/// character, a digit (a bare word could parse as a number), a dot
/// followed by a digit, a dash-like character unless it is the whole
/// word (the lone `-` argument stays bare), or a character that shows
/// nothing when printed.
pub open spec fn ps_first_forces(s: Seq<char>) -> bool {
    s.len() > 0 && (ps_start_special(s[0]) || char_is_ascii_digit(s[0]) || (s[0] == '.' && s.len()
        > 1 && char_is_ascii_digit(s[1])) || (char_is_dash(s[0]) && s.len() > 1)
        || char_is_zero_width(s[0]))
}

/// The word must be quoted: it is forced, empty, led by a sensitive
/// character, or holds a special character anywhere.
pub open spec fn ps_requires_quote(s: Seq<char>, force: bool) -> bool {
    force || s.len() == 0 || ps_first_forces(s) || exists|j: int|
        0 <= j < s.len() && ps_scan_special(s[j])
}

pub open spec fn ps_single_safe(s: Seq<char>) -> bool {
    forall|j: int| 0 <= j < s.len() ==> !char_is_single_quote(s[j])
}

pub open spec fn ps_double_safe(s: Seq<char>) -> bool {
    forall|j: int| 0 <= j < s.len() ==> !ps_double_unsafe(s[j])
}

/// Simple quoting cannot represent the text: it holds a control
/// character, or its directional controls are suspicious.
pub open spec fn ps_needs_escape(s: Seq<char>) -> bool {
    (exists|j: int| 0 <= j < s.len() && char_requires_escape(s[j])) || ((exists|j: int|
        0 <= j < s.len() && char_is_bidi(s[j])) && suspicious_bidi(s))
}

/// The backtick escape for one character inside the double-quoted
/// escaped-literal form.
pub open spec fn ps_escape_char(c: char) -> Seq<char> {
    let u = c as u32;
    if u == 0x00 {
        seq!['`', '0']
    } else if u == 0x0D {
        seq!['`', 'r']
    } else if u == 0x0A {
        seq!['`', 'n']
    } else if u == 0x09 {
        seq!['`', 't']
    } else if u == 0x07 {
        seq!['`', 'a']
    } else if u == 0x08 {
        seq!['`', 'b']
    } else if u == 0x0B {
        seq!['`', 'v']
    } else if u == 0x0C {
        seq!['`', 'f']
    } else if char_requires_escape(c) || char_is_bidi(c) {
        seq!['`', 'u', '{'] + hex_seq(u as nat, 2) + seq!['}']
    } else if c == '`' {
        seq!['`', '`']
    } else if c == '$' {
        seq!['`', '$']
    } else if char_is_double_quote(c) {
        seq!['`', c]
    } else {
        seq![c]
    }
}

/// The emission for one decoded item: a character's escape, or the
/// 4-digit code-unit escape for an unpaired surrogate.
pub open spec fn ps_escape_item(it: UnitItem) -> Seq<char> {
    match it {
        UnitItem::Scalar(c) => ps_escape_char(c),
        UnitItem::Invalid(u) => seq!['`', 'u', '{'] + hex_seq(u as nat, 4) + seq!['}'],
    }
}

pub open spec fn ps_escaped_body(items: Seq<UnitItem>) -> Seq<char>
    decreases items.len(),
{
    if items.len() == 0 {
        seq![]
    } else {
        ps_escaped_body(items.drop_last()) + ps_escape_item(items.last())
    }
}

/// The escaped-literal form: the whole text between double quotes, each
/// item escaped as needed.
pub open spec fn ps_escaped(items: Seq<UnitItem>) -> Seq<char> {
    seq!['"'] + ps_escaped_body(items) + seq!['"']
}

/// The body of the quote-doubling form: an ASCII single quote inserted
/// before every single-quote-like character.
pub open spec fn ps_doubled_body(s: Seq<char>) -> Seq<char>
    decreases s.len(),
{
    if s.len() == 0 {
        seq![]
    } else {
        ps_doubled_body(s.drop_last()) + (if char_is_single_quote(s.last()) {
            seq!['\'', s.last()]
        } else {
            seq![s.last()]
        })
    }
}

pub open spec fn ps_single_escaped(s: Seq<char>) -> Seq<char> {
    seq!['\''] + ps_doubled_body(s) + seq!['\'']
}

pub open spec fn quoted_with(s: Seq<char>, q: char) -> Seq<char> {
    seq![q] + s + seq![q]
}

pub open spec fn chars_units(s: Seq<char>) -> Seq<UnitItem>
    decreases s.len(),
{
    if s.len() == 0 {
        seq![]
    } else {
        chars_units(s.drop_last()).push(UnitItem::Scalar(s.last()))
    }
}

/// The full PowerShell encoding of valid text: the escaped-literal form
/// when simple quoting cannot represent it; otherwise the text bare, or
/// single-quoted, or double-quoted, or with its quotes doubled —
/// whichever is safe first.
pub open spec fn ps_write(s: Seq<char>, force: bool) -> Seq<char> {
    if ps_needs_escape(s) {
        ps_escaped(chars_units(s))
    } else if !ps_requires_quote(s, force) {
        s
    } else if ps_single_safe(s) {
        quoted_with(s, '\'')
    } else if ps_double_safe(s) {
        quoted_with(s, '"')
    } else {
        ps_single_escaped(s)
    }
}

/// Wraps the text in the given quote character, content copied verbatim.
pub fn write_simple(text: &Vec<char>, quote: char) -> (r: Vec<char>)
    ensures
        r@ == quoted_with(text@, quote),
{
    let n = text.len();
    let mut out: Vec<char> = Vec::new();
    out.push(quote);
    let mut i: usize = 0;
    while i < n
        invariant
            n == text@.len(),
            i <= n,
            out@ == seq![quote] + text@.take(i as int),
        decreases n - i,
    {
        out.push(text[i]);
        assert(out@ =~= seq![quote] + text@.take(i as int + 1));
        i = i + 1;
    }
    out.push(quote);
    assert(text@.take(n as int) =~= text@);
    assert(out@ =~= quoted_with(text@, quote));
    out
}

/// The quote-doubling form: wraps in single quotes and inserts a quote
/// before every single-quote-like character, so the parser reads the
/// second of the pair literally.
pub fn write_single_escaped(text: &Vec<char>) -> (r: Vec<char>)
    ensures
        r@ == ps_single_escaped(text@),
{
    let n = text.len();
    let mut out: Vec<char> = Vec::new();
    out.push('\'');
    let mut i: usize = 0;
    while i < n
        invariant
            n == text@.len(),
            i <= n,
            out@ == seq!['\''] + ps_doubled_body(text@.take(i as int)),
        decreases n - i,
    {
        let c = text[i];
        if is_single_quote(c) {
            out.push('\'');
        }
        out.push(c);
        proof {
            assert(text@.take(i as int + 1).drop_last() =~= text@.take(i as int));
            assert(text@.take(i as int + 1).last() == text@[i as int]);
            assert(out@ =~= seq!['\''] + ps_doubled_body(text@.take(i as int + 1)));
        }
        i = i + 1;
    }
    out.push('\'');
    proof {
        assert(text@.take(n as int) =~= text@);
        assert(out@ =~= ps_single_escaped(text@));
    }
    out
}

/// Appends the escape for one character of the escaped-literal form.
fn push_escape_char(out: &mut Vec<char>, c: char)
    ensures
        final(out)@ == old(out)@ + ps_escape_char(c),
{
    let u = c as u32;
    if u == 0x00 {
        out.push('`');
        out.push('0');
    } else if u == 0x0D {
        out.push('`');
        out.push('r');
    } else if u == 0x0A {
        out.push('`');
        out.push('n');
    } else if u == 0x09 {
        out.push('`');
        out.push('t');
    } else if u == 0x07 {
        out.push('`');
        out.push('a');
    } else if u == 0x08 {
        out.push('`');
        out.push('b');
    } else if u == 0x0B {
        out.push('`');
        out.push('v');
    } else if u == 0x0C {
        out.push('`');
        out.push('f');
    } else if requires_escape(c) || is_bidi(c) {
        out.push('`');
        out.push('u');
        out.push('{');
        push_hex(out, u, 2);
        out.push('}');
    } else if c == '`' {
        out.push('`');
        out.push('`');
    } else if c == '$' {
        out.push('`');
        out.push('$');
    } else if is_double_quote(c) {
        out.push('`');
        out.push(c);
    } else {
        out.push(c);
    }
    assert(out@ =~= old(out)@ + ps_escape_char(c));
}

/// The escaped-literal form: everything between double quotes, controls
/// and formatting characters as backtick escapes, unpaired surrogates as
/// 4-digit code-unit escapes.
pub fn write_escaped(items: &Vec<UnitItem>) -> (r: Vec<char>)
    ensures
        r@ == ps_escaped(items@),
{
    let n = items.len();
    let mut out: Vec<char> = Vec::new();
    out.push('"');
    let mut i: usize = 0;
    while i < n
        invariant
            n == items@.len(),
            i <= n,
            out@ == seq!['"'] + ps_escaped_body(items@.take(i as int)),
        decreases n - i,
    {
        match items[i] {
            UnitItem::Scalar(c) => {
                push_escape_char(&mut out, c);
            },
            UnitItem::Invalid(uu) => {
                out.push('`');
                out.push('u');
                out.push('{');
                push_hex(&mut out, uu as u32, 4);
                out.push('}');
            },
        }
        proof {
            assert(items@.take(i as int + 1).drop_last() =~= items@.take(i as int));
            assert(items@.take(i as int + 1).last() == items@[i as int]);
            assert(out@ =~= seq!['"'] + ps_escaped_body(items@.take(i as int + 1)));
        }
        i = i + 1;
    }
    out.push('"');
    proof {
        assert(items@.take(n as int) =~= items@);
        assert(out@ =~= ps_escaped(items@));
    }
    out
}

/// Wraps each character of valid text as a decoded item.
pub fn chars_to_units(text: &Vec<char>) -> (r: Vec<UnitItem>)
    ensures
        r@ == chars_units(text@),
{
    let n = text.len();
    let mut out: Vec<UnitItem> = Vec::new();
    let mut i: usize = 0;
    proof {
        assert(out@ =~= chars_units(text@.take(0)));
    }
    while i < n
        invariant
            n == text@.len(),
            i <= n,
            out@ == chars_units(text@.take(i as int)),
        decreases n - i,
    {
        let it = crate::decode::mk_scalar_unit(text[i]);
        out.push(it);
        proof {
            assert(text@.take(i as int + 1).drop_last() =~= text@.take(i as int));
            assert(text@.take(i as int + 1).last() == text@[i as int]);
            assert(out@ =~= chars_units(text@.take(i as int + 1)));
        }
        i = i + 1;
    }
    proof {
        assert(text@.take(n as int) =~= text@);
    }
    out
}

/// Encodes valid text in PowerShell syntax: classifies every character in
/// one scan, then emits the bare, simply quoted, quote-doubled or
/// escaped-literal form.
pub fn write(text: &Vec<char>, force_quote: bool) -> (r: Vec<char>)
    ensures
        r@ == ps_write(text@, force_quote),
{
    let n = text.len();
    let mut requires_quote = force_quote;
    if !requires_quote {
        if n == 0 {
            requires_quote = true;
        } else {
            let first = text[0];
            if is_start_special(first) {
                requires_quote = true;
            }
            if !requires_quote && is_ascii_digit(first) {
                requires_quote = true;
            }
            if !requires_quote && first == '.' && n > 1 && is_ascii_digit(text[1]) {
                requires_quote = true;
            }
            if !requires_quote && is_dash(first) && n > 1 {
                requires_quote = true;
            }
            if !requires_quote && is_zero_width(first) {
                requires_quote = true;
            }
        }
    }
    let ghost seed = force_quote || text@.len() == 0 || ps_first_forces(text@);
    assert(requires_quote == seed);
    let mut single_safe = true;
    let mut double_safe = true;
    let mut bidi = false;
    let mut i: usize = 0;
    while i < n
        invariant
            n == text@.len(),
            i <= n,
            seed == (force_quote || text@.len() == 0 || ps_first_forces(text@)),
            single_safe <==> (forall|j: int| 0 <= j < i ==> !char_is_single_quote(text@[j])),
            double_safe <==> (forall|j: int| 0 <= j < i ==> !ps_double_unsafe(text@[j])),
            bidi <==> (exists|j: int| 0 <= j < i && char_is_bidi(text@[j])),
            requires_quote == (seed || exists|j: int| 0 <= j < i && ps_scan_special(text@[j])),
            forall|j: int| 0 <= j < i ==> !char_requires_escape(text@[j]),
        decreases n - i,
    {
        let c = text[i];
        if requires_escape(c) {
            let units = chars_to_units(text);
            let out = write_escaped(&units);
            assert(ps_needs_escape(text@));
            return out;
        }
        if is_single_quote(c) {
            single_safe = false;
        }
        if is_double_unsafe(c) {
            double_safe = false;
        }
        if is_scan_special(c) {
            requires_quote = true;
        }
        if is_bidi(c) {
            bidi = true;
        }
        i = i + 1;
    }
    if bidi && is_suspicious_bidi(text) {
        let units = chars_to_units(text);
        let out = write_escaped(&units);
        assert(ps_needs_escape(text@));
        return out;
    }
    assert(!ps_needs_escape(text@));
    assert(requires_quote == ps_requires_quote(text@, force_quote));
    if !requires_quote {
        let n2 = text.len();
        let mut out: Vec<char> = Vec::new();
        let mut k: usize = 0;
        while k < n2
            invariant
                n2 == text@.len(),
                k <= n2,
                out@ == text@.take(k as int),
            decreases n2 - k,
        {
            out.push(text[k]);
            assert(out@ =~= text@.take(k as int + 1));
            k = k + 1;
        }
        assert(out@ =~= text@);
        out
    } else if single_safe {
        write_simple(text, '\'')
    } else if double_safe {
        write_simple(text, '"')
    } else {
        write_single_escaped(text)
    }
}

/// Reads the inside of a single-quoted PowerShell string: a pair of
/// quote-like characters yields the second of the pair literally, a lone
/// quote-like character closes the string, and everything else is copied.
/// Returns the content and what follows the closing quote.
pub open spec fn ps_in_single(rem: Seq<char>) -> Option<(Seq<char>, Seq<char>)>
    decreases rem.len(),
{
    if rem.len() == 0 {
        None
    } else if char_is_single_quote(rem[0]) {
        if rem.len() >= 2 && char_is_single_quote(rem[1]) {
            match ps_in_single(rem.skip(2)) {
                Some(p) => Some((seq![rem[1]] + p.0, p.1)),
                None => None,
            }
        } else {
            Some((seq![], rem.drop_first()))
        }
    } else {
        match ps_in_single(rem.drop_first()) {
            Some(p) => Some((seq![rem[0]] + p.0, p.1)),
            None => None,
        }
    }
}

/// Reads the inside of a double-quoted PowerShell string: a quote-like
/// character closes it, a backtick or dollar would be expanded and falls
/// outside the model, and everything else is copied.
pub open spec fn ps_in_double(rem: Seq<char>) -> Option<(Seq<char>, Seq<char>)>
    decreases rem.len(),
{
    if rem.len() == 0 {
        None
    } else if char_is_double_quote(rem[0]) {
        Some((seq![], rem.drop_first()))
    } else if rem[0] == '`' || rem[0] == '$' {
        None
    } else {
        match ps_in_double(rem.drop_first()) {
            Some(p) => Some((seq![rem[0]] + p.0, p.1)),
            None => None,
        }
    }
}

/// A bare word: every character is plain — nothing quote-like, no
/// whitespace, nothing special to the parser, no control character.
pub open spec fn ps_bare(rem: Seq<char>) -> Option<Seq<char>>
    decreases rem.len(),
{
    if rem.len() == 0 {
        Some(seq![])
    } else if ps_scan_special(rem[0]) || char_requires_escape(rem[0]) {
        None
    } else {
        match ps_bare(rem.drop_first()) {
            Some(t) => Some(seq![rem[0]] + t),
            None => None,
        }
    }
}

/// A model of how PowerShell reads one argument of the shapes this
/// encoder emits: a bare word of plain characters, or a single quoted
/// string spanning the whole argument. Anything else — an unterminated
/// quote, trailing text, an expansion inside double quotes — falls
/// outside the model and yields no value.
pub open spec fn ps_token(out: Seq<char>) -> Option<Seq<char>> {
    if out.len() == 0 {
        Some(seq![])
    } else if char_is_single_quote(out[0]) {
        match ps_in_single(out.drop_first()) {
            Some(p) => if p.1.len() == 0 {
                Some(p.0)
            } else {
                None
            },
            None => None,
        }
    } else if char_is_double_quote(out[0]) {
        match ps_in_double(out.drop_first()) {
            Some(p) => if p.1.len() == 0 {
                Some(p.0)
            } else {
                None
            },
            None => None,
        }
    } else {
        ps_bare(out)
    }
}

/// The first character's contribution to the quote-doubling body.
pub open spec fn ps_doubled_head(c: char) -> Seq<char> {
    if char_is_single_quote(c) {
        seq!['\'', c]
    } else {
        seq![c]
    }
}

/// The quote-doubling body can be peeled from the front as well as from
/// the back.
proof fn lemma_doubled_shift(s: Seq<char>)
    requires
        s.len() > 0,
    ensures
        ps_doubled_body(s) == ps_doubled_head(s[0]) + ps_doubled_body(s.drop_first()),
    decreases s.len(),
{
    reveal_with_fuel(ps_doubled_body, 2);
    if s.len() == 1 {
        assert(ps_doubled_body(s) =~= ps_doubled_head(s[0]) + ps_doubled_body(s.drop_first()));
    } else {
        lemma_doubled_shift(s.drop_last());
        assert(s.drop_last()[0] == s[0]);
        assert(s.drop_last().drop_first() =~= s.drop_first().drop_last());
        assert(s.drop_first().last() == s.last());
        assert(ps_doubled_body(s) =~= ps_doubled_head(s[0]) + ps_doubled_body(s.drop_first()));
    }
}

/// The doubled body of any text, followed by a closing quote, reads back
/// as the text with nothing left over.
proof fn lemma_in_single_of_doubled(s: Seq<char>)
    ensures
        ps_in_single(ps_doubled_body(s) + seq!['\'']) == Some((s, Seq::<char>::empty())),
    decreases s.len(),
{
    let rem = ps_doubled_body(s) + seq!['\''];
    if s.len() == 0 {
        assert(rem =~= seq!['\'']);
        assert(rem.drop_first() =~= Seq::<char>::empty());
    } else {
        lemma_doubled_shift(s);
        let tail = ps_doubled_body(s.drop_first()) + seq!['\''];
        lemma_in_single_of_doubled(s.drop_first());
        if char_is_single_quote(s[0]) {
            assert(rem =~= seq!['\'', s[0]] + tail);
            assert(rem[0] == '\'');
            assert(rem[1] == s[0]);
            assert(rem.skip(2) =~= tail);
            assert(seq![s[0]] + s.drop_first() =~= s);
        } else {
            assert(rem =~= seq![s[0]] + tail);
            assert(rem.drop_first() =~= tail);
            assert(seq![s[0]] + s.drop_first() =~= s);
        }
    }
}

/// Quote-free content in the doubling form is copied verbatim.
proof fn lemma_doubled_body_safe(s: Seq<char>)
    requires
        ps_single_safe(s),
    ensures
        ps_doubled_body(s) == s,
    decreases s.len(),
{
    if s.len() > 0 {
        lemma_doubled_body_safe(s.drop_last());
        assert(ps_doubled_body(s) =~= s);
    }
}

/// Content safe between double quotes, followed by the closing quote,
/// reads back as the content with nothing left over.
proof fn lemma_in_double_safe(s: Seq<char>)
    requires
        ps_double_safe(s),
    ensures
        ps_in_double(s + seq!['"']) == Some((s, Seq::<char>::empty())),
    decreases s.len(),
{
    let rem = s + seq!['"'];
    if s.len() == 0 {
        assert(rem =~= seq!['"']);
        assert(rem.drop_first() =~= Seq::<char>::empty());
    } else {
        assert(forall|j: int| 0 <= j < s.drop_first().len() ==> s.drop_first()[j] == s[j + 1]);
        lemma_in_double_safe(s.drop_first());
        assert(rem[0] == s[0]);
        assert(!char_is_double_quote(s[0]));
        assert(rem.drop_first() =~= s.drop_first() + seq!['"']);
        assert(seq![s[0]] + s.drop_first() =~= s);
    }
}

/// A word of nothing but plain characters reads back as itself.
proof fn lemma_bare_word(s: Seq<char>)
    requires
        forall|j: int| 0 <= j < s.len() ==> !ps_scan_special(s[j]),
        forall|j: int| 0 <= j < s.len() ==> !char_requires_escape(s[j]),
    ensures
        ps_bare(s) == Some(s),
    decreases s.len(),
{
    if s.len() > 0 {
        assert(forall|j: int| 0 <= j < s.drop_first().len() ==> s.drop_first()[j] == s[j + 1]);
        lemma_bare_word(s.drop_first());
        assert(seq![s[0]] + s.drop_first() =~= s);
    }
}

/// Round-trip safety for every encoding of valid text that stays off the
/// backtick-escaped path: reading the encoded word back as one argument
/// yields exactly the source text, whatever the quoting mode.
pub proof fn lemma_ps_round_trip(s: Seq<char>, force: bool)
    requires
        !ps_needs_escape(s),
    ensures
        ps_token(ps_write(s, force)) == Some(s),
{
    broadcast use vstd::utf8::char_u32_cast;

    if !ps_requires_quote(s, force) {
        assert(forall|j: int| 0 <= j < s.len() ==> !ps_scan_special(s[j]));
        assert(forall|j: int| 0 <= j < s.len() ==> !char_requires_escape(s[j]));
        if s.len() > 0 {
            assert(!ps_scan_special(s[0]));
            assert(!char_is_single_quote(s[0]));
            assert(!char_is_double_quote(s[0]));
        }
        lemma_bare_word(s);
    } else if ps_single_safe(s) {
        lemma_doubled_body_safe(s);
        lemma_in_single_of_doubled(s);
        let out = quoted_with(s, '\'');
        assert(out =~= seq!['\''] + (ps_doubled_body(s) + seq!['\'']));
        assert(out[0] == '\'');
        assert(out.drop_first() =~= ps_doubled_body(s) + seq!['\'']);
    } else if ps_double_safe(s) {
        lemma_in_double_safe(s);
        let out = quoted_with(s, '"');
        assert(out[0] == '"');
        assert(!char_is_single_quote('"'));
        assert(out.drop_first() =~= s + seq!['"']);
    } else {
        lemma_in_single_of_doubled(s);
        let out = ps_single_escaped(s);
        assert(out[0] == '\'');
        assert(out.drop_first() =~= ps_doubled_body(s) + seq!['\'']);
    }
}

/// The positional value of a sequence of hexadecimal digits.
pub open spec fn hex_val(s: Seq<char>) -> int
    decreases s.len(),
{
    if s.len() == 0 {
        0
    } else {
        hex_val(s.drop_last()) * 16 + crate::unix::hex_digit_val(s.last())
    }
}

/// A model of how PowerShell reads the inside of the double-quoted
/// escaped-literal form: a double-quote-like character must close the
/// whole argument; a backtick introduces a named escape, a `u{...}`
/// code-point escape, or makes the next character literal; a bare dollar
/// would be expanded and falls outside the model; everything else is
/// copied.
pub open spec fn ps_esc_in(rem: Seq<char>) -> Option<Seq<char>>
    decreases rem.len(),
{
    if rem.len() == 0 {
        None
    } else if char_is_double_quote(rem[0]) {
        if rem.len() == 1 {
            Some(seq![])
        } else {
            None
        }
    } else if rem[0] == '`' {
        if rem.len() < 2 {
            None
        } else if rem[1] == '0' {
            match ps_esc_in(rem.skip(2)) {
                Some(t) => Some(seq!['\0'] + t),
                None => None,
            }
        } else if rem[1] == 'r' {
            match ps_esc_in(rem.skip(2)) {
                Some(t) => Some(seq!['\r'] + t),
                None => None,
            }
        } else if rem[1] == 'n' {
            match ps_esc_in(rem.skip(2)) {
                Some(t) => Some(seq!['\n'] + t),
                None => None,
            }
        } else if rem[1] == 't' {
            match ps_esc_in(rem.skip(2)) {
                Some(t) => Some(seq!['\t'] + t),
                None => None,
            }
        } else if rem[1] == 'a' {
            match ps_esc_in(rem.skip(2)) {
                Some(t) => Some(seq!['\u{7}'] + t),
                None => None,
            }
        } else if rem[1] == 'b' {
            match ps_esc_in(rem.skip(2)) {
                Some(t) => Some(seq!['\u{8}'] + t),
                None => None,
            }
        } else if rem[1] == 'v' {
            match ps_esc_in(rem.skip(2)) {
                Some(t) => Some(seq!['\u{B}'] + t),
                None => None,
            }
        } else if rem[1] == 'f' {
            match ps_esc_in(rem.skip(2)) {
                Some(t) => Some(seq!['\u{C}'] + t),
                None => None,
            }
        } else if rem[1] == 'u' {
            if rem.len() < 3 || rem[2] != '{' {
                None
            } else {
                let k = crate::unix::find_index_of(rem.skip(3), '}') as int;
                let digits = rem.skip(3).take(k);
                if k == rem.skip(3).len() || k == 0 || !(forall|j: int|
                    0 <= j < k ==> crate::unix::char_is_hex_digit(digits[j])) {
                    None
                } else {
                    let v = hex_val(digits);
                    if !(0 <= v < 0xD800 || 0xE000 <= v <= 0x10FFFF) {
                        None
                    } else {
                        let adv = if 4 + k <= rem.len() {
                            4 + k
                        } else {
                            rem.len() as int
                        };
                        match ps_esc_in(rem.skip(adv)) {
                            Some(t) => Some(seq![((v as u32) as char)] + t),
                            None => None,
                        }
                    }
                }
            }
        } else {
            match ps_esc_in(rem.skip(2)) {
                Some(t) => Some(seq![rem[1]] + t),
                None => None,
            }
        }
    } else if rem[0] == '$' {
        None
    } else {
        match ps_esc_in(rem.drop_first()) {
            Some(t) => Some(seq![rem[0]] + t),
            None => None,
        }
    }
}

/// A model of how PowerShell reads one argument in the escaped-literal
/// form: the whole argument is one double-quoted string.
pub open spec fn ps_esc_token(out: Seq<char>) -> Option<Seq<char>> {
    if out.len() >= 1 && out[0] == '"' {
        ps_esc_in(out.drop_first())
    } else {
        None
    }
}

/// Reading back the digits that `hex_seq` wrote yields the value that
/// was written.
proof fn lemma_hex_val_of_seq(v: nat, min: nat)
    ensures
        hex_val(hex_seq(v, min)) == v,
        forall|j: int|
            0 <= j < hex_seq(v, min).len() ==> crate::unix::char_is_hex_digit(
                hex_seq(v, min)[j],
            ),
        hex_seq(v, min).len() >= 1,
        forall|j: int| 0 <= j < hex_seq(v, min).len() ==> hex_seq(v, min)[j] != '}',
    decreases v, min,
{
    reveal_with_fuel(hex_val, 2);
    if v < 16 && min <= 1 {
        crate::unix::lemma_hex_digit_val(v as int);
        assert(hex_seq(v, min) == seq![crate::hex::hex_digit(v as int)]);
        assert(hex_seq(v, min).drop_last() =~= Seq::<char>::empty());
        assert(hex_seq(v, min).last() == crate::hex::hex_digit(v as int));
        assert(hex_val(hex_seq(v, min)) == hex_val(Seq::<char>::empty()) * 16
            + crate::unix::hex_digit_val(crate::hex::hex_digit(v as int)));
    } else {
        let m2: nat = if min <= 1 {
            0
        } else {
            (min - 1) as nat
        };
        lemma_hex_val_of_seq(v / 16, m2);
        crate::unix::lemma_hex_digit_val((v % 16) as int);
        let a = hex_seq(v / 16, m2);
        assert(hex_seq(v, min) == a + seq![crate::hex::hex_digit((v % 16) as int)]);
        assert((a + seq![crate::hex::hex_digit((v % 16) as int)]).drop_last() =~= a);
        assert(hex_val(hex_seq(v, min)) == hex_val(a) * 16 + crate::unix::hex_digit_val(
            crate::hex::hex_digit((v % 16) as int),
        ));
    }
}

/// The escaped body can be peeled from the front.
proof fn lemma_ps_escaped_body_front(items: Seq<UnitItem>)
    requires
        items.len() > 0,
    ensures
        ps_escaped_body(items) == ps_escape_item(items[0]) + ps_escaped_body(items.drop_first()),
    decreases items.len(),
{
    reveal_with_fuel(ps_escaped_body, 2);
    if items.len() == 1 {
        assert(ps_escaped_body(items) =~= ps_escape_item(items[0]) + ps_escaped_body(
            items.drop_first(),
        ));
    } else {
        lemma_ps_escaped_body_front(items.drop_last());
        assert(items.drop_last()[0] == items[0]);
        assert(items.drop_last().drop_first() =~= items.drop_first().drop_last());
        assert(items.drop_first().last() == items.last());
        assert(ps_escaped_body(items) =~= ps_escape_item(items[0]) + ps_escaped_body(
            items.drop_first(),
        ));
    }
}

/// One escaped character reads back as that character, whatever follows.
proof fn lemma_ps_esc_item(c: char, tail: Seq<char>, tv: Seq<char>)
    requires
        ps_esc_in(tail) == Some(tv),
        tail.len() > 0,
    ensures
        ps_esc_in(ps_escape_char(c) + tail) == Some(seq![c] + tv),
{
    broadcast use vstd::utf8::char_u32_cast, vstd::utf8::char_is_scalar;

    let rem = ps_escape_char(c) + tail;
    let u = c as u32;
    if u == 0x00 || u == 0x0D || u == 0x0A || u == 0x09 || u == 0x07 || u == 0x08 || u == 0x0B
        || u == 0x0C {
        assert(rem.len() == 2 + tail.len());
        assert(rem[0] == '`');
        assert(rem.skip(2) =~= tail);
        assert(rem[1] == ps_escape_char(c)[1]);
    } else if char_requires_escape(c) || char_is_bidi(c) {
        lemma_hex_val_of_seq(u as nat, 2);
        let ds = hex_seq(u as nat, 2);
        assert(rem =~= seq!['`', 'u', '{'] + ds + seq!['}'] + tail);
        assert(rem[0] == '`');
        assert(rem[1] == 'u');
        assert(rem[2] == '{');
        let after = rem.skip(3);
        assert(after =~= ds + seq!['}'] + tail);
        crate::unix::lemma_find_index_of(after, '}');
        let k = crate::unix::find_index_of(after, '}') as int;
        assert(after[ds.len() as int] == '}');
        if k < ds.len() {
            assert(after[k] == ds[k]);
            assert(false);
        }
        if k > ds.len() {
            assert(after[ds.len() as int] != '}');
            assert(false);
        }
        assert(k == ds.len());
        assert(after.take(k) =~= ds);
        assert(k >= 1);
        assert(k < after.len());
        assert(forall|j: int| 0 <= j < k ==> crate::unix::char_is_hex_digit(after.take(k)[j]));
        assert(hex_val(after.take(k)) == u);
        assert(0 <= u < 0xD800 || 0xE000 <= u <= 0x10FFFF);
        assert(4 + k <= rem.len());
        assert(rem.skip(4 + k) =~= tail);
        assert(((u as u32) as char) == c);
    } else if c == '`' || c == '$' || char_is_double_quote(c) {
        assert(rem.len() == 2 + tail.len());
        assert(rem[0] == '`');
        assert(rem[1] == ps_escape_char(c)[1]);
        assert(rem[1] == c);
        assert(rem.skip(2) =~= tail);
        assert(!(rem[1] == '0' || rem[1] == 'r' || rem[1] == 'n' || rem[1] == 't' || rem[1] == 'a'
            || rem[1] == 'b' || rem[1] == 'v' || rem[1] == 'f' || rem[1] == 'u'));
    } else {
        assert(rem =~= seq![c] + tail);
        assert(rem[0] == c);
        assert(!char_is_double_quote(c));
        assert(c != '`' && c != '$');
        assert(rem.drop_first() =~= tail);
    }
}

/// The whole escaped body, closed by the final double quote, reads back
/// as the item characters.
proof fn lemma_ps_esc_items(items: Seq<UnitItem>)
    requires
        forall|j: int| 0 <= j < items.len() ==> items[j] is Scalar,
    ensures
        ps_esc_in(ps_escaped_body(items) + seq!['"']) == Some(
            crate::decode::unit_items_chars(items),
        ),
    decreases items.len(),
{
    let rem = ps_escaped_body(items) + seq!['"'];
    if items.len() == 0 {
        assert(rem =~= seq!['"']);
        assert(rem[0] == '"');
        assert(crate::decode::unit_items_chars(items) =~= Seq::<char>::empty());
    } else {
        lemma_ps_escaped_body_front(items);
        assert(forall|j: int|
            0 <= j < items.drop_first().len() ==> items.drop_first()[j] == items[j + 1]);
        lemma_ps_esc_items(items.drop_first());
        let tail = ps_escaped_body(items.drop_first()) + seq!['"'];
        let c = crate::decode::unit_item_char(items[0]);
        assert(items[0] == UnitItem::Scalar(c));
        assert(ps_escape_item(items[0]) == ps_escape_char(c));
        lemma_ps_esc_item(c, tail, crate::decode::unit_items_chars(items.drop_first()));
        assert(rem =~= ps_escape_char(c) + tail);
        assert(seq![c] + crate::decode::unit_items_chars(items.drop_first())
            =~= crate::decode::unit_items_chars(items));
    }
}

/// Round-trip safety for the escaped-literal form over decoded scalars:
/// reading the double-quoted backtick-escaped argument back yields the
/// characters exactly.
pub proof fn lemma_ps_escaped_round_trip(items: Seq<UnitItem>)
    requires
        forall|j: int| 0 <= j < items.len() ==> items[j] is Scalar,
    ensures
        ps_esc_token(ps_escaped(items)) == Some(crate::decode::unit_items_chars(items)),
{
    lemma_ps_esc_items(items);
    let out = ps_escaped(items);
    assert(out[0] == '"');
    assert(out.drop_first() =~= ps_escaped_body(items) + seq!['"']);
}

/// When quoting is not forced and no rule flags any character of the text
/// — nothing needs escaping and nothing requires quoting — the encoding
/// is the text unchanged.
pub proof fn lemma_bare_output_identity(s: Seq<char>)
    requires
        !ps_needs_escape(s),
        !ps_requires_quote(s, false),
    ensures
        ps_write(s, false) == s,
{
}

/// The empty string is always quoted, even when quoting is not forced:
/// it encodes as a bare pair of single quotes.
pub proof fn lemma_empty_always_quoted(force: bool)
    ensures
        ps_write(Seq::<char>::empty(), force) == seq!['\'', '\''],
{
    let s = Seq::<char>::empty();
    assert(!ps_needs_escape(s));
    assert(ps_single_safe(s));
    assert(quoted_with(s, '\'') =~= seq!['\'', '\'']);
}

/// A text holding any control character is encoded in the double-quoted
/// backtick-escaped form, whatever the quoting mode.
pub proof fn lemma_control_forces_escaped(s: Seq<char>, i: int, force: bool)
    requires
        0 <= i < s.len(),
        char_requires_escape(s[i]),
    ensures
        ps_write(s, force) == ps_escaped(chars_units(s)),
{
    assert(ps_needs_escape(s));
}

/// A text whose directional-formatting characters are suspicious — an
/// unterminated or improperly nested scope — is encoded in the
/// double-quoted backtick-escaped form, whatever the quoting mode.
pub proof fn lemma_suspicious_bidi_escaped(s: Seq<char>, force: bool)
    requires
        suspicious_bidi(s),
    ensures
        ps_write(s, force) == ps_escaped(chars_units(s)),
{
    if !(exists|j: int| 0 <= j < s.len() && char_is_bidi(s[j])) {
        assert(forall|j: int| 0 <= j < s.len() ==> !char_is_bidi(s[j]));
        crate::classify::lemma_no_bidi_state(s);
    }
    assert(ps_needs_escape(s));
}

/// Every digit-led word — and every word of a dot followed by a digit —
/// is quoted even when quoting is not forced and nothing else in it is
/// special: the output is never the bare text, which a PowerShell parser
/// could read as a number.
pub proof fn lemma_leading_digit_quoted(s: Seq<char>, force: bool)
    requires
        s.len() > 0,
        char_is_ascii_digit(s[0]) || (s[0] == '.' && s.len() > 1 && char_is_ascii_digit(s[1])),
        !ps_needs_escape(s),
    ensures
        ps_requires_quote(s, force),
        ps_write(s, force) != s,
{
    lemma_doubled_body_len(s);
    assert(ps_first_forces(s));
    assert(ps_write(s, force).len() > s.len());
}

/// The quote-doubling body is never shorter than the text it encodes.
pub proof fn lemma_doubled_body_len(s: Seq<char>)
    ensures
        ps_doubled_body(s).len() >= s.len(),
    decreases s.len(),
{
    if s.len() > 0 {
        lemma_doubled_body_len(s.drop_last());
    }
}

} // verus!
