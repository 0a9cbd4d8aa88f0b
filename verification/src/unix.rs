//! The POSIX (bash/ksh) encoder: single quoting by default, double quoting
//! when the content embeds a quote but nothing a double-quoted string
//! expands, run concatenation with `\'` for everything else quotable, and
//! the ANSI-C `$'...'` escaped form as the fallback.

use vstd::prelude::*;
use vstd::utf8::{
    decode_first_codepoint, decode_first_scalar, encode_scalar, length_of_first_codepoint,
    pop_first_scalar, take_first_scalar, valid_first_scalar, valid_utf8,
};
use crate::classify::{
    char_is_bidi, char_is_zero_width, char_requires_escape, is_bidi, is_suspicious_bidi,
    is_zero_width, requires_escape, suspicious_bidi,
};
use crate::decode::{scalar_bytes, utf8_items, ByteItem};
use crate::hex::{hex_digit, hex_seq, push_hex};

verus! {

/// ASCII characters with a special meaning to the shell anywhere in a bare
/// word: metacharacters, expansion introducers, quotes, globs, the
/// backslash, history expansion, assignment and brace characters.
pub open spec fn ux_special(c: char) -> bool {
    c == '|' || c == '&' || c == ';' || c == '<' || c == '>' || c == '(' || c == ')' || c == '$'
        || c == '`' || c == '"' || c == '\'' || c == '*' || c == '?' || c == '[' || c == ']' || c
        == '=' || c == '\\' || c == '!' || c == '{' || c == '}' || c == ' '
}

fn is_special(c: char) -> (r: bool)
    ensures
        r == ux_special(c),
{
    c == '|' || c == '&' || c == ';' || c == '<' || c == '>' || c == '(' || c == ')' || c == '$'
        || c == '`' || c == '"' || c == '\'' || c == '*' || c == '?' || c == '[' || c == ']' || c
        == '=' || c == '\\' || c == '!' || c == '{' || c == '}' || c == ' '
}

/// Characters special only at the start of a word: tilde expansion and the
/// comment character.
pub open spec fn ux_start_special(c: char) -> bool {
    c == '~' || c == '#'
}

fn is_start_special(c: char) -> (r: bool)
    ensures
        r == ux_start_special(c),
{
    c == '~' || c == '#'
}

/// Non-ASCII whitespace, every code point with the White_Space property.
pub open spec fn char_is_unicode_space(c: char) -> bool {
    let u = c as u32;
    u == 0x85 || u == 0xA0 || u == 0x1680 || (0x2000 <= u && u <= 0x200A) || u == 0x2028 || u
        == 0x2029 || u == 0x202F || u == 0x205F || u == 0x3000
}

fn is_unicode_space(c: char) -> (r: bool)
    ensures
        r == char_is_unicode_space(c),
{
    let u = c as u32;
    u == 0x85 || u == 0xA0 || u == 0x1680 || (0x2000 <= u && u <= 0x200A) || u == 0x2028 || u
        == 0x2029 || u == 0x202F || u == 0x205F || u == 0x3000
}

/// A character that escalates "quoting required" during the scan.
pub open spec fn ux_scan_special(c: char) -> bool {
    if (c as u32) < 0x80 {
        ux_special(c)
    } else {
        char_is_unicode_space(c)
    }
}

fn is_scan_special(c: char) -> (r: bool)
    ensures
        r == ux_scan_special(c),
{
    if (c as u32) < 0x80 {
        is_special(c)
    } else {
        is_unicode_space(c)
    }
}

/// A character that is unsafe between double quotes: the expansion
/// introducers, the backslash, the closing quote, and history expansion.
pub open spec fn ux_double_unsafe(c: char) -> bool {
    c == '"' || c == '`' || c == '$' || c == '\\' || c == '!'
}

fn is_double_unsafe(c: char) -> (r: bool)
    ensures
        r == ux_double_unsafe(c),
{
    c == '"' || c == '`' || c == '$' || c == '\\' || c == '!'
}

/// The first character alone forces quoting: one that is special at the
/// start of a word, or one that shows nothing when printed.
pub open spec fn ux_first_forces(s: Seq<char>) -> bool {
    s.len() > 0 && (ux_start_special(s[0]) || char_is_zero_width(s[0]))
}

pub open spec fn ux_requires_quote(s: Seq<char>, force: bool) -> bool {
    force || s.len() == 0 || ux_first_forces(s) || exists|j: int|
        0 <= j < s.len() && ux_scan_special(s[j])
}

pub open spec fn ux_single_safe(s: Seq<char>) -> bool {
    forall|j: int| 0 <= j < s.len() ==> s[j] != '\''
}

pub open spec fn ux_double_safe(s: Seq<char>) -> bool {
    forall|j: int| 0 <= j < s.len() ==> !ux_double_unsafe(s[j])
}

/// Simple quoting cannot represent the text: it holds a control
/// character, or its directional controls are suspicious.
pub open spec fn ux_needs_escape(s: Seq<char>) -> bool {
    (exists|j: int| 0 <= j < s.len() && char_requires_escape(s[j])) || ((exists|j: int|
        0 <= j < s.len() && char_is_bidi(s[j])) && suspicious_bidi(s))
}

/// Each byte of an escaped run, as a `\xHH` escape.
pub open spec fn hex_escaped_bytes(bs: Seq<u8>) -> Seq<char>
    decreases bs.len(),
{
    if bs.len() == 0 {
        seq![]
    } else {
        hex_escaped_bytes(bs.drop_last()) + seq!['\\', 'x'] + hex_seq(bs.last() as nat, 2)
    }
}

/// The emission for one character inside `$'...'`: a named backslash
/// escape where the shell has one, `\xHH` byte escapes for other controls
/// and for formatting characters, the character itself otherwise.
pub open spec fn ux_escape_char(c: char) -> Seq<char> {
    if c == '\n' {
        seq!['\\', 'n']
    } else if c == '\t' {
        seq!['\\', 't']
    } else if c == '\r' {
        seq!['\\', 'r']
    } else if c == '\\' {
        seq!['\\', '\\']
    } else if c == '\'' {
        seq!['\\', '\'']
    } else if char_requires_escape(c) || char_is_bidi(c) {
        hex_escaped_bytes(encode_scalar(c as u32))
    } else {
        seq![c]
    }
}

/// The emission for one decoded item: a character's escape, or the byte
/// escape for a byte that decodes to nothing.
pub open spec fn ux_escape_item(it: ByteItem) -> Seq<char> {
    match it {
        ByteItem::Scalar(c) => ux_escape_char(c),
        ByteItem::Invalid(b) => seq!['\\', 'x'] + hex_seq(b as nat, 2),
    }
}

/// The item's emission ends in a `\xHH` escape, whose hex-digit run some
/// shells would extend into a following literal hex digit.
pub open spec fn ux_item_hex_tail(it: ByteItem) -> bool {
    match it {
        ByteItem::Scalar(c) => (char_requires_escape(c) || char_is_bidi(c)) && c != '\n' && c
            != '\t' && c != '\r',
        ByteItem::Invalid(_) => true,
    }
}

pub open spec fn char_is_hex_digit(c: char) -> bool {
    let u = c as u32;
    (0x30 <= u && u <= 0x39) || (0x41 <= u && u <= 0x46) || (0x61 <= u && u <= 0x66)
}

/// The item is emitted verbatim as a literal hexadecimal digit.
pub open spec fn ux_item_literal_hex(it: ByteItem) -> bool {
    match it {
        ByteItem::Scalar(c) => char_is_hex_digit(c),
        ByteItem::Invalid(_) => false,
    }
}

/// The body of the escaped form: each item's emission, with the group
/// closed and reopened (`'$'`) wherever a byte escape would otherwise be
/// followed by a literal hex digit that the shell could absorb into it.
pub open spec fn ux_escaped_body(items: Seq<ByteItem>) -> Seq<char>
    decreases items.len(),
{
    if items.len() == 0 {
        seq![]
    } else {
        ux_escaped_body(items.drop_last()) + (if items.len() >= 2 && ux_item_hex_tail(
            items[items.len() - 2],
        ) && ux_item_literal_hex(items.last()) {
            seq!['\'', '$', '\'']
        } else {
            seq![]
        }) + ux_escape_item(items.last())
    }
}

/// The ANSI-C-quoted form: `$'...'`, split into adjacent groups at
/// hex-digit ambiguities.
pub open spec fn ux_escaped(items: Seq<ByteItem>) -> Seq<char> {
    seq!['$', '\''] + ux_escaped_body(items) + seq!['\'']
}

/// One piece of the run-concatenation form: a quote becomes `\'` outside
/// any quoting; any other character is copied, opening a single-quoted run
/// after the start or a quote, and closing it before the end or a quote.
pub open spec fn ux_concat_piece(s: Seq<char>, i: int) -> Seq<char>
    recommends
        0 <= i < s.len(),
{
    if s[i] == '\'' {
        seq!['\\', '\'']
    } else {
        (if i == 0 || s[i - 1] == '\'' {
            seq!['\'']
        } else {
            seq![]
        }) + seq![s[i]] + (if i == s.len() - 1 || s[i + 1] == '\'' {
            seq!['\'']
        } else {
            seq![]
        })
    }
}

pub open spec fn ux_concat_prefix(s: Seq<char>, n: int) -> Seq<char>
    decreases n,
{
    if n <= 0 {
        seq![]
    } else {
        ux_concat_prefix(s, n - 1) + ux_concat_piece(s, n - 1)
    }
}

/// The run-concatenation form: the content partitioned at embedded
/// quotes, each nonempty run single-quoted, each quote emitted as `\'`,
/// with empty leading and trailing runs elided.
pub open spec fn ux_single_escaped(s: Seq<char>) -> Seq<char> {
    ux_concat_prefix(s, s.len() as int)
}

pub open spec fn quoted_with(s: Seq<char>, q: char) -> Seq<char> {
    seq![q] + s + seq![q]
}

pub open spec fn chars_bytes_items(s: Seq<char>) -> Seq<ByteItem>
    decreases s.len(),
{
    if s.len() == 0 {
        seq![]
    } else {
        chars_bytes_items(s.drop_last()).push(ByteItem::Scalar(s.last()))
    }
}

/// The full POSIX encoding of valid text: the `$'...'` form when simple
/// quoting cannot represent it; otherwise the text bare, or
/// single-quoted, or double-quoted, or as concatenated runs — whichever
/// is safe first.
pub open spec fn ux_write(s: Seq<char>, force: bool) -> Seq<char> {
    if ux_needs_escape(s) {
        ux_escaped(chars_bytes_items(s))
    } else if !ux_requires_quote(s, force) {
        s
    } else if ux_single_safe(s) {
        quoted_with(s, '\'')
    } else if ux_double_safe(s) {
        quoted_with(s, '"')
    } else {
        ux_single_escaped(s)
    }
}

fn is_hex_digit(c: char) -> (r: bool)
    ensures
        r == char_is_hex_digit(c),
{
    let u = c as u32;
    (0x30 <= u && u <= 0x39) || (0x41 <= u && u <= 0x46) || (0x61 <= u && u <= 0x66)
}

fn is_item_hex_tail(it: &ByteItem) -> (r: bool)
    ensures
        r == ux_item_hex_tail(*it),
{
    match it {
        ByteItem::Scalar(c) => (requires_escape(*c) || is_bidi(*c)) && *c != '\n' && *c != '\t'
            && *c != '\r',
        ByteItem::Invalid(_) => true,
    }
}

fn is_item_literal_hex(it: &ByteItem) -> (r: bool)
    ensures
        r == ux_item_literal_hex(*it),
{
    match it {
        ByteItem::Scalar(c) => is_hex_digit(*c),
        ByteItem::Invalid(_) => false,
    }
}

/// Appends the `$'...'` emission for one character.
fn push_ux_escape_char(out: &mut Vec<char>, c: char)
    ensures
        final(out)@ == old(out)@ + ux_escape_char(c),
{
    if c == '\n' {
        out.push('\\');
        out.push('n');
    } else if c == '\t' {
        out.push('\\');
        out.push('t');
    } else if c == '\r' {
        out.push('\\');
        out.push('r');
    } else if c == '\\' {
        out.push('\\');
        out.push('\\');
    } else if c == '\'' {
        out.push('\\');
        out.push('\'');
    } else if requires_escape(c) || is_bidi(c) {
        proof {
            vstd::utf8::char_is_scalar(c);
        }
        let bs = scalar_bytes(c as u32);
        let m = bs.len();
        let mut k: usize = 0;
        while k < m
            invariant
                m == bs@.len(),
                k <= m,
                out@ == old(out)@ + hex_escaped_bytes(bs@.take(k as int)),
            decreases m - k,
        {
            out.push('\\');
            out.push('x');
            push_hex(out, bs[k] as u32, 2);
            proof {
                assert(bs@.take(k as int + 1).drop_last() =~= bs@.take(k as int));
                assert(bs@.take(k as int + 1).last() == bs@[k as int]);
                assert(out@ =~= old(out)@ + hex_escaped_bytes(bs@.take(k as int + 1)));
            }
            k = k + 1;
        }
        proof {
            assert(bs@.take(m as int) =~= bs@);
        }
    } else {
        out.push(c);
    }
    assert(out@ =~= old(out)@ + ux_escape_char(c));
}

/// The ANSI-C-quoted escaped form over decoded items.
pub fn write_escaped_items(items: &Vec<ByteItem>) -> (r: Vec<char>)
    ensures
        r@ == ux_escaped(items@),
{
    let n = items.len();
    let mut out: Vec<char> = Vec::new();
    out.push('$');
    out.push('\'');
    let mut prev_hex = false;
    let mut i: usize = 0;
    while i < n
        invariant
            n == items@.len(),
            i <= n,
            out@ == seq!['$', '\''] + ux_escaped_body(items@.take(i as int)),
            prev_hex == (i > 0 && ux_item_hex_tail(items@[i as int - 1])),
        decreases n - i,
    {
        let it = items[i];
        if prev_hex && is_item_literal_hex(&it) {
            out.push('\'');
            out.push('$');
            out.push('\'');
        }
        match it {
            ByteItem::Scalar(c) => {
                push_ux_escape_char(&mut out, c);
            },
            ByteItem::Invalid(b) => {
                out.push('\\');
                out.push('x');
                push_hex(&mut out, b as u32, 2);
            },
        }
        prev_hex = is_item_hex_tail(&it);
        proof {
            assert(items@.take(i as int + 1).drop_last() =~= items@.take(i as int));
            assert(items@.take(i as int + 1).last() == items@[i as int]);
            assert(out@ =~= seq!['$', '\''] + ux_escaped_body(items@.take(i as int + 1)));
        }
        i = i + 1;
    }
    out.push('\'');
    proof {
        assert(items@.take(n as int) =~= items@);
        assert(out@ =~= ux_escaped(items@));
    }
    out
}

/// Wraps each character of valid text as a decoded item.
pub fn chars_to_items(text: &Vec<char>) -> (r: Vec<ByteItem>)
    ensures
        r@ == chars_bytes_items(text@),
{
    let n = text.len();
    let mut out: Vec<ByteItem> = Vec::new();
    let mut i: usize = 0;
    proof {
        assert(out@ =~= chars_bytes_items(text@.take(0)));
    }
    while i < n
        invariant
            n == text@.len(),
            i <= n,
            out@ == chars_bytes_items(text@.take(i as int)),
        decreases n - i,
    {
        let it = crate::decode::mk_scalar_item(text[i]);
        out.push(it);
        proof {
            assert(text@.take(i as int + 1).drop_last() =~= text@.take(i as int));
            assert(text@.take(i as int + 1).last() == text@[i as int]);
            assert(out@ =~= chars_bytes_items(text@.take(i as int + 1)));
        }
        i = i + 1;
    }
    proof {
        assert(text@.take(n as int) =~= text@);
    }
    out
}

/// Wraps the text in the given quote character, content copied verbatim.
pub fn write_simple(text: &Vec<char>, quote: char) -> (r: Vec<char>)
    ensures
        r@ == quoted_with(text@, quote),
{
    let n = text.len();
    let mut out: Vec<char> = Vec::new();
    out.push(quote);
    let mut i: usize = 0;
    while i < n
        invariant
            n == text@.len(),
            i <= n,
            out@ == seq![quote] + text@.take(i as int),
        decreases n - i,
    {
        out.push(text[i]);
        assert(out@ =~= seq![quote] + text@.take(i as int + 1));
        i = i + 1;
    }
    out.push(quote);
    assert(text@.take(n as int) =~= text@);
    assert(out@ =~= quoted_with(text@, quote));
    out
}

/// The run-concatenation form, `'...'\''...'` with empty runs elided.
pub fn write_single_escaped(text: &Vec<char>) -> (r: Vec<char>)
    ensures
        r@ == ux_single_escaped(text@),
{
    let n = text.len();
    let mut out: Vec<char> = Vec::new();
    let mut i: usize = 0;
    while i < n
        invariant
            n == text@.len(),
            i <= n,
            out@ == ux_concat_prefix(text@, i as int),
        decreases n - i,
    {
        let c = text[i];
        if c == '\'' {
            out.push('\\');
            out.push('\'');
        } else {
            if i == 0 || text[i - 1] == '\'' {
                out.push('\'');
            }
            out.push(c);
            if i == n - 1 || text[i + 1] == '\'' {
                out.push('\'');
            }
        }
        assert(out@ =~= ux_concat_prefix(text@, i as int + 1));
        i = i + 1;
    }
    out
}

/// Encodes valid text in bash/ksh syntax: classifies every character in
/// one scan, then emits the bare, simply quoted, run-concatenated or
/// ANSI-C-quoted form.
pub fn write(text: &Vec<char>, force_quote: bool) -> (r: Vec<char>)
    ensures
        r@ == ux_write(text@, force_quote),
{
    let n = text.len();
    let mut requires_quote = force_quote;
    if !requires_quote {
        if n == 0 {
            requires_quote = true;
        } else {
            let first = text[0];
            if is_start_special(first) {
                requires_quote = true;
            }
            if !requires_quote && is_zero_width(first) {
                requires_quote = true;
            }
        }
    }
    let ghost seed = force_quote || text@.len() == 0 || ux_first_forces(text@);
    assert(requires_quote == seed);
    let mut single_safe = true;
    let mut double_safe = true;
    let mut bidi = false;
    let mut i: usize = 0;
    while i < n
        invariant
            n == text@.len(),
            i <= n,
            seed == (force_quote || text@.len() == 0 || ux_first_forces(text@)),
            single_safe <==> (forall|j: int| 0 <= j < i ==> text@[j] != '\''),
            double_safe <==> (forall|j: int| 0 <= j < i ==> !ux_double_unsafe(text@[j])),
            bidi <==> (exists|j: int| 0 <= j < i && char_is_bidi(text@[j])),
            requires_quote == (seed || exists|j: int| 0 <= j < i && ux_scan_special(text@[j])),
            forall|j: int| 0 <= j < i ==> !char_requires_escape(text@[j]),
        decreases n - i,
    {
        let c = text[i];
        if requires_escape(c) {
            let items = chars_to_items(text);
            let out = write_escaped_items(&items);
            assert(ux_needs_escape(text@));
            return out;
        }
        if c == '\'' {
            single_safe = false;
        }
        if is_double_unsafe(c) {
            double_safe = false;
        }
        if is_scan_special(c) {
            requires_quote = true;
        }
        if is_bidi(c) {
            bidi = true;
        }
        i = i + 1;
    }
    if bidi && is_suspicious_bidi(text) {
        let items = chars_to_items(text);
        let out = write_escaped_items(&items);
        assert(ux_needs_escape(text@));
        return out;
    }
    assert(!ux_needs_escape(text@));
    assert(requires_quote == ux_requires_quote(text@, force_quote));
    if !requires_quote {
        let n2 = text.len();
        let mut out: Vec<char> = Vec::new();
        let mut k: usize = 0;
        while k < n2
            invariant
                n2 == text@.len(),
                k <= n2,
                out@ == text@.take(k as int),
            decreases n2 - k,
        {
            out.push(text[k]);
            assert(out@ =~= text@.take(k as int + 1));
            k = k + 1;
        }
        assert(out@ =~= text@);
        out
    } else if single_safe {
        write_simple(text, '\'')
    } else if double_safe {
        write_simple(text, '"')
    } else {
        write_single_escaped(text)
    }
}

/// The index of the first occurrence of `q`, or the length when `q` does
/// not occur.
pub open spec fn find_index_of(s: Seq<char>, q: char) -> nat
    decreases s.len(),
{
    if s.len() == 0 {
        0
    } else if s[0] == q {
        0
    } else {
        1 + find_index_of(s.drop_first(), q)
    }
}

pub proof fn lemma_find_index_of(s: Seq<char>, q: char)
    ensures
        find_index_of(s, q) <= s.len(),
        find_index_of(s, q) < s.len() ==> s[find_index_of(s, q) as int] == q,
        forall|j: int| 0 <= j < find_index_of(s, q) ==> s[j] != q,
    decreases s.len(),
{
    if s.len() > 0 && s[0] != q {
        lemma_find_index_of(s.drop_first(), q);
        let k = find_index_of(s, q);
        assert(k == 1 + find_index_of(s.drop_first(), q));
        assert forall|j: int| 0 <= j < k implies s[j] != q by {
            if j > 0 {
                assert(s.drop_first()[j - 1] == s[j]);
                assert(j - 1 < find_index_of(s.drop_first(), q));
            }
        }
        if k < s.len() {
            assert(s.drop_first()[k - 1] == s[k as int]);
        }
    }
}

/// A model of how a POSIX shell reads one word, left to right: a
/// single-quoted span is copied to the closing quote; a double-quoted
/// span is copied when it holds nothing the shell would expand inside
/// double quotes; a backslash makes the next character literal; a plain
/// character outside quotes is copied when it is neither special to the
/// shell nor a control character. Anything else — an unterminated quote,
/// an expansion, a metacharacter — falls outside the model and yields no
/// value.
pub open spec fn posix_token(rem: Seq<char>) -> Option<Seq<char>>
    decreases rem.len(),
{
    if rem.len() == 0 {
        Some(seq![])
    } else if rem[0] == '\'' {
        let rest = rem.drop_first();
        let k = find_index_of(rest, '\'');
        if k == rest.len() {
            None
        } else {
            let adv = if k + 1 <= rest.len() {
                k + 1
            } else {
                rest.len()
            };
            match posix_token(rest.skip(adv as int)) {
                Some(t) => Some(rest.take(k as int) + t),
                None => None,
            }
        }
    } else if rem[0] == '"' {
        let rest = rem.drop_first();
        let k = find_index_of(rest, '"');
        if k == rest.len() {
            None
        } else if exists|j: int| 0 <= j < k && ux_double_unsafe(rest[j]) {
            None
        } else {
            let adv = if k + 1 <= rest.len() {
                k + 1
            } else {
                rest.len()
            };
            match posix_token(rest.skip(adv as int)) {
                Some(t) => Some(rest.take(k as int) + t),
                None => None,
            }
        }
    } else if rem[0] == '\\' {
        if rem.len() >= 2 {
            match posix_token(rem.skip(2)) {
                Some(t) => Some(seq![rem[1]] + t),
                None => None,
            }
        } else {
            None
        }
    } else if (rem[0] as u32) < 0x80 && ux_special(rem[0]) {
        None
    } else if char_requires_escape(rem[0]) {
        None
    } else {
        match posix_token(rem.drop_first()) {
            Some(t) => Some(seq![rem[0]] + t),
            None => None,
        }
    }
}

/// A word of nothing but plain characters reads back as itself.
proof fn lemma_token_literal(s: Seq<char>)
    requires
        forall|j: int| 0 <= j < s.len() ==> !((s[j] as u32) < 0x80 && ux_special(s[j])),
        forall|j: int| 0 <= j < s.len() ==> !char_requires_escape(s[j]),
    ensures
        posix_token(s) == Some(s),
    decreases s.len(),
{
    if s.len() > 0 {
        assert(forall|j: int| 0 <= j < s.drop_first().len() ==> s.drop_first()[j] == s[j + 1]);
        lemma_token_literal(s.drop_first());
        assert(seq![s[0]] + s.drop_first() =~= s);
    }
}

/// A single-quoted span whose content holds no quote reads back as the
/// content.
proof fn lemma_token_single_quoted(s: Seq<char>)
    requires
        forall|j: int| 0 <= j < s.len() ==> s[j] != '\'',
    ensures
        posix_token(quoted_with(s, '\'')) == Some(s),
{
    reveal_with_fuel(posix_token, 3);
    let out = quoted_with(s, '\'');
    let rest = s + seq!['\''];
    assert(out[0] == '\'');
    assert(out.drop_first() =~= rest);
    lemma_find_index_of(rest, '\'');
    let k = find_index_of(rest, '\'');
    assert(rest[s.len() as int] == '\'');
    if k < s.len() {
        assert(rest[k as int] == s[k as int]);
        assert(false);
    }
    if k > s.len() {
        assert(rest[s.len() as int] != '\'');
        assert(false);
    }
    assert(k == s.len());
    assert(rest.skip(k as int + 1) =~= Seq::<char>::empty());
    assert(rest.take(k as int) + Seq::<char>::empty() =~= s);
}

/// A double-quoted span whose content holds nothing the shell expands
/// inside double quotes reads back as the content.
proof fn lemma_token_double_quoted(s: Seq<char>)
    requires
        forall|j: int| 0 <= j < s.len() ==> !ux_double_unsafe(s[j]),
    ensures
        posix_token(quoted_with(s, '"')) == Some(s),
{
    reveal_with_fuel(posix_token, 3);
    let out = quoted_with(s, '"');
    let rest = s + seq!['"'];
    assert(out[0] == '"');
    assert(out.drop_first() =~= rest);
    lemma_find_index_of(rest, '"');
    let k = find_index_of(rest, '"');
    assert(rest[s.len() as int] == '"');
    if k < s.len() {
        assert(rest[k as int] == s[k as int]);
        assert(false);
    }
    if k > s.len() {
        assert(rest[s.len() as int] != '"');
        assert(false);
    }
    assert(k == s.len());
    assert(forall|j: int| 0 <= j < k ==> rest[j] == s[j]);
    assert(rest.skip(k as int + 1) =~= Seq::<char>::empty());
    assert(rest.take(k as int) + Seq::<char>::empty() =~= s);
}

/// In the run-concatenation form, a leading quote contributes `\'` and
/// the rest of the text encodes as it would on its own.
proof fn lemma_concat_shift_quote(s: Seq<char>, n: int)
    requires
        s.len() > 0,
        s[0] == '\'',
        1 <= n <= s.len(),
    ensures
        ux_concat_prefix(s, n) == seq!['\\', '\''] + ux_concat_prefix(s.drop_first(), n - 1),
    decreases n,
{
    reveal_with_fuel(ux_concat_prefix, 2);
    if n == 1 {
        assert(ux_concat_piece(s, 0) =~= seq!['\\', '\'']);
        assert(ux_concat_prefix(s, 1) =~= seq!['\\', '\''] + ux_concat_prefix(s.drop_first(), 0));
    } else {
        lemma_concat_shift_quote(s, n - 1);
        assert(ux_concat_piece(s, n - 1) =~= ux_concat_piece(s.drop_first(), n - 2));
        assert(ux_concat_prefix(s, n) =~= seq!['\\', '\''] + ux_concat_prefix(
            s.drop_first(),
            n - 1,
        ));
    }
}

/// In the run-concatenation form, a quote-free run at the front encodes
/// as one single-quoted span, closed exactly where the run ends.
proof fn lemma_concat_prefix_run(s: Seq<char>, m: int, n: int)
    requires
        0 < m <= s.len(),
        forall|j: int| 0 <= j < m ==> s[j] != '\'',
        m < s.len() ==> s[m] == '\'',
        1 <= n <= m,
    ensures
        ux_concat_prefix(s, n) == seq!['\''] + s.take(n) + (if n == m {
            seq!['\'']
        } else {
            seq![]
        }),
    decreases n,
{
    reveal_with_fuel(ux_concat_prefix, 2);
    if n == 1 {
        assert(ux_concat_prefix(s, 1) =~= seq!['\''] + s.take(1) + (if 1 == m {
            seq!['\'']
        } else {
            seq![]
        }));
    } else {
        lemma_concat_prefix_run(s, m, n - 1);
        assert(ux_concat_prefix(s, n) =~= seq!['\''] + s.take(n) + (if n == m {
            seq!['\'']
        } else {
            seq![]
        }));
    }
}

/// In the run-concatenation form, the text splits at its first quote: the
/// leading run as one single-quoted span, then the encoding of the rest.
proof fn lemma_concat_prefix_split(s: Seq<char>, m: int, n: int)
    requires
        0 < m <= s.len(),
        forall|j: int| 0 <= j < m ==> s[j] != '\'',
        m < s.len() ==> s[m] == '\'',
        m <= n <= s.len(),
    ensures
        ux_concat_prefix(s, n) == seq!['\''] + s.take(m) + seq!['\''] + ux_concat_prefix(
            s.skip(m),
            n - m,
        ),
    decreases n,
{
    if n == m {
        lemma_concat_prefix_run(s, m, n);
        assert(ux_concat_prefix(s, n) =~= seq!['\''] + s.take(m) + seq!['\''] + ux_concat_prefix(
            s.skip(m),
            0,
        ));
    } else {
        lemma_concat_prefix_split(s, m, n - 1);
        assert(ux_concat_piece(s, n - 1) =~= ux_concat_piece(s.skip(m), n - 1 - m));
        assert(ux_concat_prefix(s, n) =~= seq!['\''] + s.take(m) + seq!['\''] + ux_concat_prefix(
            s.skip(m),
            n - m,
        ));
    }
}

/// The run-concatenation form of any text reads back as the text.
proof fn lemma_token_concat(s: Seq<char>)
    ensures
        posix_token(ux_single_escaped(s)) == Some(s),
    decreases s.len(),
{
    reveal_with_fuel(posix_token, 3);
    let out = ux_single_escaped(s);
    if s.len() == 0 {
        assert(out =~= Seq::<char>::empty());
    } else if s[0] == '\'' {
        lemma_concat_shift_quote(s, s.len() as int);
        let tail = ux_single_escaped(s.drop_first());
        assert(out == seq!['\\', '\''] + tail);
        lemma_token_concat(s.drop_first());
        assert(out[0] == '\\');
        assert(out.len() >= 2);
        assert(out[1] == '\'');
        assert(out.skip(2) =~= tail);
        assert(seq![out[1]] + s.drop_first() =~= s);
    } else {
        lemma_find_index_of(s, '\'');
        let m = find_index_of(s, '\'') as int;
        assert(0 < m <= s.len());
        lemma_concat_prefix_split(s, m, s.len() as int);
        let tail = ux_concat_prefix(s.skip(m), s.len() - m);
        assert(s.skip(m).len() == s.len() - m);
        assert(tail == ux_single_escaped(s.skip(m)));
        assert(out == seq!['\''] + s.take(m) + seq!['\''] + tail);
        assert(out[0] == '\'');
        let rest = out.drop_first();
        assert(rest =~= s.take(m) + seq!['\''] + tail);
        lemma_find_index_of(rest, '\'');
        let k = find_index_of(rest, '\'') as int;
        assert(rest[m] == '\'');
        if k < m {
            assert(rest[k] == s.take(m)[k]);
            assert(s[k] != '\'');
            assert(false);
        }
        if k > m {
            assert(rest[m] != '\'');
            assert(false);
        }
        assert(k == m);
        assert(rest.skip(m + 1) =~= tail);
        assert(rest.take(m) =~= s.take(m));
        if m == s.len() {
            assert(tail =~= Seq::<char>::empty());
            assert(rest.take(m) + Seq::<char>::empty() =~= s);
        } else {
            lemma_token_concat(s.skip(m));
            assert(posix_token(tail) == Some(s.skip(m)));
            assert(rest.take(m) + s.skip(m) =~= s);
        }
    }
}

/// Round-trip safety for every encoding of valid text that stays off the
/// `$'...'` escaped path: reading the encoded word back as one shell
/// token yields exactly the source text, whatever the quoting mode.
pub proof fn lemma_posix_round_trip(s: Seq<char>, force: bool)
    requires
        !ux_needs_escape(s),
    ensures
        posix_token(ux_write(s, force)) == Some(s),
{
    if !ux_requires_quote(s, force) {
        assert(forall|j: int| 0 <= j < s.len() ==> !ux_scan_special(s[j]));
        assert(forall|j: int| 0 <= j < s.len() ==> !char_requires_escape(s[j]));
        lemma_token_literal(s);
    } else if ux_single_safe(s) {
        lemma_token_single_quoted(s);
    } else if ux_double_safe(s) {
        lemma_token_double_quoted(s);
    } else {
        lemma_token_concat(s);
    }
}

/// The numeric value of an uppercase or lowercase hexadecimal digit.
pub open spec fn hex_digit_val(c: char) -> int {
    if c == '0' {
        0
    } else if c == '1' {
        1
    } else if c == '2' {
        2
    } else if c == '3' {
        3
    } else if c == '4' {
        4
    } else if c == '5' {
        5
    } else if c == '6' {
        6
    } else if c == '7' {
        7
    } else if c == '8' {
        8
    } else if c == '9' {
        9
    } else if c == 'A' || c == 'a' {
        10
    } else if c == 'B' || c == 'b' {
        11
    } else if c == 'C' || c == 'c' {
        12
    } else if c == 'D' || c == 'd' {
        13
    } else if c == 'E' || c == 'e' {
        14
    } else if c == 'F' || c == 'f' {
        15
    } else {
        0
    }
}

/// A model of how a shell reads a concatenation of ANSI-C-quoted groups:
/// each group is `$'`, a body, and a closing quote, and the groups'
/// bytes concatenate. Within a body, the named backslash escapes yield
/// their bytes, `\x` followed by one or two hexadecimal digits yields a
/// byte — three or more digits would be ambiguous and fall outside the
/// model — and any other character yields its UTF-8 bytes.
pub open spec fn ansi_scan(rem: Seq<char>) -> Option<Seq<u8>>
    decreases rem.len(), 1int,
{
    if rem.len() == 0 {
        Some(seq![])
    } else if rem.len() >= 2 && rem[0] == '$' && rem[1] == '\'' {
        ansi_in(rem.skip(2))
    } else {
        None
    }
}

/// Reads the rest of one ANSI-C-quoted body, then whatever groups follow.
pub open spec fn ansi_in(rem: Seq<char>) -> Option<Seq<u8>>
    decreases rem.len(), 0int,
{
    if rem.len() == 0 {
        None
    } else if rem[0] == '\'' {
        ansi_scan(rem.drop_first())
    } else if rem[0] == '\\' {
        if rem.len() < 2 {
            None
        } else if rem[1] == 'n' {
            match ansi_in(rem.skip(2)) {
                Some(b) => Some(seq![0x0Au8] + b),
                None => None,
            }
        } else if rem[1] == 't' {
            match ansi_in(rem.skip(2)) {
                Some(b) => Some(seq![0x09u8] + b),
                None => None,
            }
        } else if rem[1] == 'r' {
            match ansi_in(rem.skip(2)) {
                Some(b) => Some(seq![0x0Du8] + b),
                None => None,
            }
        } else if rem[1] == '\\' {
            match ansi_in(rem.skip(2)) {
                Some(b) => Some(seq![0x5Cu8] + b),
                None => None,
            }
        } else if rem[1] == '\'' {
            match ansi_in(rem.skip(2)) {
                Some(b) => Some(seq![0x27u8] + b),
                None => None,
            }
        } else if rem[1] == 'x' {
            let h1 = rem.len() >= 3 && char_is_hex_digit(rem[2]);
            let h2 = rem.len() >= 4 && char_is_hex_digit(rem[3]);
            let h3 = rem.len() >= 5 && char_is_hex_digit(rem[4]);
            if !h1 {
                None
            } else if h2 && h3 {
                None
            } else if h2 {
                match ansi_in(rem.skip(4)) {
                    Some(b) => Some(
                        seq![(hex_digit_val(rem[2]) * 16 + hex_digit_val(rem[3])) as u8] + b,
                    ),
                    None => None,
                }
            } else {
                match ansi_in(rem.skip(3)) {
                    Some(b) => Some(seq![hex_digit_val(rem[2]) as u8] + b),
                    None => None,
                }
            }
        } else {
            None
        }
    } else {
        match ansi_in(rem.drop_first()) {
            Some(b) => Some(encode_scalar(rem[0] as u32) + b),
            None => None,
        }
    }
}

/// The bytes one decoded item stands for: a scalar's UTF-8 encoding, or
/// the undecodable byte itself.
pub open spec fn item_first_bytes(it: ByteItem) -> Seq<u8> {
    match it {
        ByteItem::Scalar(c) => encode_scalar(c as u32),
        ByteItem::Invalid(b) => seq![b],
    }
}

/// The bytes a decoded item sequence stands for.
pub open spec fn item_bytes(items: Seq<ByteItem>) -> Seq<u8>
    decreases items.len(),
{
    if items.len() == 0 {
        seq![]
    } else {
        item_first_bytes(items[0]) + item_bytes(items.drop_first())
    }
}

/// The escaped body, peeled from the front: the pending-ambiguity flag
/// carried in place of a look back at the previous item.
pub open spec fn ux_escaped_from(items: Seq<ByteItem>, p: bool) -> Seq<char>
    decreases items.len(),
{
    if items.len() == 0 {
        seq![]
    } else {
        (if p && ux_item_literal_hex(items[0]) {
            seq!['\'', '$', '\'']
        } else {
            seq![]
        }) + ux_escape_item(items[0]) + ux_escaped_from(items.drop_first(), ux_item_hex_tail(items[0]))
    }
}

proof fn lemma_escaped_from_snoc(items: Seq<ByteItem>, x: ByteItem, p: bool)
    ensures
        ux_escaped_from(items.push(x), p) == ux_escaped_from(items, p) + (if (if items.len() > 0 {
            ux_item_hex_tail(items.last())
        } else {
            p
        }) && ux_item_literal_hex(x) {
            seq!['\'', '$', '\'']
        } else {
            seq![]
        }) + ux_escape_item(x),
    decreases items.len(),
{
    reveal_with_fuel(ux_escaped_from, 2);
    if items.len() == 0 {
        assert(items.push(x)[0] == x);
        assert(items.push(x).drop_first() =~= Seq::<ByteItem>::empty());
        assert(ux_escaped_from(items.push(x), p) =~= ux_escaped_from(items, p) + (if p
            && ux_item_literal_hex(x) {
            seq!['\'', '$', '\'']
        } else {
            seq![]
        }) + ux_escape_item(x));
    } else {
        assert(items.push(x)[0] == items[0]);
        assert(items.push(x).drop_first() =~= items.drop_first().push(x));
        lemma_escaped_from_snoc(items.drop_first(), x, ux_item_hex_tail(items[0]));
        if items.len() > 1 {
            assert(items.drop_first().last() == items.last());
        }
        assert(ux_escaped_from(items.push(x), p) =~= ux_escaped_from(items, p) + (if (if items.len()
            > 0 {
            ux_item_hex_tail(items.last())
        } else {
            p
        }) && ux_item_literal_hex(x) {
            seq!['\'', '$', '\'']
        } else {
            seq![]
        }) + ux_escape_item(x));
    }
}

proof fn lemma_escaped_body_from(items: Seq<ByteItem>)
    ensures
        ux_escaped_body(items) == ux_escaped_from(items, false),
    decreases items.len(),
{
    if items.len() > 0 {
        lemma_escaped_body_from(items.drop_last());
        lemma_escaped_from_snoc(items.drop_last(), items.last(), false);
        assert(items.drop_last().push(items.last()) =~= items);
        if items.len() >= 2 {
            assert(items.drop_last().last() == items[items.len() - 2]);
        }
        assert(ux_escaped_body(items) =~= ux_escaped_from(items, false));
    }
}

pub proof fn lemma_hex_digit_val(d: int)
    requires
        0 <= d < 16,
    ensures
        char_is_hex_digit(hex_digit(d)),
        hex_digit_val(hex_digit(d)) == d,
{
}

proof fn lemma_hex_seq_byte(b: u8)
    ensures
        hex_seq(b as nat, 2) == seq![hex_digit(b as int / 16), hex_digit(b as int % 16)],
        char_is_hex_digit(hex_digit(b as int / 16)),
        char_is_hex_digit(hex_digit(b as int % 16)),
        hex_digit_val(hex_digit(b as int / 16)) * 16 + hex_digit_val(hex_digit(b as int % 16))
            == b,
{
    reveal_with_fuel(hex_seq, 3);
    lemma_hex_digit_val(b as int / 16);
    lemma_hex_digit_val(b as int % 16);
    assert(hex_seq(b as nat, 2) =~= seq![hex_digit(b as int / 16), hex_digit(b as int % 16)]);
}

proof fn lemma_hex_bytes_front(bs: Seq<u8>)
    requires
        bs.len() > 0,
    ensures
        hex_escaped_bytes(bs) == seq!['\\', 'x'] + hex_seq(bs[0] as nat, 2) + hex_escaped_bytes(
            bs.drop_first(),
        ),
    decreases bs.len(),
{
    reveal_with_fuel(hex_escaped_bytes, 2);
    if bs.len() == 1 {
        assert(hex_escaped_bytes(bs) =~= seq!['\\', 'x'] + hex_seq(bs[0] as nat, 2)
            + hex_escaped_bytes(bs.drop_first()));
    } else {
        lemma_hex_bytes_front(bs.drop_last());
        assert(bs.drop_last()[0] == bs[0]);
        assert(bs.drop_last().drop_first() =~= bs.drop_first().drop_last());
        assert(bs.drop_first().last() == bs.last());
        assert(hex_escaped_bytes(bs) =~= seq!['\\', 'x'] + hex_seq(bs[0] as nat, 2)
            + hex_escaped_bytes(bs.drop_first()));
    }
}

/// A run of `\xHH` byte escapes, followed by anything that does not begin
/// with a hex digit, reads back as exactly those bytes and what follows.
proof fn lemma_ansi_hex_run(bs: Seq<u8>, tail: Seq<char>, tb: Seq<u8>)
    requires
        ansi_in(tail) == Some(tb),
        tail.len() > 0,
        !char_is_hex_digit(tail[0]),
    ensures
        ansi_in(hex_escaped_bytes(bs) + tail) == Some(bs + tb),
    decreases bs.len(),
{
    if bs.len() == 0 {
        assert(hex_escaped_bytes(bs) + tail =~= tail);
        assert(Seq::<u8>::empty() + tb =~= tb);
    } else {
        lemma_hex_bytes_front(bs);
        lemma_hex_seq_byte(bs[0]);
        let d0 = hex_digit(bs[0] as int / 16);
        let d1 = hex_digit(bs[0] as int % 16);
        let next = hex_escaped_bytes(bs.drop_first()) + tail;
        let rem = hex_escaped_bytes(bs) + tail;
        assert(rem =~= seq!['\\', 'x', d0, d1] + next);
        assert(rem[0] == '\\');
        assert(rem[1] == 'x');
        assert(rem[2] == d0);
        assert(rem[3] == d1);
        if bs.drop_first().len() > 0 {
            lemma_hex_bytes_front(bs.drop_first());
            assert(next[0] == '\\');
        } else {
            assert(next =~= tail);
        }
        assert(!char_is_hex_digit(rem[4]));
        lemma_ansi_hex_run(bs.drop_first(), tail, tb);
        assert(rem.skip(4) =~= next);
        assert(seq![bs[0]] + (bs.drop_first() + tb) =~= bs + tb);
        assert((hex_digit_val(d0) * 16 + hex_digit_val(d1)) as u8 == bs[0]);
    }
}

proof fn lemma_encode_ascii(u: u32)
    requires
        u <= 0x7F,
    ensures
        encode_scalar(u) == seq![u as u8],
{
    assert(u & 0x7F == u) by (bit_vector)
        requires
            u <= 0x7F,
    ;
    assert(encode_scalar(u) =~= seq![(u & 0x7F) as u8]);
}

/// One escaped item, followed by anything that does not begin with a hex
/// digit when the item's emission ends in a byte escape, reads back as
/// the item's bytes and what follows.
proof fn lemma_ansi_item(it: ByteItem, tail: Seq<char>, tb: Seq<u8>)
    requires
        ansi_in(tail) == Some(tb),
        tail.len() > 0,
        ux_item_hex_tail(it) ==> !char_is_hex_digit(tail[0]),
    ensures
        ansi_in(ux_escape_item(it) + tail) == Some(item_first_bytes(it) + tb),
{
    broadcast use vstd::utf8::char_u32_cast;

    let rem = ux_escape_item(it) + tail;
    match it {
        ByteItem::Invalid(b) => {
            assert(ux_escape_item(it) =~= hex_escaped_bytes(seq![b])) by {
                reveal_with_fuel(hex_escaped_bytes, 2);
                assert(seq![b].drop_last() =~= Seq::<u8>::empty());
                assert(hex_escaped_bytes(seq![b]) =~= seq!['\\', 'x'] + hex_seq(b as nat, 2));
            }
            lemma_ansi_hex_run(seq![b], tail, tb);
            assert(seq![b] + tb =~= item_first_bytes(it) + tb);
        },
        ByteItem::Scalar(c) => {
            if c == '\n' {
                assert(rem =~= seq!['\\', 'n'] + tail);
                assert(rem.skip(2) =~= tail);
                lemma_encode_ascii('\n' as u32);
                assert(seq![0x0Au8] + tb =~= item_first_bytes(it) + tb);
            } else if c == '\t' {
                assert(rem =~= seq!['\\', 't'] + tail);
                assert(rem.skip(2) =~= tail);
                lemma_encode_ascii('\t' as u32);
                assert(seq![0x09u8] + tb =~= item_first_bytes(it) + tb);
            } else if c == '\r' {
                assert(rem =~= seq!['\\', 'r'] + tail);
                assert(rem.skip(2) =~= tail);
                lemma_encode_ascii('\r' as u32);
                assert(seq![0x0Du8] + tb =~= item_first_bytes(it) + tb);
            } else if c == '\\' {
                assert(rem =~= seq!['\\', '\\'] + tail);
                assert(rem.skip(2) =~= tail);
                lemma_encode_ascii('\\' as u32);
                assert(seq![0x5Cu8] + tb =~= item_first_bytes(it) + tb);
            } else if c == '\'' {
                assert(rem =~= seq!['\\', '\''] + tail);
                assert(rem.skip(2) =~= tail);
                lemma_encode_ascii('\'' as u32);
                assert(seq![0x27u8] + tb =~= item_first_bytes(it) + tb);
            } else if char_requires_escape(c) || char_is_bidi(c) {
                vstd::utf8::char_is_scalar(c);
                lemma_ansi_hex_run(encode_scalar(c as u32), tail, tb);
            } else {
                assert(rem =~= seq![c] + tail);
                assert(rem[0] == c);
                assert(rem.drop_first() =~= tail);
                assert(encode_scalar(c as u32) + tb =~= item_first_bytes(it) + tb);
            }
        },
    }
}

/// The escaped body of an item sequence, inside its group and closed by a
/// quote, reads back as the items' bytes.
#[verifier::rlimit(60)]
proof fn lemma_ansi_items(items: Seq<ByteItem>, p: bool)
    ensures
        ansi_in(ux_escaped_from(items, p) + seq!['\'']) == Some(item_bytes(items)),
    decreases items.len(),
{
    reveal_with_fuel(ansi_in, 2);
    reveal_with_fuel(ansi_scan, 2);
    let rem = ux_escaped_from(items, p) + seq!['\''];
    if items.len() == 0 {
        assert(rem =~= seq!['\'']);
        assert(rem.drop_first() =~= Seq::<char>::empty());
        assert(ansi_in(rem) == ansi_scan(rem.drop_first()));
        assert(ansi_scan(Seq::<char>::empty()) == Some(Seq::<u8>::empty()));
        assert(item_bytes(items) =~= Seq::<u8>::empty());
    } else {
        let it = items[0];
        let tail = ux_escaped_from(items.drop_first(), ux_item_hex_tail(it)) + seq!['\''];
        lemma_ansi_items(items.drop_first(), ux_item_hex_tail(it));
        assert(tail.len() > 0);
        if ux_item_hex_tail(it) {
            if items.drop_first().len() == 0 {
                assert(tail =~= seq!['\'']);
                assert(!char_is_hex_digit(tail[0]));
            } else {
                let nx = items.drop_first()[0];
                if ux_item_literal_hex(nx) {
                    assert(tail[0] == '\'');
                    assert(!char_is_hex_digit(tail[0]));
                } else {
                    match nx {
                        ByteItem::Scalar(c2) => {
                            if c2 == '\n' || c2 == '\t' || c2 == '\r' || c2 == '\\' || c2 == '\''
                                || char_requires_escape(c2) || char_is_bidi(c2) {
                                if char_requires_escape(c2) || char_is_bidi(c2) {
                                    if !(c2 == '\n' || c2 == '\t' || c2 == '\r' || c2 == '\\' || c2
                                        == '\'') {
                                        broadcast use vstd::utf8::char_is_scalar;

                                        lemma_hex_bytes_front(encode_scalar(c2 as u32));
                                        assert(ux_escape_char(c2)[0] == '\\');
                                    }
                                }
                                assert(tail[0] == '\\');
                            } else {
                                assert(ux_escape_char(c2) =~= seq![c2]);
                                assert(tail[0] == c2);
                                assert(!char_is_hex_digit(c2));
                            }
                        },
                        ByteItem::Invalid(_) => {
                            assert(tail[0] == '\\');
                        },
                    }
                    assert(!char_is_hex_digit(tail[0]));
                }
            }
        }
        lemma_ansi_item(it, tail, item_bytes(items.drop_first()));
        let expected = Some(item_first_bytes(it) + item_bytes(items.drop_first()));
        assert(ansi_in(ux_escape_item(it) + tail) == expected);
        assert(item_first_bytes(it) + item_bytes(items.drop_first()) == item_bytes(items));
        if p && ux_item_literal_hex(it) {
            let reopened = seq!['$', '\''] + (ux_escape_item(it) + tail);
            assert(reopened.len() >= 2);
            assert(reopened[0] == '$');
            assert(reopened[1] == '\'');
            assert(reopened.skip(2) =~= ux_escape_item(it) + tail);
            assert(ansi_scan(reopened) == expected);
            assert(rem =~= seq!['\''] + reopened);
            assert(rem[0] == '\'');
            assert(rem.drop_first() =~= reopened);
            assert(ansi_in(rem) == expected);
        } else {
            assert(rem =~= ux_escape_item(it) + tail);
            assert(ansi_in(rem) == expected);
        }
    }
}

/// Round-trip safety for the `$'...'` escaped form: reading the groups
/// back yields exactly the bytes the items stand for — each scalar's
/// UTF-8 encoding, each undecodable byte itself.
pub proof fn lemma_posix_escaped_round_trip(items: Seq<ByteItem>)
    ensures
        ansi_scan(ux_escaped(items)) == Some(item_bytes(items)),
{
    lemma_escaped_body_from(items);
    lemma_ansi_items(items, false);
    let out = ux_escaped(items);
    assert(out[0] == '$');
    assert(out[1] == '\'');
    assert(out.len() >= 2);
    assert(out.skip(2) =~= ux_escaped_from(items, false) + seq!['\'']);
}

/// The bytes of a byte sequence's decoded items are the bytes themselves.
proof fn lemma_item_bytes_of_utf8(bytes: Seq<u8>)
    ensures
        item_bytes(utf8_items(bytes)) == bytes,
    decreases bytes.len(),
{
    if bytes.len() == 0 {
        assert(item_bytes(utf8_items(bytes)) =~= bytes);
    } else if valid_first_scalar(bytes) {
        let t = take_first_scalar(bytes);
        assert(forall|j: int| 0 <= j < t.len() ==> t[j] == bytes[j]);
        assert(decode_first_codepoint(t) == decode_first_codepoint(bytes));
        assert(length_of_first_codepoint(t) == length_of_first_codepoint(bytes));
        assert(valid_first_scalar(t));
        assert(pop_first_scalar(t) =~= Seq::<u8>::empty());
        reveal_with_fuel(valid_utf8, 2);
        assert(valid_utf8(Seq::<u8>::empty()));
        assert(valid_utf8(t));
        vstd::utf8::decode_utf8_first_scalar(t);
        assert(take_first_scalar(t) =~= t);
        let head = ByteItem::Scalar(decode_first_scalar(bytes) as char);
        assert(item_first_bytes(head) == t);
        assert(pop_first_scalar(bytes).len() < bytes.len());
        lemma_item_bytes_of_utf8(pop_first_scalar(bytes));
        let tail = utf8_items(pop_first_scalar(bytes));
        assert(utf8_items(bytes) == seq![head] + tail);
        assert((seq![head] + tail)[0] == head);
        assert((seq![head] + tail).drop_first() =~= tail);
        assert(item_bytes(utf8_items(bytes)) =~= t + pop_first_scalar(bytes));
        assert(t + pop_first_scalar(bytes) =~= bytes);
    } else {
        lemma_item_bytes_of_utf8(bytes.skip(1));
        let head = ByteItem::Invalid(bytes[0]);
        let tail = utf8_items(bytes.skip(1));
        assert(utf8_items(bytes) == seq![head] + tail);
        assert((seq![head] + tail)[0] == head);
        assert((seq![head] + tail).drop_first() =~= tail);
        assert(item_bytes(utf8_items(bytes)) =~= seq![bytes[0]] + bytes.skip(1));
        assert(seq![bytes[0]] + bytes.skip(1) =~= bytes);
    }
}

/// Round-trip safety for raw bytes on the escaped path: reading the
/// `$'...'` groups back yields the original byte sequence exactly, valid
/// or not.
pub proof fn lemma_posix_raw_round_trip(bytes: Seq<u8>)
    ensures
        ansi_scan(ux_escaped(crate::decode::utf8_items(bytes))) == Some(bytes),
{
    lemma_posix_escaped_round_trip(crate::decode::utf8_items(bytes));
    lemma_item_bytes_of_utf8(bytes);
}

/// When quoting is not forced and no rule flags any character of the text
/// — nothing needs escaping and nothing requires quoting — the encoding
/// is the text unchanged.
pub proof fn lemma_bare_output_identity(s: Seq<char>)
    requires
        !ux_needs_escape(s),
        !ux_requires_quote(s, false),
    ensures
        ux_write(s, false) == s,
{
}

/// The empty string is always quoted, even when quoting is not forced:
/// it encodes as a bare pair of single quotes.
pub proof fn lemma_empty_always_quoted(force: bool)
    ensures
        ux_write(Seq::<char>::empty(), force) == seq!['\'', '\''],
{
    let s = Seq::<char>::empty();
    assert(!ux_needs_escape(s));
    assert(ux_single_safe(s));
    assert(quoted_with(s, '\'') =~= seq!['\'', '\'']);
}

/// A text holding any control character is encoded in the `$'...'`
/// escaped form, whatever the quoting mode.
pub proof fn lemma_control_forces_escaped(s: Seq<char>, i: int, force: bool)
    requires
        0 <= i < s.len(),
        char_requires_escape(s[i]),
    ensures
        ux_write(s, force) == ux_escaped(chars_bytes_items(s)),
{
    assert(ux_needs_escape(s));
}

/// A text whose directional-formatting characters are suspicious — an
/// unterminated or improperly nested scope — is encoded in the `$'...'`
/// escaped form, whatever the quoting mode.
pub proof fn lemma_suspicious_bidi_escaped(s: Seq<char>, force: bool)
    requires
        suspicious_bidi(s),
    ensures
        ux_write(s, force) == ux_escaped(chars_bytes_items(s)),
{
    if !(exists|j: int| 0 <= j < s.len() && char_is_bidi(s[j])) {
        assert(forall|j: int| 0 <= j < s.len() ==> !char_is_bidi(s[j]));
        crate::classify::lemma_no_bidi_state(s);
    }
    assert(ux_needs_escape(s));
}

} // verus!
