//! Decode-error-aware decoding: restartable single passes over raw bytes
//! (UTF-8) and raw 16-bit units (UTF-16) that yield decoded scalars
//! interleaved with the raw units that fail to decode.

use vstd::prelude::*;
use vstd::utf8::*;

verus! {

/// One element of a decoded byte stream: a scalar value, or a byte at
/// which decoding failed.
#[derive(Clone, Copy)]
pub enum ByteItem {
    Scalar(char),
    Invalid(u8),
}

/// One element of a decoded 16-bit stream: a scalar value, or an unpaired
/// surrogate unit.
#[derive(Clone, Copy)]
pub enum UnitItem {
    Scalar(char),
    Invalid(u16),
}

/// The items decoded from a byte sequence: each well-formed UTF-8 scalar
/// encoding yields its scalar, and decoding resumes one byte further after
/// any byte that begins no well-formed encoding.
pub open spec fn utf8_items(bytes: Seq<u8>) -> Seq<ByteItem>
    decreases bytes.len(),
{
    if bytes.len() == 0 {
        seq![]
    } else if valid_first_scalar(bytes) {
        seq![ByteItem::Scalar(decode_first_scalar(bytes) as char)] + utf8_items(
            pop_first_scalar(bytes),
        )
    } else {
        seq![ByteItem::Invalid(bytes[0])] + utf8_items(bytes.skip(1))
    }
}

pub open spec fn byte_item_char(it: ByteItem) -> char {
    match it {
        ByteItem::Scalar(c) => c,
        ByteItem::Invalid(_) => '\0',
    }
}

/// The characters of a fully decoded item sequence.
pub open spec fn byte_items_chars(items: Seq<ByteItem>) -> Seq<char> {
    Seq::new(items.len(), |i: int| byte_item_char(items[i]))
}

/// The characters of a fully decoded item sequence.
pub open spec fn unit_items_chars(items: Seq<UnitItem>) -> Seq<char> {
    Seq::new(items.len(), |i: int| unit_item_char(items[i]))
}

pub open spec fn unit_item_char(it: UnitItem) -> char {
    match it {
        UnitItem::Scalar(c) => c,
        UnitItem::Invalid(_) => '\0',
    }
}

pub open spec fn is_high_surrogate(u: u16) -> bool {
    0xD800 <= u && u <= 0xDBFF
}

pub open spec fn is_low_surrogate(u: u16) -> bool {
    0xDC00 <= u && u <= 0xDFFF
}

/// The scalar value encoded by a surrogate pair.
pub open spec fn combined_scalar(hi: u16, lo: u16) -> u32
    recommends
        is_high_surrogate(hi),
        is_low_surrogate(lo),
{
    (0x10000 + (hi - 0xD800) * 0x400 + (lo - 0xDC00)) as u32
}

/// The items decoded from a 16-bit unit sequence: a unit outside the
/// surrogate range is its own scalar, a high surrogate directly followed
/// by a low surrogate is their combined scalar, and any other surrogate
/// unit is unpaired and fails to decode.
pub open spec fn utf16_items(units: Seq<u16>) -> Seq<UnitItem>
    decreases units.len(),
{
    if units.len() == 0 {
        seq![]
    } else if !is_high_surrogate(units[0]) && !is_low_surrogate(units[0]) {
        seq![UnitItem::Scalar((units[0] as u32) as char)] + utf16_items(units.skip(1))
    } else if is_high_surrogate(units[0]) && units.len() >= 2 && is_low_surrogate(units[1]) {
        seq![UnitItem::Scalar(combined_scalar(units[0], units[1]) as char)] + utf16_items(
            units.skip(2),
        )
    } else {
        seq![UnitItem::Invalid(units[0])] + utf16_items(units.skip(1))
    }
}

/// Every unit decodes: the sequence holds no unpaired surrogate.
pub open spec fn utf16_valid(units: Seq<u16>) -> bool {
    forall|i: int| 0 <= i < utf16_items(units).len() ==> utf16_items(units)[i] is Scalar
}

/// The characters of a fully valid 16-bit unit sequence.
pub open spec fn utf16_chars(units: Seq<u16>) -> Seq<char> {
    unit_items_chars(utf16_items(units))
}

/// Relies on `char::from_u32`: for a Unicode scalar value it returns
/// `Some` of the character with exactly that value.
#[verifier::external_body]
fn char_from_scalar(v: u32) -> (r: char)
    requires
        is_scalar(v),
    ensures
        r as u32 == v,
{
    char::from_u32(v).unwrap()
}

/// The UTF-8 encoding of a scalar value, one to four bytes.
pub fn scalar_bytes(v: u32) -> (r: Vec<u8>)
    requires
        is_scalar(v),
    ensures
        r@ == encode_scalar(v),
        r@.len() >= 1,
{
    let mut out: Vec<u8> = Vec::new();
    if v <= 0x7F {
        out.push((v & 0x7F) as u8);
    } else if v <= 0x7FF {
        out.push(0xC0 | ((v >> 6) & 0x1F) as u8);
        out.push(0x80 | (v & 0x3F) as u8);
    } else if v <= 0xFFFF {
        out.push(0xE0 | ((v >> 12) & 0x0F) as u8);
        out.push(0x80 | ((v >> 6) & 0x3F) as u8);
        out.push(0x80 | (v & 0x3F) as u8);
    } else {
        out.push(0xF0 | ((v >> 18) & 0x7) as u8);
        out.push(0x80 | ((v >> 12) & 0x3F) as u8);
        out.push(0x80 | ((v >> 6) & 0x3F) as u8);
        out.push(0x80 | (v & 0x3F) as u8);
    }
    assert(out@ =~= encode_scalar(v));
    out
}

/// Decodes the scalar whose well-formed encoding begins at `i`, or reports
/// the byte there as undecodable; also returns how many bytes were
/// consumed.
fn utf8_step(bytes: &Vec<u8>, i: usize) -> (r: (ByteItem, usize))
    requires
        i < bytes@.len(),
    ensures
        ({
            let rest = bytes@.skip(i as int);
            &&& (valid_first_scalar(rest) ==> r.0 == ByteItem::Scalar(
                decode_first_scalar(rest) as char,
            ) && r.1 == length_of_first_scalar(rest))
            &&& (!valid_first_scalar(rest) ==> r.0 == ByteItem::Invalid(bytes@[i as int]) && r.1
                == 1)
            &&& 1 <= r.1 <= bytes@.len() - i
        }),
{
    broadcast use vstd::utf8::char_u32_cast;

    let ghost rest = bytes@.skip(i as int);
    let n = bytes.len();
    let b0 = bytes[i];
    proof {
        assert(rest.len() == n - i);
        assert(rest[0] == bytes@[i as int]);
    }
    if b0 <= 0x7F {
        proof {
            assert(b0 & 0x7F == b0) by (bit_vector)
                requires
                    b0 <= 0x7F,
            ;
        }
        (ByteItem::Scalar(char_from_scalar(b0 as u32)), 1)
    } else if 0xC0 <= b0 && b0 <= 0xDF {
        if i + 1 < n && 0x80 <= bytes[i + 1] && bytes[i + 1] <= 0xBF {
            let b1 = bytes[i + 1];
            proof {
                assert(rest[1] == bytes@[i as int + 1]);
            }
            let cp: u32 = (((b0 & 0x1F) as u32) << 6) | ((b1 & 0x3F) as u32);
            proof {
                assert(cp <= 0x7FF) by (bit_vector)
                    requires
                        cp == (((b0 & 0x1F) as u32) << 6) | ((b1 & 0x3F) as u32),
                ;
            }
            if cp >= 0x80 {
                (ByteItem::Scalar(char_from_scalar(cp)), 2)
            } else {
                (ByteItem::Invalid(b0), 1)
            }
        } else {
            (ByteItem::Invalid(b0), 1)
        }
    } else if 0xE0 <= b0 && b0 <= 0xEF {
        if n - i > 2 && 0x80 <= bytes[i + 1] && bytes[i + 1] <= 0xBF && 0x80 <= bytes[i + 2]
            && bytes[i + 2] <= 0xBF {
            let b1 = bytes[i + 1];
            let b2 = bytes[i + 2];
            proof {
                assert(rest[1] == bytes@[i as int + 1]);
                assert(rest[2] == bytes@[i as int + 2]);
            }
            let cp: u32 = (((b0 & 0x0F) as u32) << 12) | (((b1 & 0x3F) as u32) << 6) | ((b2
                & 0x3F) as u32);
            proof {
                assert(cp <= 0xFFFF) by (bit_vector)
                    requires
                        cp == (((b0 & 0x0F) as u32) << 12) | (((b1 & 0x3F) as u32) << 6) | ((b2
                            & 0x3F) as u32),
                ;
            }
            if cp >= 0x800 && !(0xD800 <= cp && cp <= 0xDFFF) {
                (ByteItem::Scalar(char_from_scalar(cp)), 3)
            } else {
                (ByteItem::Invalid(b0), 1)
            }
        } else {
            (ByteItem::Invalid(b0), 1)
        }
    } else if 0xF0 <= b0 && b0 <= 0xF7 {
        if n - i > 3 && 0x80 <= bytes[i + 1] && bytes[i + 1] <= 0xBF && 0x80 <= bytes[i + 2]
            && bytes[i + 2] <= 0xBF && 0x80 <= bytes[i + 3] && bytes[i + 3] <= 0xBF {
            let b1 = bytes[i + 1];
            let b2 = bytes[i + 2];
            let b3 = bytes[i + 3];
            proof {
                assert(rest[1] == bytes@[i as int + 1]);
                assert(rest[2] == bytes@[i as int + 2]);
                assert(rest[3] == bytes@[i as int + 3]);
            }
            let cp: u32 = (((b0 & 0x07) as u32) << 18) | (((b1 & 0x3F) as u32) << 12) | (((b2
                & 0x3F) as u32) << 6) | ((b3 & 0x3F) as u32);
            proof {
                assert(cp <= 0x1FFFFF) by (bit_vector)
                    requires
                        cp == (((b0 & 0x07) as u32) << 18) | (((b1 & 0x3F) as u32) << 12) | (((b2
                            & 0x3F) as u32) << 6) | ((b3 & 0x3F) as u32),
                ;
            }
            if 0x10000 <= cp && cp <= 0x10FFFF {
                (ByteItem::Scalar(char_from_scalar(cp)), 4)
            } else {
                (ByteItem::Invalid(b0), 1)
            }
        } else {
            (ByteItem::Invalid(b0), 1)
        }
    } else {
        (ByteItem::Invalid(b0), 1)
    }
}

/// Decodes a whole byte sequence into items; when every byte decodes, also
/// returns the characters.
pub fn decode_utf8_items(bytes: &Vec<u8>) -> (r: (Vec<ByteItem>, Option<Vec<char>>))
    ensures
        r.0@ == utf8_items(bytes@),
        (forall|j: int| 0 <= j < utf8_items(bytes@).len() ==> utf8_items(bytes@)[j] is Scalar)
            <==> r.1 is Some,
        r.1 matches Some(cs) ==> cs@ == byte_items_chars(utf8_items(bytes@)),
{
    let n = bytes.len();
    let mut items: Vec<ByteItem> = Vec::new();
    let mut chars: Vec<char> = Vec::new();
    let mut all_ok = true;
    let mut i: usize = 0;
    proof {
        assert(bytes@.skip(0) =~= bytes@);
        assert(items@ + utf8_items(bytes@) =~= utf8_items(bytes@));
    }
    while i < n
        invariant
            n == bytes@.len(),
            i <= n,
            utf8_items(bytes@) == items@ + utf8_items(bytes@.skip(i as int)),
            all_ok ==> (forall|j: int| 0 <= j < items@.len() ==> items@[j] is Scalar),
            !all_ok ==> (exists|j: int| 0 <= j < items@.len() && !(items@[j] is Scalar)),
            all_ok ==> chars@.len() == items@.len() && (forall|j: int|
                0 <= j < items@.len() ==> chars@[j] == byte_item_char(items@[j])),
        decreases n - i,
    {
        let ghost rest = bytes@.skip(i as int);
        let (item, step) = utf8_step(bytes, i);
        proof {
            if valid_first_scalar(rest) {
                assert(utf8_items(rest) == seq![item] + utf8_items(pop_first_scalar(rest)));
                assert(pop_first_scalar(rest) =~= bytes@.skip(i as int + step as int));
            } else {
                assert(utf8_items(rest) == seq![item] + utf8_items(rest.skip(1)));
                assert(rest.skip(1) =~= bytes@.skip(i as int + step as int));
            }
            assert(items@ + utf8_items(rest) =~= items@.push(item) + utf8_items(
                bytes@.skip(i as int + step as int),
            ));
        }
        let ghost prev = items@;
        match item {
            ByteItem::Scalar(c) => {
                if all_ok {
                    chars.push(c);
                }
            },
            ByteItem::Invalid(_) => {
                all_ok = false;
            },
        }
        items.push(item);
        proof {
            assert(items@ == prev.push(item));
            assert(items@[prev.len() as int] == item);
            assert(forall|j: int| 0 <= j < prev.len() ==> items@[j] == prev[j]);
        }
        i = i + step;
    }
    proof {
        assert(bytes@.skip(n as int) =~= Seq::<u8>::empty());
        assert(items@ =~= utf8_items(bytes@));
        if all_ok {
            assert(chars@ =~= byte_items_chars(items@));
        }
    }
    if all_ok {
        (items, Some(chars))
    } else {
        (items, None)
    }
}

/// Decodes a whole 16-bit unit sequence into items; when every unit
/// decodes, also returns the characters.
pub fn decode_utf16_items(units: &Vec<u16>) -> (r: (Vec<UnitItem>, Option<Vec<char>>))
    ensures
        r.0@ == utf16_items(units@),
        utf16_valid(units@) <==> r.1 is Some,
        r.1 matches Some(cs) ==> cs@ == utf16_chars(units@),
{
    broadcast use vstd::utf8::char_u32_cast;

    let n = units.len();
    let mut items: Vec<UnitItem> = Vec::new();
    let mut chars: Vec<char> = Vec::new();
    let mut all_ok = true;
    let mut i: usize = 0;
    proof {
        assert(units@.skip(0) =~= units@);
        assert(items@ + utf16_items(units@) =~= utf16_items(units@));
    }
    while i < n
        invariant
            n == units@.len(),
            i <= n,
            utf16_items(units@) == items@ + utf16_items(units@.skip(i as int)),
            all_ok ==> (forall|j: int| 0 <= j < items@.len() ==> items@[j] is Scalar),
            !all_ok ==> (exists|j: int| 0 <= j < items@.len() && !(items@[j] is Scalar)),
            all_ok ==> chars@.len() == items@.len() && (forall|j: int|
                0 <= j < items@.len() ==> chars@[j] == unit_item_char(items@[j])),
        decreases n - i,
    {
        let ghost rest = units@.skip(i as int);
        let u0 = units[i];
        proof {
            assert(rest[0] == units@[i as int]);
            assert(rest.len() == n - i);
        }
        let item: UnitItem;
        let step: usize;
        if u0 < 0xD800 || u0 > 0xDFFF {
            item = mk_scalar_unit(char_from_scalar(u0 as u32));
            step = 1;
            proof {
                assert(utf16_items(rest) == seq![item] + utf16_items(rest.skip(1)));
            }
        } else if u0 <= 0xDBFF && i + 1 < n && 0xDC00 <= units[i + 1] && units[i + 1] <= 0xDFFF {
            let u1 = units[i + 1];
            proof {
                assert(rest[1] == units@[i as int + 1]);
            }
            let cp: u32 = 0x10000 + (((u0 - 0xD800) as u32) * 0x400) + ((u1 - 0xDC00) as u32);
            item = mk_scalar_unit(char_from_scalar(cp));
            step = 2;
            proof {
                assert(utf16_items(rest) == seq![item] + utf16_items(rest.skip(2)));
            }
        } else {
            item = UnitItem::Invalid(u0);
            step = 1;
            proof {
                assert(utf16_items(rest) == seq![item] + utf16_items(rest.skip(1)));
            }
        }
        proof {
            assert(rest.skip(step as int) =~= units@.skip(i as int + step as int));
            assert(items@ + utf16_items(rest) =~= items@.push(item) + utf16_items(
                units@.skip(i as int + step as int),
            ));
        }
        let ghost prev = items@;
        match item {
            UnitItem::Scalar(c) => {
                if all_ok {
                    chars.push(c);
                }
            },
            UnitItem::Invalid(_) => {
                all_ok = false;
            },
        }
        items.push(item);
        proof {
            assert(items@ == prev.push(item));
            assert(items@[prev.len() as int] == item);
            assert(forall|j: int| 0 <= j < prev.len() ==> items@[j] == prev[j]);
        }
        i = i + step;
    }
    proof {
        assert(units@.skip(n as int) =~= Seq::<u16>::empty());
        assert(items@ =~= utf16_items(units@));
        if all_ok {
            assert(chars@ =~= unit_items_chars(items@));
        }
    }
    if all_ok {
        (items, Some(chars))
    } else {
        (items, None)
    }
}

/// The per-item view of a byte sequence agrees with the UTF-8 model: every
/// item is a scalar exactly when the bytes are valid UTF-8, and then the
/// item characters are the decoded characters.
pub proof fn lemma_utf8_items_of_valid(bytes: Seq<u8>)
    ensures
        (forall|j: int| 0 <= j < utf8_items(bytes).len() ==> utf8_items(bytes)[j] is Scalar)
            <==> valid_utf8(bytes),
        valid_utf8(bytes) ==> byte_items_chars(utf8_items(bytes)) == decode_utf8(bytes),
    decreases bytes.len(),
{
    broadcast use vstd::utf8::char_u32_cast;

    if bytes.len() == 0 {
    } else if valid_first_scalar(bytes) {
        assert(pop_first_scalar(bytes).len() < bytes.len());
        lemma_utf8_items_of_valid(pop_first_scalar(bytes));
        let head = ByteItem::Scalar(decode_first_scalar(bytes) as char);
        let tail = utf8_items(pop_first_scalar(bytes));
        assert(utf8_items(bytes) == seq![head] + tail);
        assert((seq![head] + tail)[0] == head);
        assert(forall|j: int| 0 <= j < tail.len() ==> (seq![head] + tail)[j + 1] == tail[j]);
        if forall|j: int| 0 <= j < utf8_items(bytes).len() ==> utf8_items(bytes)[j] is Scalar {
            assert(forall|j: int| 0 <= j < tail.len() ==> tail[j] == utf8_items(bytes)[j + 1]);
            assert(valid_utf8(pop_first_scalar(bytes)));
        }
        if valid_utf8(bytes) {
            assert(forall|j: int| 0 <= j < tail.len() ==> utf8_items(bytes)[j + 1] == tail[j]);
            assert(byte_items_chars(utf8_items(bytes)) =~= decode_utf8(bytes));
        }
    } else {
        assert(utf8_items(bytes)[0] is Invalid);
    }
}

/// Wraps a character as a decoded byte-stream item.
pub fn mk_scalar_item(c: char) -> (r: ByteItem)
    ensures
        r == ByteItem::Scalar(c),
{
    ByteItem::Scalar(c)
}

/// Wraps a character as a decoded unit-stream item.
pub fn mk_scalar_unit(c: char) -> (r: UnitItem)
    ensures
        r == UnitItem::Scalar(c),
{
    UnitItem::Scalar(c)
}

} // verus!

