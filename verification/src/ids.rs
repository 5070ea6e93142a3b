//! Shard and item identifiers. An identifier is held as the sixteen bytes of a
//! UUID, in the order in which `uuid::Uuid::as_bytes` gives them; the
//! little-endian byte order, the text form and fresh identifiers come from the
//! `uuid` crate.
use vstd::prelude::*;

verus! {

/// Number of bytes of an encoded identifier.
pub const UUID_BYTE_LEN: u64 = 16;

/// The sixteen bytes of a UUID.
pub type UuidBytes = [u8; 16];

/// The mixed-endian layout of sixteen UUID bytes: the first three fields
/// (4, 2 and 2 bytes) reversed, the last eight bytes kept.
pub open spec fn le_layout(b: Seq<u8>) -> Seq<u8> {
    seq![b[3], b[2], b[1], b[0], b[5], b[4], b[7], b[6]] + b.subrange(8, 16)
}

/// Sixteen zero bytes: the nil UUID.
pub open spec fn nil_bytes() -> Seq<u8> {
    Seq::new(16, |i: int| 0u8)
}

pub proof fn lemma_le_layout(b: Seq<u8>)
    requires
        b.len() == 16,
    ensures
        le_layout(b).len() == 16,
        le_layout(le_layout(b)) =~= b,
        (le_layout(b) == nil_bytes()) <==> (b == nil_bytes()),
{
    assert(le_layout(le_layout(b)) =~= b);
    if le_layout(b) == nil_bytes() {
        assert(b =~= nil_bytes()) by {
            assert(le_layout(b)[0] == b[3]);
            assert(le_layout(b)[1] == b[2]);
            assert(le_layout(b)[2] == b[1]);
            assert(le_layout(b)[3] == b[0]);
            assert(le_layout(b)[4] == b[5]);
            assert(le_layout(b)[5] == b[4]);
            assert(le_layout(b)[6] == b[7]);
            assert(le_layout(b)[7] == b[6]);
            assert forall|i: int| 8 <= i < 16 implies b[i] == 0 by {
                assert(le_layout(b)[i] == b[i]);
            }
        }
    }
    if b == nil_bytes() {
        assert(le_layout(b) =~= nil_bytes());
    }
}

/// `Uuid::to_bytes_le` of the UUID with the given bytes.
#[verifier::external_body]
pub(crate) fn uuid_to_bytes_le(id: &UuidBytes) -> (r: UuidBytes)
    ensures
        r@ == le_layout(id@),
{
    uuid::Uuid::from_bytes(*id).to_bytes_le()
}

/// The bytes of `Uuid::from_bytes_le(b)`.
#[verifier::external_body]
pub(crate) fn uuid_from_bytes_le(b: &UuidBytes) -> (r: UuidBytes)
    ensures
        r@ == le_layout(b@),
{
    *uuid::Uuid::from_bytes_le(*b).as_bytes()
}

/// The bytes of `Uuid::new_v4()`, a random identifier. `new_v4` masks a
/// random number so that the version nibble (the high half of byte 6) is 4
/// and the variant bits (the top two of byte 8) are `10`; the other bits are
/// random and nothing is said of them.
#[verifier::external_body]
pub(crate) fn new_uuid_v4() -> (r: UuidBytes)
    ensures
        0x40 <= r@[6] < 0x50,
        0x80 <= r@[8] < 0xc0,
{
    *uuid::Uuid::new_v4().as_bytes()
}

/// The lower-case hexadecimal digit of `n < 16`.
pub open spec fn hex_digit(n: u8) -> char {
    if n < 10 {
        (('0' as u8) + n) as char
    } else {
        (('a' as u8) + n - 10) as char
    }
}

/// The two lower-case hexadecimal digits of a byte.
pub open spec fn byte_hex(b: u8) -> Seq<char> {
    seq![hex_digit(b / 16), hex_digit(b % 16)]
}

/// The lower-case hexadecimal text of a byte sequence, two digits per byte.
pub open spec fn hex_string(s: Seq<u8>) -> Seq<char>
    decreases s.len(),
{
    if s.len() == 0 {
        Seq::empty()
    } else {
        hex_string(s.drop_last()) + byte_hex(s.last())
    }
}

/// The hyphenated text of a UUID: hexadecimal groups of 4, 2, 2, 2 and 6 bytes.
pub open spec fn uuid_text(b: Seq<u8>) -> Seq<char> {
    hex_string(b.subrange(0, 4)) + seq!['-'] + hex_string(b.subrange(4, 6)) + seq!['-']
        + hex_string(b.subrange(6, 8)) + seq!['-'] + hex_string(b.subrange(8, 10)) + seq!['-']
        + hex_string(b.subrange(10, 16))
}

/// `Uuid::to_string` (the hyphenated lower-case form) of the UUID with the
/// given bytes, which `Uuid::parse_str` reads back as the same UUID.
#[verifier::external_body]
pub(crate) fn uuid_to_string(id: &UuidBytes) -> (r: String)
    ensures
        r@ == uuid_text(id@),
        uuid_parse(r@) == Some(id@),
{
    uuid::Uuid::from_bytes(*id).to_string()
}

/// What `Uuid::parse_str` gives for a text: the bytes of the UUID, or `None`
/// where the crate refuses the text.
pub uninterp spec fn uuid_parse(s: Seq<char>) -> Option<Seq<u8>>;

/// `Uuid::parse_str`; its result is named, and it has sixteen bytes when it is there.
#[verifier::external_body]
pub(crate) fn parse_uuid(s: &str) -> (r: Option<UuidBytes>)
    ensures
        match r {
            Some(b) => uuid_parse(s@) == Some(b@),
            None => uuid_parse(s@) is None,
        },
{
    match uuid::Uuid::parse_str(s) {
        Ok(u) => Some(*u.as_bytes()),
        Err(_) => None,
    }
}

} // verus!

verus! {

/// The characters of hexadecimal text.
pub open spec fn is_hex_text_char(c: char) -> bool {
    ('0' <= c && c <= '9') || ('a' <= c && c <= 'f') || c == '-'
}

pub proof fn lemma_hex_string_chars(s: Seq<u8>)
    ensures
        forall|i: int| 0 <= i < hex_string(s).len() ==> #[trigger] is_hex_text_char(hex_string(s)[i]),
        hex_string(s).len() == 2 * s.len(),
    decreases s.len(),
{
    if s.len() > 0 {
        lemma_hex_string_chars(s.drop_last());
        let b = s.last();
        assert(b / 16 < 16 && b % 16 < 16);
        assert(is_hex_text_char(hex_digit(b / 16))) by {
            let n = b / 16;
            if n < 10 {
                assert(('0' as u8) + n <= '9' as u8);
            }
        }
        assert(is_hex_text_char(hex_digit(b % 16))) by {
            let n = b % 16;
            if n < 10 {
                assert(('0' as u8) + n <= '9' as u8);
            }
        }
        let p = hex_string(s.drop_last());
        assert forall|i: int| 0 <= i < hex_string(s).len() implies #[trigger] is_hex_text_char(hex_string(s)[i]) by {
            if i < p.len() {
                assert(hex_string(s)[i] == p[i]);
            }
        }
    }
}

/// The text of a UUID holds only hexadecimal digits and hyphens.
pub proof fn lemma_uuid_text_chars(b: Seq<u8>)
    requires
        b.len() == 16,
    ensures
        forall|i: int| 0 <= i < uuid_text(b).len() ==> #[trigger] is_hex_text_char(uuid_text(b)[i]),
{
    lemma_hex_string_chars(b.subrange(0, 4));
    lemma_hex_string_chars(b.subrange(4, 6));
    lemma_hex_string_chars(b.subrange(6, 8));
    lemma_hex_string_chars(b.subrange(8, 10));
    lemma_hex_string_chars(b.subrange(10, 16));
    let t = uuid_text(b);
    let a0 = hex_string(b.subrange(0, 4));
    let a1 = hex_string(b.subrange(4, 6));
    let a2 = hex_string(b.subrange(6, 8));
    let a3 = hex_string(b.subrange(8, 10));
    let a4 = hex_string(b.subrange(10, 16));
    assert forall|i: int| 0 <= i < t.len() implies #[trigger] is_hex_text_char(t[i]) by {
        let o1 = a0.len() + 1;
        let o2 = o1 + a1.len() + 1;
        let o3 = o2 + a2.len() + 1;
        let o4 = o3 + a3.len() + 1;
        if i < a0.len() {
            assert(t[i] == a0[i]);
        } else if i < o1 {
            assert(t[i] == '-');
        } else if i < o1 + a1.len() {
            assert(t[i] == a1[i - o1]);
        } else if i < o2 {
            assert(t[i] == '-');
        } else if i < o2 + a2.len() {
            assert(t[i] == a2[i - o2]);
        } else if i < o3 {
            assert(t[i] == '-');
        } else if i < o3 + a3.len() {
            assert(t[i] == a3[i - o3]);
        } else if i < o4 {
            assert(t[i] == '-');
        } else {
            assert(t[i] == a4[i - o4]);
        }
    }
}

} // verus!
