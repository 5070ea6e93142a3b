//! Index entries: length-prefixed data units and text keys.
use vstd::prelude::*;
use crate::bytes::{le64, from_le64, lemma_le64, encode_u64, decode_u64, push_all, slice_to_vec, U64_SIZE};

verus! {

/// What reading an index entry can fail with.
#[derive(Debug, Clone, Copy, PartialEq, Eq, Structural)]
pub enum IndexError {
    UnrecognizedItemSize,
    InvalidItem,
}

/// The kinds of index.
#[derive(Debug, Clone, Copy, PartialEq, Eq, Structural)]
pub enum IndexType {
    Hash,
}

/// A length-prefixed piece of index data.
#[derive(Debug)]
pub struct IndexDataUnit {
    pub item_size: u64,
    pub data: Vec<u8>,
}

/// The encoding of a unit: its size as eight little-endian bytes, then its data.
pub open spec fn unit_encoding(item_size: u64, data: Seq<u8>) -> Seq<u8> {
    le64(item_size) + data
}

/// The byte sequences whose size prefix can be added to eight without overflow.
pub open spec fn unit_size_fits(data: Seq<u8>) -> bool {
    data.len() >= 8 ==> from_le64(data.subrange(0, 8)) + 8 <= usize::MAX
}

impl IndexDataUnit {
    /// A unit holding `data`.
    pub fn new(data: Vec<u8>) -> (r: Self)
        requires
            data@.len() <= u64::MAX,
        ensures
            r.item_size == data@.len(),
            r.data@ == data@,
    {
        Self { item_size: data.len() as u64, data }
    }

    /// Size of the prefix.
    pub fn header_size() -> (r: usize)
        ensures
            r == 8,
    {
        U64_SIZE
    }

    /// Reads a unit from the start of `data`: fewer than eight bytes give
    /// `UnrecognizedItemSize`, fewer than the prefix announces give `InvalidItem`.
    pub fn decode(data: &[u8]) -> (r: Result<Self, IndexError>)
        requires
            unit_size_fits(data@),
        ensures
            data@.len() < 8 ==> r == Err::<Self, IndexError>(IndexError::UnrecognizedItemSize),
            data@.len() >= 8 ==> {
                let size = from_le64(data@.subrange(0, 8));
                &&& 8 + size <= data@.len() ==> (r matches Ok(u) && u.item_size == size && u.data@ == data@.subrange(
                    8,
                    8 + size,
                ))
                &&& 8 + size > data@.len() ==> r == Err::<Self, IndexError>(IndexError::InvalidItem)
            },
    {
        if data.len() < U64_SIZE {
            return Err(IndexError::UnrecognizedItemSize);
        }
        let item_size = decode_u64(&data[0..U64_SIZE]);
        let end = U64_SIZE + item_size as usize;
        if end <= data.len() {
            Ok(IndexDataUnit { item_size, data: slice_to_vec(&data[U64_SIZE..end]) })
        } else {
            Err(IndexError::InvalidItem)
        }
    }

    /// The encoded unit.
    pub fn encode(self) -> (r: Vec<u8>)
        ensures
            r@ == unit_encoding(self.item_size, self.data@),
    {
        let mut entry = encode_u64(self.item_size);
        push_all(&mut entry, self.data.as_slice());
        entry
    }
}

/// A unit reads back from its encoding.
pub proof fn lemma_unit_round_trip(item_size: u64, data: Seq<u8>)
    requires
        item_size == data.len(),
        data.len() + 8 <= usize::MAX,
    ensures
        unit_size_fits(unit_encoding(item_size, data)),
        from_le64(unit_encoding(item_size, data).subrange(0, 8)) == item_size,
        unit_encoding(item_size, data).subrange(8, 8 + item_size) == data,
{
    lemma_le64(item_size);
    let e = unit_encoding(item_size, data);
    assert(e.subrange(0, 8) =~= le64(item_size));
    assert(e.subrange(8, 8 + item_size) =~= data);
}

/// Size of an index entry: a unit holding a key unit and a value unit.
pub fn get_entry_size(key_size: usize, value_size: usize) -> (r: usize)
    requires
        8 + (8 + key_size) + (8 + value_size) <= usize::MAX,
    ensures
        r == 8 + (8 + key_size) + (8 + value_size),
{
    let entry_data_size = {
        let key_size = IndexDataUnit::header_size() + key_size;
        let value_size = IndexDataUnit::header_size() + value_size;
        key_size + value_size
    };
    IndexDataUnit::header_size() + entry_data_size
}

/// What `String::from_utf8` gives for bytes: the text they encode, or none
/// where they are not UTF-8.
pub uninterp spec fn utf8_text(bytes: Seq<u8>) -> Option<Seq<char>>;

/// What `String::into_bytes` gives for a text: its UTF-8 encoding.
pub uninterp spec fn utf8_bytes(text: Seq<char>) -> Seq<u8>;

/// `String::from_utf8`: the text the bytes encode, if they are UTF-8; the
/// text keeps the vector it was made from, so its bytes are those bytes.
#[verifier::external_body]
fn text_from_utf8(bytes: Vec<u8>) -> (r: Option<String>)
    ensures
        match r {
            Some(t) => utf8_text(bytes@) == Some(t@) && utf8_bytes(t@) == bytes@,
            None => utf8_text(bytes@) is None,
        },
{
    String::from_utf8(bytes).ok()
}

/// `String::into_bytes`: the UTF-8 encoding of the text, which
/// `String::from_utf8` reads back as the same text.
#[verifier::external_body]
fn text_into_bytes(text: String) -> (r: Vec<u8>)
    ensures
        r@ == utf8_bytes(text@),
        utf8_text(r@) == Some(text@),
{
    text.into_bytes()
}

/// An index key made of text, ordered as its text.
#[derive(Debug, Clone, PartialEq, Eq, PartialOrd, Ord)]
pub struct StringIndexKey(pub String);

impl StringIndexKey {
    /// The key whose text the bytes encode; `None` where they are not UTF-8.
    pub fn try_from_bytes(value: Vec<u8>) -> (r: Option<Self>)
        ensures
            match r {
                Some(k) => utf8_text(value@) == Some(k.0@) && utf8_bytes(k.0@) == value@,
                None => utf8_text(value@) is None,
            },
    {
        match text_from_utf8(value) {
            Some(t) => Some(StringIndexKey(t)),
            None => None,
        }
    }

    /// The key read from the data of an index unit.
    pub fn try_from_unit(value: IndexDataUnit) -> (r: Option<Self>)
        ensures
            match r {
                Some(k) => utf8_text(value.data@) == Some(k.0@) && utf8_bytes(k.0@) == value.data@,
                None => utf8_text(value.data@) is None,
            },
    {
        Self::try_from_bytes(value.data)
    }

    /// The UTF-8 bytes of the key, from which `try_from_bytes` gives the key back.
    pub fn into_bytes(self) -> (r: Vec<u8>)
        ensures
            r@ == utf8_bytes(self.0@),
            utf8_text(r@) == Some(self.0@),
    {
        text_into_bytes(self.0)
    }

    /// The text of the key.
    pub fn into_string(self) -> (r: String)
        ensures
            r@ == self.0@,
    {
        self.0
    }
}

/// What an index keeps as a key: a value read from bytes or from the data
/// of an index unit, and turned back into its bytes.
pub trait IndexKey: Sized {
    /// The bytes that stand for the key.
    spec fn key_bytes(&self) -> Seq<u8>;

    /// The key the bytes stand for; `None` where they stand for no key.
    fn from_key_bytes(bytes: Vec<u8>) -> (r: Option<Self>)
        ensures
            r matches Some(k) ==> k.key_bytes() == bytes@,
    ;

    /// The key held in the data of an index unit.
    fn from_index_unit(unit: IndexDataUnit) -> (r: Option<Self>)
        ensures
            r matches Some(k) ==> k.key_bytes() == unit.data@,
    ;

    /// The bytes of the key, from which `from_key_bytes` gives it back.
    fn into_key_bytes(self) -> (r: Vec<u8>)
        ensures
            r@ == self.key_bytes(),
    ;
}

impl IndexKey for StringIndexKey {
    /// The UTF-8 encoding of the key's text.
    open spec fn key_bytes(&self) -> Seq<u8> {
        utf8_bytes(self.0@)
    }

    fn from_key_bytes(bytes: Vec<u8>) -> (r: Option<Self>)
        ensures
            r is None <==> utf8_text(bytes@) is None,
            r matches Some(k) ==> utf8_text(bytes@) == Some(k.0@),
    {
        Self::try_from_bytes(bytes)
    }

    fn from_index_unit(unit: IndexDataUnit) -> (r: Option<Self>)
        ensures
            r is None <==> utf8_text(unit.data@) is None,
            r matches Some(k) ==> utf8_text(unit.data@) == Some(k.0@),
    {
        Self::try_from_unit(unit)
    }

    fn into_key_bytes(self) -> (r: Vec<u8>)
        ensures
            utf8_text(r@) == Some(self.0@),
    {
        self.into_bytes()
    }
}

} // verus!
