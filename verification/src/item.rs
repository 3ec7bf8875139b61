use crate::error::Error;
use crate::text;
use crate::util;
use vstd::prelude::*;
use vstd::string::StringSliceAdditionalSpecFns;
use vstd::utf8::{decode_utf8, encode_utf8, is_ascii_chars, valid_utf8};

verus! {

/// Represents an APE tag item type, held in bits 2..1 of the item's flags.
#[derive(Clone, Copy, Debug, PartialEq, Eq, Structural)]
pub enum ItemType {
    /// Item contains binary information.
    Binary,
    /// Item is a locator of external stored information.
    Locator,
    /// Item contains text information coded in UTF-8.
    Text,
}

/// The two-bit code of an item type, as stored in an item's flags.
pub open spec fn type_code(t: ItemType) -> u32 {
    match t {
        ItemType::Binary => 1u32,
        ItemType::Locator => 2u32,
        ItemType::Text => 0u32,
    }
}

impl ItemType {
    /// Decodes an item type from the flags of an item record.
    pub fn from_flags(item_flags: u32) -> (r: Result<ItemType, Error>)
        ensures
            ({
                let code = (item_flags & 6) >> 1;
                &&& code == 0 ==> r == Ok::<ItemType, Error>(ItemType::Text)
                &&& code == 1 ==> r == Ok::<ItemType, Error>(ItemType::Binary)
                &&& code == 2 ==> r == Ok::<ItemType, Error>(ItemType::Locator)
                &&& code >= 3 ==> r == Err::<ItemType, Error>(Error::InvalidItemType(code))
            }),
    {
        let code = (item_flags & 6) >> 1;
        match code {
            1 => Ok(Self::Binary),
            2 => Ok(Self::Locator),
            0 => Ok(Self::Text),
            _ => Err(Error::InvalidItemType(code)),
        }
    }

    /// Returns the two-bit code of this item type.
    pub fn as_u32(&self) -> (r: u32)
        ensures
            r == type_code(*self),
    {
        match self {
            Self::Binary => 1u32,
            Self::Locator => 2u32,
            Self::Text => 0u32,
        }
    }
}

/// The mathematical content of an `Item`: its key characters, its type and
/// its raw value bytes.
pub ghost struct ItemModel {
    /// The key, as characters.
    pub key: Seq<char>,
    /// The item type.
    pub ty: ItemType,
    /// The raw value bytes.
    pub value: Seq<u8>,
}

/// The UTF-8 bytes of an item's key.
pub open spec fn key_bytes(m: ItemModel) -> Seq<u8> {
    encode_utf8(m.key)
}

/// A key that may not be used for an item: it would collide with another
/// metadata format's signature.
pub open spec fn denied_key(kb: Seq<u8>) -> bool {
    ||| kb == seq![0x49u8, 0x44u8, 0x33u8]
    ||| kb == seq![0x54u8, 0x41u8, 0x47u8]
    ||| kb == seq![0x4fu8, 0x67u8, 0x67u8, 0x53u8]
    ||| kb == seq![0x4du8, 0x50u8, 0x2bu8]
}

/// What `Item::new` accepts: a key of 2 to 255 bytes, not denied, all
/// ASCII.
pub open spec fn acceptable_key(key: Seq<char>) -> bool {
    &&& 2 <= encode_utf8(key).len() <= 255
    &&& !denied_key(encode_utf8(key))
    &&& is_ascii_chars(key)
}

/// The on-disk form of one item record: value length, flags, the
/// NUL-terminated key, then the raw value bytes.
pub open spec fn encoded_item(m: ItemModel) -> Seq<u8> {
    util::le32_bytes(m.value.len() as u32) + util::le32_bytes(type_code(m.ty) << 1) + key_bytes(m)
        + seq![0u8] + m.value
}

/// An item that every operation of this crate round-trips: an acceptable
/// key without NUL bytes and a value whose length fits the record's 32-bit
/// length field.
pub open spec fn wf_item(m: ItemModel) -> bool {
    &&& acceptable_key(m.key)
    &&& forall|i: int| 0 <= i < key_bytes(m).len() ==> key_bytes(m)[i] != 0
    &&& m.value.len() <= u32::MAX
}

/// An item value split at its NUL separators, from `pos` on: each maximal
/// run between separators, the trailing run (possibly empty) included.
pub open spec fn split_nul_from(v: Seq<u8>, pos: int) -> Seq<Seq<u8>>
    decreases v.len() - pos,
    via split_nul_from_decreases
{
    if pos < 0 || pos > v.len() {
        Seq::empty()
    } else {
        let q = util::find_nul(v, pos);
        if q >= v.len() {
            seq![v.subrange(pos, v.len() as int)]
        } else {
            seq![v.subrange(pos, q)] + split_nul_from(v, q + 1)
        }
    }
}

#[via_fn]
proof fn split_nul_from_decreases(v: Seq<u8>, pos: int) {
    if !(pos < 0 || pos > v.len()) {
        util::lemma_find_nul(v, pos);
    }
}

/// A scan that stopped on a NUL pins the next piece.
proof fn lemma_scan_nul(v: Seq<u8>, start: int, i: int)
    requires
        0 <= start <= i < v.len(),
        forall|j: int| start <= j < i ==> #[trigger] v[j] != 0,
        v[i] == 0,
    ensures
        util::find_nul(v, start) == i,
        split_nul_from(v, start) == seq![v.subrange(start, i)] + split_nul_from(v, i + 1),
{
    util::lemma_find_nul(v, start);
    let fq = util::find_nul(v, start);
    if fq < i {
        assert(v[fq] != 0);
    }
    if fq > i {
        assert(v[i] != 0);
    }
}

/// A scan that ran to the end pins the trailing piece.
proof fn lemma_scan_nul_end(v: Seq<u8>, start: int)
    requires
        0 <= start <= v.len(),
        forall|j: int| start <= j < v.len() ==> #[trigger] v[j] != 0,
    ensures
        util::find_nul(v, start) == v.len(),
        split_nul_from(v, start) == seq![v.subrange(start, v.len() as int)],
{
    util::lemma_find_nul(v, start);
    let fq = util::find_nul(v, start);
    if fq < v.len() {
        assert(v[fq] != 0);
    }
}

/// Represents an APE tag item: one key/value metadata entry.
#[derive(Clone, Debug)]
pub struct Item {
    /// Item key for accessing special meta-information in an audio file.
    ///
    /// APE tag item keys can have a length of 2 (including) up to 255
    /// (including) bytes in the range from 0x20 (Space) until 0x7E (Tilde).
    /// Not allowed are the following keys: ID3, TAG, OggS and MP+.
    pub key: String,
    item_type: ItemType,
    item_value: Vec<u8>,
}

impl View for Item {
    type V = ItemModel;

    closed spec fn view(&self) -> ItemModel {
        ItemModel { key: self.key@, ty: self.item_type, value: self.item_value@ }
    }
}

impl Item {
    /// Creates a new `Item`, validating the key: its byte length must lie
    /// between 2 and 255, it must not be one of the denied keys, and it
    /// must be ASCII.
    pub fn new(key: String, item_type: ItemType, item_value: Vec<u8>) -> (r: Result<Item, Error>)
        ensures
            ({
                let kb = encode_utf8(key@);
                &&& !(2 <= kb.len() <= 255) ==> r == Err::<Item, Error>(Error::InvalidItemKeyLen)
                &&& 2 <= kb.len() <= 255 && denied_key(kb) ==> r == Err::<Item, Error>(
                    Error::ItemKeyDenied,
                )
                &&& 2 <= kb.len() <= 255 && !denied_key(kb) && !is_ascii_chars(key@) ==> r
                    == Err::<Item, Error>(Error::InvalidItemKeyValue)
                &&& acceptable_key(key@) ==> (r matches Ok(item) && item@ == (ItemModel {
                    key: key@,
                    ty: item_type,
                    value: item_value@,
                }))
            }),
    {
        let len = key.as_str().as_bytes().len();
        if len < 2 || len > 255 {
            return Err(Error::InvalidItemKeyLen);
        }
        if Self::key_denied(key.as_str()) {
            return Err(Error::ItemKeyDenied);
        }
        if !key.as_str().is_ascii() {
            return Err(Error::InvalidItemKeyValue);
        }
        Ok(Item { key, item_type, item_value })
    }

    /// Whether the key is one of the denied keys.
    fn key_denied(key: &str) -> (r: bool)
        ensures
            r == denied_key(encode_utf8(key@)),
    {
        let kb = key.as_bytes();
        let mut pat: Vec<u8> = Vec::new();
        pat.push(0x49u8);
        pat.push(0x44u8);
        pat.push(0x33u8);
        proof {
            assert(pat@ =~= seq![0x49u8, 0x44u8, 0x33u8]);
        }
        if util::slice_eq_bytes(kb, &pat) {
            return true;
        }
        let mut pat: Vec<u8> = Vec::new();
        pat.push(0x54u8);
        pat.push(0x41u8);
        pat.push(0x47u8);
        proof {
            assert(pat@ =~= seq![0x54u8, 0x41u8, 0x47u8]);
        }
        if util::slice_eq_bytes(kb, &pat) {
            return true;
        }
        let mut pat: Vec<u8> = Vec::new();
        pat.push(0x4fu8);
        pat.push(0x67u8);
        pat.push(0x67u8);
        pat.push(0x53u8);
        proof {
            assert(pat@ =~= seq![0x4fu8, 0x67u8, 0x67u8, 0x53u8]);
        }
        if util::slice_eq_bytes(kb, &pat) {
            return true;
        }
        let mut pat: Vec<u8> = Vec::new();
        pat.push(0x4du8);
        pat.push(0x50u8);
        pat.push(0x2bu8);
        proof {
            assert(pat@ =~= seq![0x4du8, 0x50u8, 0x2bu8]);
        }
        util::slice_eq_bytes(kb, &pat)
    }

    /// The key, as a string slice.
    pub fn key_str(&self) -> (r: &str)
        ensures
            r@ == self@.key,
    {
        self.key.as_str()
    }

    /// Returns a type of the item.
    pub fn get_type(&self) -> (r: ItemType)
        ensures
            r == self@.ty,
    {
        self.item_type
    }

    /// Adds a new value separated by `\0`.
    pub fn add_value(&mut self, value: &[u8])
        ensures
            final(self)@.key == old(self)@.key,
            final(self)@.ty == old(self)@.ty,
            final(self)@.value == old(self)@.value + seq![0u8] + value@,
    {
        self.item_value.push(0);
        util::push_bytes(&mut self.item_value, value);
        proof {
            assert(self@.value =~= old(self)@.value + seq![0u8] + value@);
        }
    }

    /// Replaces a type.
    pub fn with_type(self, item_type: ItemType) -> (r: Self)
        ensures
            r@.key == self@.key,
            r@.ty == item_type,
            r@.value == self@.value,
    {
        Item { item_type, ..self }
    }

    /// Replaces a value.
    pub fn with_value(self, value: Vec<u8>) -> (r: Self)
        ensures
            r@.key == self@.key,
            r@.ty == self@.ty,
            r@.value == value@,
    {
        Item { item_value: value, ..self }
    }

    /// The raw value bytes, copied.
    pub fn value_bytes(&self) -> (r: Vec<u8>)
        ensures
            r@ == self@.value,
    {
        util::copy_bytes(&self.item_value)
    }

    /// The value as a UTF-8 string slice.  A binary item cannot be read as
    /// text; a text or locator value that is not UTF-8 is a value error.
    pub fn value_str(&self) -> (r: Result<&str, Error>)
        ensures
            self@.ty == ItemType::Binary ==> r == Err::<&str, Error>(Error::ParseItemBinary),
            self@.ty != ItemType::Binary && valid_utf8(self@.value) ==> (r matches Ok(s) && s@
                == decode_utf8(self@.value)),
            self@.ty != ItemType::Binary && !valid_utf8(self@.value) ==> (r matches Err(
                Error::ParseItemValue(_),
            )),
    {
        if self.item_type == ItemType::Binary {
            return Err(Error::ParseItemBinary);
        }
        match text::bytes_to_str(self.item_value.as_slice()) {
            Ok(s) => Ok(s),
            Err(e) => Err(Error::ParseItemValue(e)),
        }
    }

    /// The value as an owned UTF-8 string, under the same rules as
    /// `value_str`.
    pub fn value_string(&self) -> (r: Result<String, Error>)
        ensures
            self@.ty == ItemType::Binary ==> (r matches Err(Error::ParseItemBinary)),
            self@.ty != ItemType::Binary && valid_utf8(self@.value) ==> (r matches Ok(s) && s@
                == decode_utf8(self@.value)),
            self@.ty != ItemType::Binary && !valid_utf8(self@.value) ==> (r matches Err(
                Error::ParseItemValue(_),
            )),
    {
        match self.value_str() {
            Ok(s) => Ok(<String as vstd::string::StringExecFns>::from_str(s)),
            Err(e) => Err(e),
        }
    }

    /// The value split at its NUL separators, each piece as an owned UTF-8
    /// string.  A binary item cannot be read as text; a piece that is not
    /// UTF-8 is a value error.
    pub fn value_strings(&self) -> (r: Result<Vec<String>, Error>)
        ensures
            self@.ty == ItemType::Binary ==> (r matches Err(Error::ParseItemBinary)),
            self@.ty != ItemType::Binary ==> {
                let parts = split_nul_from(self@.value, 0);
                &&& (forall|i: int| 0 <= i < parts.len() ==> valid_utf8(#[trigger] parts[i]))
                    ==> (r matches Ok(vs) && vs@.len() == parts.len() && forall|i: int|
                    0 <= i < parts.len() ==> (#[trigger] vs@[i])@ == decode_utf8(parts[i]))
                &&& !(forall|i: int| 0 <= i < parts.len() ==> valid_utf8(#[trigger] parts[i]))
                    ==> (r matches Err(Error::ParseItemValue(_)))
            },
    {
        if self.item_type == ItemType::Binary {
            return Err(Error::ParseItemBinary);
        }
        let v = &self.item_value;
        let n: usize = v.len();
        let ghost parts = split_nul_from(v@, 0);
        let mut out: Vec<String> = Vec::new();
        let mut start: usize = 0;
        let mut i: usize = 0;
        proof {
            assert(parts.take(0) =~= Seq::<Seq<u8>>::empty());
            assert(parts =~= parts.take(0) + split_nul_from(v@, 0));
        }
        while i < n
            invariant
                self@.ty != ItemType::Binary,
                v@ == self@.value,
                parts == split_nul_from(v@, 0),
                n == v@.len(),
                0 <= start <= i <= n,
                forall|j: int| start <= j < i ==> #[trigger] v@[j] != 0,
                out@.len() <= parts.len(),
                parts == parts.take(out@.len() as int) + split_nul_from(v@, start as int),
                forall|j: int|
                    0 <= j < out@.len() ==> valid_utf8(#[trigger] parts[j]) && out@[j]@
                        == decode_utf8(parts[j]),
            decreases n - i,
        {
            if v[i] == 0 {
                proof {
                    lemma_scan_nul(v@, start as int, i as int);
                }
                let piece = util::copy_range(v, start, i);
                let s = match text::bytes_to_str(piece.as_slice()) {
                    Ok(s) => <String as vstd::string::StringExecFns>::from_str(s),
                    Err(e) => {
                        proof {
                            let k = out@.len() as int;
                            assert(parts[k] == v@.subrange(start as int, i as int));
                            assert(!valid_utf8(parts[k]));
                            assert(0 <= k < parts.len());
                            assert(!(forall|i2: int|
                                0 <= i2 < parts.len() ==> valid_utf8(#[trigger] parts[i2])));
                        }
                        return Err(Error::ParseItemValue(e));
                    },
                };
                let ghost k = out@.len() as int;
                out.push(s);
                proof {
                    assert(parts[k] == v@.subrange(start as int, i as int));
                    assert(parts.take(k + 1) =~= parts.take(k).push(parts[k]));
                    assert(parts =~= parts.take(k + 1) + split_nul_from(v@, i + 1));
                }
                start = i + 1;
            }
            i += 1;
        }
        proof {
            lemma_scan_nul_end(v@, start as int);
        }
        let piece = util::copy_range(v, start, n);
        let s = match text::bytes_to_str(piece.as_slice()) {
            Ok(s) => <String as vstd::string::StringExecFns>::from_str(s),
            Err(e) => {
                proof {
                    let k = out@.len() as int;
                    assert(parts[k] == v@.subrange(start as int, n as int));
                    assert(!valid_utf8(parts[k]));
                    assert(0 <= k < parts.len());
                    assert(!(forall|i2: int|
                        0 <= i2 < parts.len() ==> valid_utf8(#[trigger] parts[i2])));
                }
                return Err(Error::ParseItemValue(e));
            },
        };
        let ghost k = out@.len() as int;
        out.push(s);
        proof {
            assert(parts[k] == v@.subrange(start as int, n as int));
            assert(parts.len() == k + 1);
            assert(parts.take(parts.len() as int) =~= parts);
            assert forall|i2: int| 0 <= i2 < parts.len() implies valid_utf8(#[trigger] parts[i2])
                && out@[i2]@ == decode_utf8(parts[i2]) by {}
        }
        Ok(out)
    }

    /// Creates a representation of the item suitable for writing to a
    /// file.  A value too long for the record's 32-bit length field cannot
    /// be encoded.
    pub fn to_vec(&self) -> (r: Result<Vec<u8>, Error>)
        ensures
            self@.value.len() <= u32::MAX ==> (r matches Ok(v) && v@ == encoded_item(self@)),
            self@.value.len() > u32::MAX ==> r == Err::<Vec<u8>, Error>(Error::InvalidTagSize),
    {
        if self.item_value.len() as u64 > u32::MAX as u64 {
            return Err(Error::InvalidTagSize);
        }
        let mut out: Vec<u8> = Vec::new();
        util::push_le_u32(&mut out, self.item_value.len() as u32);
        util::push_le_u32(&mut out, self.item_type.as_u32() << 1);
        util::push_bytes(&mut out, self.key.as_str().as_bytes());
        out.push(0u8);
        util::push_bytes(&mut out, self.item_value.as_slice());
        proof {
            assert(out@ =~= encoded_item(self@));
        }
        Ok(out)
    }
}

} // verus!
