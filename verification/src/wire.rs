//! Binary transaction wire. A flat operation stream; props and values are a
//! self-describing tree of tagged values with map keys interned into a table
//! at the end of the buffer. Strings are borrowed from the buffer.
use vstd::prelude::*;
use vstd::utf8::*;
use vstd::string::StringSliceAdditionalSpecFns;
use crate::decode::{resolve_style, style_at};
use crate::text::{decimal, decimal_string};

verus! {

broadcast use vstd::utf8::group_utf8_lib, vstd::string::group_string_axioms;

/// Tag of an explicit null value.
pub const T_NULL: u8 = 0;
/// Tag of `false`.
pub const T_FALSE: u8 = 1;
/// Tag of `true`.
pub const T_TRUE: u8 = 2;
/// Tag of a 4-byte signed integer.
pub const T_INT: u8 = 3;
/// Tag of an 8-byte float.
pub const T_F64: u8 = 4;
/// Tag of a length-prefixed UTF-8 string.
pub const T_STR: u8 = 5;
/// Tag of an array: a 4-byte count, then the elements.
pub const T_ARR: u8 = 6;
/// Tag of a map: a 2-byte count, then key index and value pairs.
pub const T_MAP: u8 = 7;
/// `u32` sentinel for an absent or null id.
pub const NONE: u32 = 0xFFFF_FFFF;
/// `u32` sentinel for an explicit null where absent is also possible.
pub const NULL: u32 = 0xFFFF_FFFE;

/// Why a wire buffer was rejected.
#[derive(Clone, Debug, PartialEq, Eq)]
pub enum ErrorKind {
    /// A read ran past the end of the operation stream.
    Short,
    /// The trailer points outside the buffer.
    KeyTableOutOfRange,
    /// Bytes follow the last key of the key table.
    KeyTableTrailing,
    /// A string is not valid UTF-8.
    NotUtf8,
    /// A map key index is past the key table.
    KeyIndexOutOfRange,
    /// A value starts with a tag this wire does not define.
    UnknownTag(u8),
    /// An enum encoded as a map holds other than one entry.
    EnumEntries,
    /// An enum is neither a string nor a map.
    EnumShape,
    /// A positional enum field is not a string field.
    EnumField,
    /// A props schema and the field list it is checked against disagree.
    FieldsDiffer,
    /// A props schema lists fields for a type that reads no struct.
    FieldsWithoutStruct,
    /// A style field names an id with no definition in the session.
    UnknownStyle(u32),
}

/// A wire decoding error.
#[derive(Clone, Debug, PartialEq, Eq)]
pub struct Error {
    pub kind: ErrorKind,
}

impl Error {
    /// The error with the given kind.
    pub fn new(kind: ErrorKind) -> (e: Error)
        ensures
            e.kind == kind,
    {
        Error { kind }
    }

    /// The human-readable message of this error.
    pub fn message(&self) -> (m: String)
        ensures
            m@ == match self.kind {
                ErrorKind::Short => "wire ends early"@,
                ErrorKind::KeyTableOutOfRange => "wire key table is out of range"@,
                ErrorKind::KeyTableTrailing => "wire key table has trailing bytes"@,
                ErrorKind::NotUtf8 => "wire string is not UTF-8"@,
                ErrorKind::KeyIndexOutOfRange => "wire key index is out of range"@,
                ErrorKind::UnknownTag(_) => "unknown wire value tag"@,
                ErrorKind::EnumEntries => "enum map must have one entry"@,
                ErrorKind::EnumShape => "expected a string or map for an enum"@,
                ErrorKind::EnumField => "expected a string field for an enum"@,
                ErrorKind::FieldsDiffer => "ComponentProps fields differ from serde fields"@,
                ErrorKind::FieldsWithoutStruct => "ComponentProps lists fields but serde does not deserialize a struct"@,
                ErrorKind::UnknownStyle(id) => "unknown style "@ + decimal(id as nat),
            },
    {
        match &self.kind {
            ErrorKind::Short => "wire ends early".to_string(),
            ErrorKind::KeyTableOutOfRange => "wire key table is out of range".to_string(),
            ErrorKind::KeyTableTrailing => "wire key table has trailing bytes".to_string(),
            ErrorKind::NotUtf8 => "wire string is not UTF-8".to_string(),
            ErrorKind::KeyIndexOutOfRange => "wire key index is out of range".to_string(),
            ErrorKind::UnknownTag(_) => "unknown wire value tag".to_string(),
            ErrorKind::EnumEntries => "enum map must have one entry".to_string(),
            ErrorKind::EnumShape => "expected a string or map for an enum".to_string(),
            ErrorKind::EnumField => "expected a string field for an enum".to_string(),
            ErrorKind::FieldsDiffer => "ComponentProps fields differ from serde fields".to_string(),
            ErrorKind::FieldsWithoutStruct => "ComponentProps lists fields but serde does not deserialize a struct".to_string(),
            ErrorKind::UnknownStyle(id) => {
                let mut m = "unknown style ".to_string();
                let digits = decimal_string(*id as u64);
                m.append(digits.as_str());
                m
            },
        }
    }
}

fn short() -> (e: Error)
    ensures
        e.kind == ErrorKind::Short,
{
    Error { kind: ErrorKind::Short }
}

/// Little-endian value of the two bytes at `i`.
pub open spec fn le16(s: Seq<u8>, i: int) -> int {
    s[i] as int + 256 * (s[i + 1] as int)
}

/// Little-endian value of the four bytes at `i`.
pub open spec fn le32(s: Seq<u8>, i: int) -> int {
    s[i] as int + 256 * (s[i + 1] as int) + 65536 * (s[i + 2] as int) + 16777216 * (
    s[i + 3] as int)
}

/// Little-endian value of the eight bytes at `i`.
pub open spec fn le64(s: Seq<u8>, i: int) -> int {
    le32(s, i) + 4294967296 * le32(s, i + 4)
}

/// The signed reading of a 32-bit pattern.
pub open spec fn signed32(v: int) -> int {
    if v < 0x8000_0000 {
        v
    } else {
        v - 0x1_0000_0000
    }
}

/// The length-prefixed string at `at`, read within `end`: its characters and
/// the position after it.
pub open spec fn spec_str(data: Seq<u8>, at: int, end: int) -> Option<(Seq<char>, int)> {
    if at + 4 > end {
        None
    } else {
        let len = le32(data, at);
        if at + 4 + len > end {
            None
        } else {
            let b = data.subrange(at + 4, at + 4 + len);
            if valid_utf8(b) {
                Some((decode_utf8(b), at + 4 + len))
            } else {
                None
            }
        }
    }
}

/// The four little-endian bytes of `n`, most significant last.
pub open spec fn le_bytes(n: int) -> Seq<u8> {
    seq![(n % 256) as u8, ((n / 256) % 256) as u8, ((n / 65536) % 256) as u8, ((n / 16777216) % 256) as u8]
}

/// Four little-endian bytes read back the number they were written from.
pub proof fn lemma_le32_of(data: Seq<u8>, at: int, n: int)
    requires
        0 <= n < 0x1_0000_0000,
        0 <= at,
        at + 4 <= data.len(),
        data.subrange(at, at + 4) == le_bytes(n),
    ensures
        le32(data, at) == n,
{
    assert(data[at] == data.subrange(at, at + 4)[0]);
    assert(data[at + 1] == data.subrange(at, at + 4)[1]);
    assert(data[at + 2] == data.subrange(at, at + 4)[2]);
    assert(data[at + 3] == data.subrange(at, at + 4)[3]);
    assert(n % 256 + 256 * ((n / 256) % 256) + 65536 * ((n / 65536) % 256) + 16777216 * ((n / 16777216) % 256) == n)
        by (nonlinear_arith)
        requires
            0 <= n < 0x1_0000_0000,
    ;
}

/// A string written as the little-endian length of its UTF-8 encoding and
/// then that encoding reads back as the same characters, ending just after
/// its bytes.
pub proof fn lemma_str_round_trip(data: Seq<u8>, at: int, end: int, s: Seq<char>)
    requires
        0 <= at,
        encode_utf8(s).len() < 0x1_0000_0000,
        at + 4 + encode_utf8(s).len() <= end <= data.len(),
        data.subrange(at, at + 4) == le_bytes(encode_utf8(s).len() as int),
        data.subrange(at + 4, at + 4 + encode_utf8(s).len()) == encode_utf8(s),
    ensures
        spec_str(data, at, end) == Some((s, at + 4 + encode_utf8(s).len())),
{
    lemma_le32_of(data, at, encode_utf8(s).len() as int);
    encode_utf8_valid_utf8(s);
    encode_utf8_decode_utf8(s);
}

/// `count` consecutive strings from `at`: the keys and the position after them.
pub open spec fn spec_keys(data: Seq<u8>, at: int, end: int, count: nat) -> Option<
    (Seq<Seq<char>>, int),
>
    decreases count,
{
    if count == 0 {
        Some((Seq::empty(), at))
    } else {
        match spec_keys(data, at, end, (count - 1) as nat) {
            Some((keys, p)) => match spec_str(data, p, end) {
                Some((k, q)) => Some((keys.push(k), q)),
                None => None,
            },
            None => None,
        }
    }
}

/// How a whole buffer splits: the operation stream ends at the returned table
/// offset, the key table fills the bytes up to the 4-byte trailer exactly.
pub open spec fn wire_layout(b: Seq<u8>) -> Option<(int, Seq<Seq<char>>)> {
    if b.len() < 4 {
        None
    } else {
        let n = b.len() - 4;
        let table = le32(b, n);
        let data = b.subrange(0, n);
        if table + 2 > n {
            None
        } else {
            match spec_keys(data, table + 2, n, le16(data, table) as nat) {
                Some((keys, p)) => if p == n {
                    Some((table, keys))
                } else {
                    None
                },
                None => None,
            }
        }
    }
}

proof fn lemma_keys_none_stays(data: Seq<u8>, at: int, end: int, i: nat, count: nat)
    requires
        i <= count,
        spec_keys(data, at, end, i) is None,
    ensures
        spec_keys(data, at, end, count) is None,
    decreases count - i,
{
    if i < count {
        lemma_keys_none_stays(data, at, end, (i + 1) as nat, count);
    }
}

fn read_le16(b: &[u8]) -> (r: u16)
    requires
        b@.len() == 2,
    ensures
        r as int == le16(b@, 0),
{
    (b[0] as u16) + (b[1] as u16) * 256
}

fn read_le32(b: &[u8]) -> (r: u32)
    requires
        b@.len() == 4,
    ensures
        r as int == le32(b@, 0),
{
    (b[0] as u32) + (b[1] as u32) * 256 + (b[2] as u32) * 65536 + (b[3] as u32) * 16777216
}

fn read_le64(b: &[u8]) -> (r: u64)
    requires
        b@.len() == 8,
    ensures
        r as int == le64(b@, 0),
{
    let lo = (b[0] as u64) + (b[1] as u64) * 256 + (b[2] as u64) * 65536 + (b[3] as u64)
        * 16777216;
    let hi = (b[4] as u64) + (b[5] as u64) * 256 + (b[6] as u64) * 65536 + (b[7] as u64)
        * 16777216;
    assert(hi * 4294967296 <= 0xffff_ffff * 4294967296) by (nonlinear_arith)
        requires
            hi <= 0xffff_ffff,
    ;
    lo + hi * 4294967296
}

/// A cursor over the operation stream of one wire buffer, with its key table.
pub struct Reader<'de> {
    bytes: &'de [u8],
    at: usize,
    /// Where the key table starts; the operation stream ends here.
    end: usize,
    keys: Vec<&'de str>,
}

impl<'de> Reader<'de> {
    #[verifier::type_invariant]
    spec fn inv(self) -> bool {
        self.at <= self.end <= self.bytes@.len()
    }

    /// The buffer without its trailer.
    pub closed spec fn data(&self) -> Seq<u8> {
        self.bytes@
    }

    /// The read position.
    pub closed spec fn pos(&self) -> int {
        self.at as int
    }

    /// Where the readable stream ends.
    pub closed spec fn limit(&self) -> int {
        self.end as int
    }

    /// The interned map keys.
    pub closed spec fn keys(&self) -> Seq<Seq<char>> {
        self.keys@.map_values(|k: &str| k@)
    }

    /// Two readers over the same stream and keys.
    pub open spec fn same_source(&self, other: &Reader<'de>) -> bool {
        &&& self.data() == other.data()
        &&& self.limit() == other.limit()
        &&& self.keys() == other.keys()
    }

    /// `self` is `old` moved to `pos`.
    pub open spec fn moved(&self, old: &Reader<'de>, pos: int) -> bool {
        self.same_source(old) && self.pos() == pos
    }

    /// Reads the key table from the trailer and positions at the first byte.
    pub fn new(bytes: &'de [u8]) -> (r: Result<Self, Error>)
        ensures
            match r {
                Ok(reader) => wire_layout(bytes@) matches Some((table, keys)) && reader.data()
                    == bytes@.subrange(0, bytes@.len() - 4) && reader.pos() == 0
                    && reader.limit() == table && reader.keys() == keys,
                Err(e) => wire_layout(bytes@) is None && (bytes@.len() < 4 ==> e.kind
                    == ErrorKind::Short),
            },
    {
        let n = bytes.len();
        if n < 4 {
            return Err(short());
        }
        let table = read_le32(&bytes[n - 4..n]);
        assert(bytes@.subrange(n - 4, n as int)[0] == bytes@[n - 4]);
        assert(bytes@.subrange(n - 4, n as int)[1] == bytes@[n - 3]);
        assert(bytes@.subrange(n - 4, n as int)[2] == bytes@[n - 2]);
        assert(bytes@.subrange(n - 4, n as int)[3] == bytes@[n - 1]);
        if table as u64 + 2 > (n - 4) as u64 {
            return Err(Error { kind: ErrorKind::KeyTableOutOfRange });
        }
        let table = table as usize;
        let data = &bytes[0..n - 4];
        let ghost d = data@;
        let mut reader = Reader { bytes: data, at: table, end: n - 4, keys: Vec::new() };
        let count = match reader.u16() {
            Ok(c) => c,
            Err(e) => {
                return Err(e);
            },
        };
        let mut keys: Vec<&'de str> = Vec::new();
        let ghost empty = reader.keys();
        assert(keys@.map_values(|k: &str| k@) =~= Seq::<Seq<char>>::empty());
        let mut i: u16 = 0;
        while i < count
            invariant
                reader.data() == d,
                reader.limit() == n - 4,
                reader.keys() == empty,
                d == bytes@.subrange(0, n - 4),
                i <= count,
                count as int == le16(d, table as int),
                table + 2 <= n - 4,
                n == bytes@.len(),
                table as int == le32(bytes@, n - 4),
                spec_keys(d, table + 2, n - 4, i as nat) == Some(
                    (keys@.map_values(|k: &str| k@), reader.pos()),
                ),
            decreases count - i,
        {
            let ghost before = keys@.map_values(|k: &str| k@);
            match reader.str() {
                Ok(key) => {
                    keys.push(key);
                    assert(keys@.map_values(|k: &str| k@) =~= before.push(key@));
                },
                Err(e) => {
                    proof {
                        assert(spec_keys(d, table + 2, n - 4, (i + 1) as nat) is None);
                        lemma_keys_none_stays(d, table + 2, n - 4, (i + 1) as nat, count as nat);
                        assert(wire_layout(bytes@) is None);
                    }
                    return Err(e);
                },
            }
            i = i + 1;
        }
        if !reader.finished() {
            return Err(Error { kind: ErrorKind::KeyTableTrailing });
        }
        Ok(Reader { bytes: data, at: 0, end: table, keys })
    }

    /// True when the operation stream has been consumed exactly.
    pub fn finished(&self) -> (b: bool)
        ensures
            b == (self.pos() == self.limit()),
    {
        self.at == self.end
    }

    /// The next `n` bytes, advancing past them.
    pub fn take(&mut self, n: usize) -> (r: Result<&'de [u8], Error>)
        ensures
            old(self).pos() + n <= old(self).limit() ==> (r matches Ok(s) && s@ == old(
                self,
            ).data().subrange(old(self).pos(), old(self).pos() + n) && final(self).moved(
                &*old(self),
                old(self).pos() + n,
            )),
            old(self).pos() + n > old(self).limit() ==> (r matches Err(e) && e.kind
                == ErrorKind::Short && *final(self) == *old(self)),
            r matches Ok(s) ==> s@.len() == n,
            old(self).limit() <= old(self).data().len(),
    {
        proof {
            use_type_invariant(&*self);
        }
        let end = match self.at.checked_add(n) {
            Some(end) => end,
            None => {
                return Err(short());
            },
        };
        if end > self.end {
            return Err(short());
        }
        let slice = &self.bytes[self.at..end];
        self.at = end;
        Ok(slice)
    }

    /// The next byte.
    pub fn u8(&mut self) -> (r: Result<u8, Error>)
        ensures
            old(self).pos() + 1 <= old(self).limit() ==> (r matches Ok(v) && v == old(
                self,
            ).data()[old(self).pos()] && final(self).moved(&*old(self), old(self).pos() + 1)),
            old(self).pos() + 1 > old(self).limit() ==> (r matches Err(e) && e.kind
                == ErrorKind::Short && *final(self) == *old(self)),
    {
        let b = self.take(1)?;
        Ok(b[0])
    }

    /// The next two bytes, little-endian.
    pub fn u16(&mut self) -> (r: Result<u16, Error>)
        ensures
            old(self).pos() + 2 <= old(self).limit() ==> (r matches Ok(v) && v as int == le16(
                old(self).data(),
                old(self).pos(),
            ) && final(self).moved(&*old(self), old(self).pos() + 2)),
            old(self).pos() + 2 > old(self).limit() ==> (r matches Err(e) && e.kind
                == ErrorKind::Short && *final(self) == *old(self)),
    {
        let b = self.take(2)?;
        Ok(read_le16(b))
    }

    /// The next four bytes, little-endian.
    pub fn u32(&mut self) -> (r: Result<u32, Error>)
        ensures
            old(self).pos() + 4 <= old(self).limit() ==> (r matches Ok(v) && v as int == le32(
                old(self).data(),
                old(self).pos(),
            ) && final(self).moved(&*old(self), old(self).pos() + 4)),
            old(self).pos() + 4 > old(self).limit() ==> (r matches Err(e) && e.kind
                == ErrorKind::Short && *final(self) == *old(self)),
    {
        let b = self.take(4)?;
        Ok(read_le32(b))
    }

    /// The next four bytes as a little-endian two's complement integer.
    pub fn i32(&mut self) -> (r: Result<i32, Error>)
        ensures
            old(self).pos() + 4 <= old(self).limit() ==> (r matches Ok(v) && v as int
                == signed32(le32(old(self).data(), old(self).pos())) && final(self).moved(
                &*old(self),
                old(self).pos() + 4,
            )),
            old(self).pos() + 4 > old(self).limit() ==> (r matches Err(e) && e.kind
                == ErrorKind::Short && *final(self) == *old(self)),
    {
        let v = self.u32()?;
        if v < 0x8000_0000 {
            Ok(v as i32)
        } else {
            let below: u32 = v - 0x8000_0000;
            Ok((below as i32) - 0x4000_0000 - 0x4000_0000)
        }
    }

    /// The bit pattern of the next little-endian single-precision float.
    pub fn f32_bits(&mut self) -> (r: Result<u32, Error>)
        ensures
            old(self).pos() + 4 <= old(self).limit() ==> (r matches Ok(v) && v as int == le32(
                old(self).data(),
                old(self).pos(),
            ) && final(self).moved(&*old(self), old(self).pos() + 4)),
            old(self).pos() + 4 > old(self).limit() ==> (r matches Err(e) && e.kind
                == ErrorKind::Short && *final(self) == *old(self)),
    {
        self.u32()
    }

    /// The bit pattern of the next little-endian double-precision float.
    pub fn f64_bits(&mut self) -> (r: Result<u64, Error>)
        ensures
            old(self).pos() + 8 <= old(self).limit() ==> (r matches Ok(v) && v as int == le64(
                old(self).data(),
                old(self).pos(),
            ) && final(self).moved(&*old(self), old(self).pos() + 8)),
            old(self).pos() + 8 > old(self).limit() ==> (r matches Err(e) && e.kind
                == ErrorKind::Short && *final(self) == *old(self)),
    {
        let b = self.take(8)?;
        Ok(read_le64(b))
    }

    /// A length-prefixed UTF-8 string borrowed from the buffer.
    pub fn str(&mut self) -> (r: Result<&'de str, Error>)
        ensures
            old(self).pos() + 4 > old(self).limit() ==> (r matches Err(e) && e.kind
                == ErrorKind::Short && *final(self) == *old(self)),
            old(self).pos() + 4 <= old(self).limit() && old(self).pos() + 4 + le32(
                old(self).data(),
                old(self).pos(),
            ) > old(self).limit() ==> (r matches Err(e) && e.kind == ErrorKind::Short
                && final(self).moved(&*old(self), old(self).pos() + 4)),
            ({
                let o = old(self);
                let len = le32(o.data(), o.pos());
                let b = o.data().subrange(o.pos() + 4, o.pos() + 4 + len);
                o.pos() + 4 + len <= o.limit() ==> final(self).moved(o, o.pos() + 4 + len) && (
                valid_utf8(b) ==> (r matches Ok(s) && s.spec_bytes() == b && s@ == decode_utf8(
                    b,
                ))) && (!valid_utf8(b) ==> (r matches Err(e) && e.kind == ErrorKind::NotUtf8))
            }),
            r matches Ok(s) ==> spec_str(old(self).data(), old(self).pos(), old(self).limit())
                == Some((s@, final(self).pos())),
            r is Err ==> spec_str(old(self).data(), old(self).pos(), old(self).limit()) is None,
    {
        proof {
            use_type_invariant(&*self);
        }
        let len = self.u32()?;
        let b = self.take(len as usize)?;
        match crate::text::utf8_text(b) {
            Some(s) => {
                proof {
                    decode_utf8_encode_utf8(b@);
                    encode_utf8_decode_utf8(s@);
                }
                Ok(s)
            },
            None => Err(Error { kind: ErrorKind::NotUtf8 }),
        }
    }

    /// A nullable id: `NONE` reads as `None`.
    pub fn id(&mut self) -> (r: Result<Option<u32>, Error>)
        ensures
            old(self).pos() + 4 <= old(self).limit() ==> (r matches Ok(v) && final(self).moved(
                &*old(self),
                old(self).pos() + 4,
            ) && (if le32(old(self).data(), old(self).pos()) == NONE {
                v is None
            } else {
                v == Some(le32(old(self).data(), old(self).pos()) as u32)
            })),
            old(self).pos() + 4 > old(self).limit() ==> (r matches Err(e) && e.kind
                == ErrorKind::Short && *final(self) == *old(self)),
    {
        let v = self.u32()?;
        if v == NONE {
            Ok(None)
        } else {
            Ok(Some(v))
        }
    }

    /// The next byte without consuming it.
    pub fn peek(&self) -> (r: Result<u8, Error>)
        ensures
            self.pos() < self.limit() ==> r == Ok::<u8, Error>(self.data()[self.pos()]),
            self.pos() >= self.limit() ==> (r matches Err(e) && e.kind == ErrorKind::Short),
    {
        proof {
            use_type_invariant(self);
        }
        if self.at < self.end {
            Ok(self.bytes[self.at])
        } else {
            Err(short())
        }
    }

    /// An interned map key by its 2-byte index.
    pub fn key(&mut self) -> (r: Result<&'de str, Error>)
        ensures
            old(self).pos() + 2 > old(self).limit() ==> (r matches Err(e) && e.kind
                == ErrorKind::Short && *final(self) == *old(self)),
            old(self).pos() + 2 <= old(self).limit() ==> final(self).moved(
                &*old(self),
                old(self).pos() + 2,
            ) && ({
                let index = le16(old(self).data(), old(self).pos());
                if index < old(self).keys().len() {
                    r matches Ok(k) && k@ == old(self).keys()[index]
                } else {
                    r matches Err(e) && e.kind == ErrorKind::KeyIndexOutOfRange
                }
            }),
    {
        let index = self.u16()? as usize;
        if index < self.keys.len() {
            Ok(self.keys[index])
        } else {
            Err(Error { kind: ErrorKind::KeyIndexOutOfRange })
        }
    }
}


/// A decoded tagged value, as a mathematical tree.
pub enum SpecValue {
    Null,
    Bool(bool),
    Int(int),
    /// The bit pattern of a double-precision float.
    Float(int),
    Str(Seq<char>),
    Array(Seq<SpecValue>),
    Entries(Seq<(Seq<char>, SpecValue)>),
}

/// A tagged value from the wire. Strings and map keys borrow the buffer.
pub enum Value<'de> {
    Null,
    Bool(bool),
    Int(i32),
    /// The bit pattern of a double-precision float.
    Float(u64),
    Str(&'de str),
    Array(Vec<Value<'de>>),
    Entries(Vec<(&'de str, Value<'de>)>),
}

impl<'de> Value<'de> {
    /// The tree this value holds.
    pub open spec fn spec(&self) -> SpecValue
        decreases self,
    {
        match self {
            Value::Null => SpecValue::Null,
            Value::Bool(b) => SpecValue::Bool(*b),
            Value::Int(i) => SpecValue::Int(*i as int),
            Value::Float(f) => SpecValue::Float(*f as int),
            Value::Str(s) => SpecValue::Str(s@),
            Value::Array(items) => SpecValue::Array(
                Seq::new(
                    items@.len(),
                    |i: int|
                        if 0 <= i < items@.len() {
                            proof {
                                assert(decreases_to!(items => items@));
                                assert(decreases_to!(items@ => items@[i]));
                            }
                            items@[i].spec()
                        } else {
                            SpecValue::Null
                        },
                ),
            ),
            Value::Entries(entries) => SpecValue::Entries(
                Seq::new(
                    entries@.len(),
                    |i: int|
                        if 0 <= i < entries@.len() {
                            proof {
                                assert(decreases_to!(entries => entries@));
                                assert(decreases_to!(entries@ => entries@[i]));
                                assert(decreases_to!(entries@[i] => entries@[i].1));
                            }
                            (entries@[i].0@, entries@[i].1.spec())
                        } else {
                            (Seq::empty(), SpecValue::Null)
                        },
                ),
            ),
        }
    }
}

/// The value starting at `at`, nested at most `fuel` arrays or maps deep, and
/// the position after it. Every nesting level consumes at least one byte, so a
/// `fuel` of the remaining length never cuts a well-formed value short.
pub open spec fn spec_value(data: Seq<u8>, keys: Seq<Seq<char>>, at: int, end: int, fuel: nat) -> Option<
    (SpecValue, int),
>
    decreases fuel, 0int, 0nat,
{
    if at + 1 > end {
        None
    } else {
        let tag = data[at];
        let p = at + 1;
        if tag == T_NULL {
            Some((SpecValue::Null, p))
        } else if tag == T_FALSE {
            Some((SpecValue::Bool(false), p))
        } else if tag == T_TRUE {
            Some((SpecValue::Bool(true), p))
        } else if tag == T_INT {
            if p + 4 > end {
                None
            } else {
                Some((SpecValue::Int(signed32(le32(data, p))), p + 4))
            }
        } else if tag == T_F64 {
            if p + 8 > end {
                None
            } else {
                Some((SpecValue::Float(le64(data, p)), p + 8))
            }
        } else if tag == T_STR {
            match spec_str(data, p, end) {
                Some((s, q)) => Some((SpecValue::Str(s), q)),
                None => None,
            }
        } else if tag == T_ARR {
            if p + 4 > end || fuel == 0 {
                None
            } else {
                match spec_items(data, keys, p + 4, end, (fuel - 1) as nat, le32(data, p) as nat) {
                    Some((items, q)) => Some((SpecValue::Array(items), q)),
                    None => None,
                }
            }
        } else if tag == T_MAP {
            if p + 2 > end || fuel == 0 {
                None
            } else {
                match spec_entries(
                    data,
                    keys,
                    p + 2,
                    end,
                    (fuel - 1) as nat,
                    le16(data, p) as nat,
                ) {
                    Some((entries, q)) => Some((SpecValue::Entries(entries), q)),
                    None => None,
                }
            }
        } else {
            None
        }
    }
}

/// Each scalar tag reads as what it names, wherever it stands and whatever
/// follows: tag 0 is null, tag 1 false, tag 2 true, each one byte long; tag
/// 3 is the signed 32-bit integer in the four little-endian bytes after it;
/// a tag past 7 is no value.
pub proof fn lemma_scalar_tags(data: Seq<u8>, keys: Seq<Seq<char>>, at: int, end: int, fuel: nat)
    requires
        0 <= at < end,
    ensures
        data[at] == 0 ==> spec_value(data, keys, at, end, fuel) == Some((SpecValue::Null, at + 1)),
        data[at] == 1 ==> spec_value(data, keys, at, end, fuel) == Some((SpecValue::Bool(false), at + 1)),
        data[at] == 2 ==> spec_value(data, keys, at, end, fuel) == Some((SpecValue::Bool(true), at + 1)),
        data[at] == 3 && at + 5 <= end ==> spec_value(data, keys, at, end, fuel) == Some(
            (
                SpecValue::Int(
                    signed32(
                        data[at + 1] as int + 256 * (data[at + 2] as int) + 65536 * (data[at + 3] as int)
                            + 16777216 * (data[at + 4] as int),
                    ),
                ),
                at + 5,
            ),
        ),
        data[at] > 7 ==> spec_value(data, keys, at, end, fuel) is None,
{
}

/// A signed 32-bit integer written as tag 3 and its two's-complement
/// little-endian bytes reads back as itself, wherever it stands.
pub proof fn lemma_int_round_trip(data: Seq<u8>, keys: Seq<Seq<char>>, at: int, end: int, fuel: nat, v: int)
    requires
        -0x8000_0000 <= v < 0x8000_0000,
        0 <= at,
        at + 5 <= end <= data.len(),
        data[at] == 3,
        data.subrange(at + 1, at + 5) == le_bytes(if v >= 0 { v } else { v + 0x1_0000_0000 }),
    ensures
        spec_value(data, keys, at, end, fuel) == Some((SpecValue::Int(v), at + 5)),
{
    lemma_le32_of(data, at + 1, if v >= 0 { v } else { v + 0x1_0000_0000 });
    lemma_scalar_tags(data, keys, at, end, fuel);
}

/// `count` consecutive values from `at`.
pub open spec fn spec_items(
    data: Seq<u8>,
    keys: Seq<Seq<char>>,
    at: int,
    end: int,
    fuel: nat,
    count: nat,
) -> Option<(Seq<SpecValue>, int)>
    decreases fuel, 1int, count,
{
    if count == 0 {
        Some((Seq::empty(), at))
    } else {
        match spec_items(data, keys, at, end, fuel, (count - 1) as nat) {
            Some((items, p)) => match spec_value(data, keys, p, end, fuel) {
                Some((v, q)) => Some((items.push(v), q)),
                None => None,
            },
            None => None,
        }
    }
}

/// The interned key whose 2-byte index is at `at`.
pub open spec fn spec_key(data: Seq<u8>, keys: Seq<Seq<char>>, at: int, end: int) -> Option<
    Seq<char>,
> {
    if at + 2 > end || le16(data, at) >= keys.len() {
        None
    } else {
        Some(keys[le16(data, at)])
    }
}

/// `count` consecutive key and value pairs from `at`.
pub open spec fn spec_entries(
    data: Seq<u8>,
    keys: Seq<Seq<char>>,
    at: int,
    end: int,
    fuel: nat,
    count: nat,
) -> Option<(Seq<(Seq<char>, SpecValue)>, int)>
    decreases fuel, 1int, count,
{
    if count == 0 {
        Some((Seq::empty(), at))
    } else {
        match spec_entries(data, keys, at, end, fuel, (count - 1) as nat) {
            Some((entries, p)) => match spec_key(data, keys, p, end) {
                Some(k) => match spec_value(data, keys, p + 2, end, fuel) {
                    Some((v, q)) => Some((entries.push((k, v)), q)),
                    None => None,
                },
                None => None,
            },
            None => None,
        }
    }
}

proof fn lemma_items_none_stays(
    data: Seq<u8>,
    keys: Seq<Seq<char>>,
    at: int,
    end: int,
    fuel: nat,
    i: nat,
    count: nat,
)
    requires
        i <= count,
        spec_items(data, keys, at, end, fuel, i) is None,
    ensures
        spec_items(data, keys, at, end, fuel, count) is None,
    decreases count - i,
{
    if i < count {
        lemma_items_none_stays(data, keys, at, end, fuel, (i + 1) as nat, count);
    }
}

proof fn lemma_entries_none_stays(
    data: Seq<u8>,
    keys: Seq<Seq<char>>,
    at: int,
    end: int,
    fuel: nat,
    i: nat,
    count: nat,
)
    requires
        i <= count,
        spec_entries(data, keys, at, end, fuel, i) is None,
    ensures
        spec_entries(data, keys, at, end, fuel, count) is None,
    decreases count - i,
{
    if i < count {
        lemma_entries_none_stays(data, keys, at, end, fuel, (i + 1) as nat, count);
    }
}

impl<'de> Reader<'de> {
    /// Decodes the next tagged value. Strings and keys borrow the buffer.
    pub fn value(&mut self) -> (r: Result<Value<'de>, Error>)
        ensures
            final(self).same_source(&*old(self)),
            match r {
                Ok(v) => spec_value(
                    old(self).data(),
                    old(self).keys(),
                    old(self).pos(),
                    old(self).limit(),
                    (old(self).limit() - old(self).pos()) as nat,
                ) == Some((v.spec(), final(self).pos())),
                Err(_) => spec_value(
                    old(self).data(),
                    old(self).keys(),
                    old(self).pos(),
                    old(self).limit(),
                    (old(self).limit() - old(self).pos()) as nat,
                ) is None,
            },
            old(self).pos() < old(self).limit() && old(self).data()[old(self).pos()] == 1 ==> (r matches Ok(v)
                && v.spec() == SpecValue::Bool(false)),
            old(self).pos() < old(self).limit() && old(self).data()[old(self).pos()] == 2 ==> (r matches Ok(v)
                && v.spec() == SpecValue::Bool(true)),
            old(self).pos() < old(self).limit() && old(self).data()[old(self).pos()] == 0 ==> (r matches Ok(v)
                && v.spec() == SpecValue::Null),
    {
        proof {
            use_type_invariant(&*self);
            if self.pos() < self.limit() {
                lemma_scalar_tags(self.data(), self.keys(), self.pos(), self.limit(), (self.limit() - self.pos()) as nat);
            }
        }
        let fuel = self.end - self.at;
        self.value_within(fuel)
    }

    fn value_within(&mut self, fuel: usize) -> (r: Result<Value<'de>, Error>)
        ensures
            final(self).same_source(&*old(self)),
            match r {
                Ok(v) => spec_value(
                    old(self).data(),
                    old(self).keys(),
                    old(self).pos(),
                    old(self).limit(),
                    fuel as nat,
                ) == Some((v.spec(), final(self).pos())),
                Err(_) => spec_value(
                    old(self).data(),
                    old(self).keys(),
                    old(self).pos(),
                    old(self).limit(),
                    fuel as nat,
                ) is None,
            },
        decreases fuel,
    {
        let ghost d = self.data();
        let ghost ks = self.keys();
        let ghost e = self.limit();
        let tag = self.u8()?;
        if tag == T_NULL {
            Ok(Value::Null)
        } else if tag == T_FALSE {
            Ok(Value::Bool(false))
        } else if tag == T_TRUE {
            Ok(Value::Bool(true))
        } else if tag == T_INT {
            let v = self.i32()?;
            Ok(Value::Int(v))
        } else if tag == T_F64 {
            let v = self.f64_bits()?;
            Ok(Value::Float(v))
        } else if tag == T_STR {
            let s = self.str()?;
            Ok(Value::Str(s))
        } else if tag == T_ARR {
            let count = self.u32()?;
            if fuel == 0 {
                return Err(short());
            }
            let ghost start = self.pos();
            let mut items: Vec<Value<'de>> = Vec::new();
            let mut i: u32 = 0;
            assert(Seq::new(items@.len(), |j: int| items@[j].spec()) =~= Seq::<SpecValue>::empty());
            while i < count
                invariant
                    self.data() == d,
                    self.keys() == ks,
                    self.limit() == e,
                    d == old(self).data(),
                    ks == old(self).keys(),
                    e == old(self).limit(),
                    start == old(self).pos() + 5,
                    start <= e,
                    d[old(self).pos()] == T_ARR,
                    count as int == le32(d, old(self).pos() + 1),
                    i <= count,
                    items@.len() == i,
                    fuel > 0,
                    spec_items(d, ks, start, e, (fuel - 1) as nat, i as nat) == Some(
                        (Seq::new(items@.len(), |j: int| items@[j].spec()), self.pos()),
                    ),
                decreases count - i,
            {
                let ghost before = Seq::new(items@.len(), |j: int| items@[j].spec());
                match self.value_within(fuel - 1) {
                    Ok(v) => {
                        items.push(v);
                        assert(Seq::new(items@.len(), |j: int| items@[j].spec()) =~= before.push(
                            v.spec(),
                        ));
                    },
                    Err(err) => {
                        proof {
                            lemma_items_none_stays(
                                d,
                                ks,
                                start,
                                e,
                                (fuel - 1) as nat,
                                (i + 1) as nat,
                                count as nat,
                            );
                        }
                        return Err(err);
                    },
                }
                i = i + 1;
            }
            let r = Value::Array(items);
            assert(r.spec()->Array_0 =~= Seq::new(items@.len(), |j: int| items@[j].spec()));
            Ok(r)
        } else if tag == T_MAP {
            let count = self.u16()?;
            if fuel == 0 {
                return Err(short());
            }
            let ghost start = self.pos();
            let mut entries: Vec<(&'de str, Value<'de>)> = Vec::new();
            let mut i: u16 = 0;
            assert(Seq::new(entries@.len(), |j: int| (entries@[j].0@, entries@[j].1.spec()))
                =~= Seq::<(Seq<char>, SpecValue)>::empty());
            while i < count
                invariant
                    self.data() == d,
                    self.keys() == ks,
                    self.limit() == e,
                    d == old(self).data(),
                    ks == old(self).keys(),
                    e == old(self).limit(),
                    start == old(self).pos() + 3,
                    start <= e,
                    d[old(self).pos()] == T_MAP,
                    count as int == le16(d, old(self).pos() + 1),
                    i <= count,
                    entries@.len() == i,
                    fuel > 0,
                    spec_entries(d, ks, start, e, (fuel - 1) as nat, i as nat) == Some(
                        (
                            Seq::new(
                                entries@.len(),
                                |j: int| (entries@[j].0@, entries@[j].1.spec()),
                            ),
                            self.pos(),
                        ),
                    ),
                decreases count - i,
            {
                let ghost before = Seq::new(
                    entries@.len(),
                    |j: int| (entries@[j].0@, entries@[j].1.spec()),
                );
                let key = match self.key() {
                    Ok(k) => k,
                    Err(err) => {
                        proof {
                            lemma_entries_none_stays(
                                d,
                                ks,
                                start,
                                e,
                                (fuel - 1) as nat,
                                (i + 1) as nat,
                                count as nat,
                            );
                        }
                        return Err(err);
                    },
                };
                match self.value_within(fuel - 1) {
                    Ok(v) => {
                        entries.push((key, v));
                        assert(Seq::new(
                            entries@.len(),
                            |j: int| (entries@[j].0@, entries@[j].1.spec()),
                        ) =~= before.push((key@, v.spec())));
                    },
                    Err(err) => {
                        proof {
                            lemma_entries_none_stays(
                                d,
                                ks,
                                start,
                                e,
                                (fuel - 1) as nat,
                                (i + 1) as nat,
                                count as nat,
                            );
                        }
                        return Err(err);
                    },
                }
                i = i + 1;
            }
            let r = Value::Entries(entries);
            assert(r.spec()->Entries_0 =~= Seq::new(
                entries@.len(),
                |j: int| (entries@[j].0@, entries@[j].1.spec()),
            ));
            Ok(r)
        } else {
            Err(Error { kind: ErrorKind::UnknownTag(tag) })
        }
    }
}


/// How one prop travels. Integers are 4 bytes, floats 4 or 8, strings are
/// length-prefixed UTF-8, a style is the id of a definition sent earlier, and
/// a value is the tagged tree.
#[derive(Clone, Copy, Debug, PartialEq, Eq, Structural)]
pub enum WireType {
    Bool,
    I32,
    U32,
    F32,
    F64,
    Str,
    Style,
    Value,
}

/// One positional prop: its wire name, wire type, and whether it must be present.
#[derive(Clone, Copy, Debug, PartialEq, Eq)]
pub struct Field {
    pub name: &'static str,
    pub kind: WireType,
    pub required: bool,
}

/// A component's props on the wire: positional fields, or a self-describing
/// tagged map for props types without a schema.
#[derive(Clone, Debug)]
pub enum Schema {
    Fields(Vec<Field>),
    Tagged,
}

/// Implemented by every props type: the schema the worker encodes it against.
pub trait ComponentProps {
    fn schema() -> Schema;
}

impl ComponentProps for () {
    fn schema() -> (s: Schema)
        ensures
            s matches Schema::Fields(f) && f@.len() == 0,
    {
        Schema::Fields(Vec::new())
    }
}

/// A decoded positional field, as a mathematical value.
pub enum SpecField {
    Bool(bool),
    I32(int),
    U32(int),
    /// Bit pattern of a single-precision float.
    Float32(int),
    /// Bit pattern of a double-precision float.
    Float64(int),
    Str(Seq<char>),
    Value(SpecValue),
    /// The id of a session style definition.
    Style(int),
}

/// A decoded positional field.
pub enum FieldValue<'de> {
    Bool(bool),
    I32(i32),
    U32(u32),
    /// The id of a session style definition, which the session's table
    /// resolves.
    Style(u32),
    /// Bit pattern of a single-precision float.
    Float32(u32),
    /// Bit pattern of a double-precision float.
    Float64(u64),
    Str(&'de str),
    Value(Value<'de>),
}

impl<'de> FieldValue<'de> {
    /// The value this field holds.
    pub open spec fn spec(&self) -> SpecField {
        match self {
            FieldValue::Bool(b) => SpecField::Bool(*b),
            FieldValue::I32(i) => SpecField::I32(*i as int),
            FieldValue::U32(u) => SpecField::U32(*u as int),
            FieldValue::Style(u) => SpecField::Style(*u as int),
            FieldValue::Float32(u) => SpecField::Float32(*u as int),
            FieldValue::Float64(u) => SpecField::Float64(*u as int),
            FieldValue::Str(s) => SpecField::Str(s@),
            FieldValue::Value(v) => SpecField::Value(v.spec()),
        }
    }
}

/// One field of type `kind` at `at`, without a tag byte.
pub open spec fn spec_field(
    data: Seq<u8>,
    keys: Seq<Seq<char>>,
    at: int,
    end: int,
    kind: WireType,
) -> Option<(SpecField, int)> {
    match kind {
        WireType::Bool => if at + 1 > end {
            None
        } else {
            Some((SpecField::Bool(data[at] != 0), at + 1))
        },
        WireType::I32 => if at + 4 > end {
            None
        } else {
            Some((SpecField::I32(signed32(le32(data, at))), at + 4))
        },
        WireType::U32 => if at + 4 > end {
            None
        } else {
            Some((SpecField::U32(le32(data, at)), at + 4))
        },
        WireType::Style => if at + 4 > end {
            None
        } else {
            Some((SpecField::Style(le32(data, at)), at + 4))
        },
        WireType::F32 => if at + 4 > end {
            None
        } else {
            Some((SpecField::Float32(le32(data, at)), at + 4))
        },
        WireType::F64 => if at + 8 > end {
            None
        } else {
            Some((SpecField::Float64(le64(data, at)), at + 8))
        },
        WireType::Str => match spec_str(data, at, end) {
            Some((s, q)) => Some((SpecField::Str(s), q)),
            None => None,
        },
        WireType::Value => match spec_value(data, keys, at, end, (end - at) as nat) {
            Some((v, q)) => Some((SpecField::Value(v), q)),
            None => None,
        },
    }
}

/// Bit `k` of a presence byte.
pub open spec fn mask_bit(b: u8, k: u8) -> bool {
    (b >> k) & 1u8 == 1u8
}

/// Field `i` is present by the presence mask that starts at `at`.
pub open spec fn present(data: Seq<u8>, at: int, i: int) -> bool {
    mask_bit(data[at + i / 8], (i % 8) as u8)
}

/// The number of presence bytes for `n` fields.
pub open spec fn mask_len(n: int) -> int {
    (n + 7) / 8
}

/// The first `i` fields of `fields` read after the mask at `mask`, from `at`:
/// the present ones with their names, and the position after them.
pub open spec fn spec_props<S>(
    data: Seq<u8>,
    keys: Seq<Seq<char>>,
    styles: Seq<Option<S>>,
    mask: int,
    at: int,
    end: int,
    fields: Seq<Field>,
    i: nat,
) -> Option<(Seq<(Seq<char>, SpecField)>, int)>
    decreases i,
{
    if i == 0 {
        Some((Seq::empty(), at))
    } else {
        match spec_props(data, keys, styles, mask, at, end, fields, (i - 1) as nat) {
            Some((vs, p)) => if present(data, mask, i - 1) {
                match spec_field(data, keys, p, end, fields[i - 1].kind) {
                    Some((v, q)) => if v matches SpecField::Style(id) && style_at(styles, id as u32) is None {
                        None
                    } else {
                        Some((vs.push((fields[i - 1].name@, v)), q))
                    },
                    None => None,
                }
            } else {
                Some((vs, p))
            },
            None => None,
        }
    }
}

proof fn lemma_props_none_stays<S>(
    data: Seq<u8>,
    keys: Seq<Seq<char>>,
    styles: Seq<Option<S>>,
    mask: int,
    at: int,
    end: int,
    fields: Seq<Field>,
    i: nat,
    count: nat,
)
    requires
        i <= count,
        spec_props(data, keys, styles, mask, at, end, fields, i) is None,
    ensures
        spec_props(data, keys, styles, mask, at, end, fields, count) is None,
    decreases count - i,
{
    if i < count {
        lemma_props_none_stays(data, keys, styles, mask, at, end, fields, (i + 1) as nat, count);
    }
}

impl<'de> Reader<'de> {
    /// One scalar field read as its declared wire type, with no tag byte.
    pub fn field(&mut self, kind: WireType) -> (r: Result<FieldValue<'de>, Error>)
        ensures
            final(self).same_source(&*old(self)),
            match r {
                Ok(v) => spec_field(
                    old(self).data(),
                    old(self).keys(),
                    old(self).pos(),
                    old(self).limit(),
                    kind,
                ) == Some((v.spec(), final(self).pos())),
                Err(_) => spec_field(
                    old(self).data(),
                    old(self).keys(),
                    old(self).pos(),
                    old(self).limit(),
                    kind,
                ) is None,
            },
    {
        match kind {
            WireType::Bool => {
                let b = self.u8()?;
                Ok(FieldValue::Bool(b != 0))
            },
            WireType::I32 => {
                let v = self.i32()?;
                Ok(FieldValue::I32(v))
            },
            WireType::U32 => {
                let v = self.u32()?;
                Ok(FieldValue::U32(v))
            },
            WireType::Style => {
                let v = self.u32()?;
                Ok(FieldValue::Style(v))
            },
            WireType::F32 => {
                let v = self.f32_bits()?;
                Ok(FieldValue::Float32(v))
            },
            WireType::F64 => {
                let v = self.f64_bits()?;
                Ok(FieldValue::Float64(v))
            },
            WireType::Str => {
                let s = self.str()?;
                Ok(FieldValue::Str(s))
            },
            WireType::Value => {
                let v = self.value()?;
                Ok(FieldValue::Value(v))
            },
        }
    }

}

/// A component's positional schema, read field by field.
pub struct PropsReader {
    pub fields: Vec<Field>,
}

impl PropsReader {
    /// Decodes one component's props written positionally against its schema:
    /// a presence mask of one bit per field, then each present field in
    /// schema order as its wire type. A style field must name a definition
    /// in the session's `styles`.
    pub fn read<'de, S>(&self, reader: &mut Reader<'de>, styles: &Vec<Option<S>>) -> (r: Result<
        Vec<(&'static str, FieldValue<'de>)>,
        Error,
    >)
        requires
            self.fields@.len() <= 32,
        ensures
            final(reader).same_source(&*old(reader)),
            ({
                let o = old(reader);
                let m = mask_len(self.fields@.len() as int);
                if o.pos() + m > o.limit() {
                    r is Err
                } else {
                    match r {
                        Ok(vs) => spec_props(
                            o.data(),
                            o.keys(),
                            styles@,
                            o.pos(),
                            o.pos() + m,
                            o.limit(),
                            self.fields@,
                            self.fields@.len(),
                        ) == Some(
                            (
                                Seq::new(vs@.len(), |j: int| (vs@[j].0@, vs@[j].1.spec())),
                                final(reader).pos(),
                            ),
                        ),
                        Err(_) => spec_props(
                            o.data(),
                            o.keys(),
                            styles@,
                            o.pos(),
                            o.pos() + m,
                            o.limit(),
                            self.fields@,
                            self.fields@.len(),
                        ) is None,
                    }
                }
            }),
    {
        let n = self.fields.len();
        let m = (n + 7) / 8;
        let mask = reader.take(m)?;
        let ghost mask_at = old(reader).pos();
        let ghost d = reader.data();
        let ghost ks = reader.keys();
        let ghost e = reader.limit();
        let ghost start = reader.pos();
        let mut out: Vec<(&'static str, FieldValue<'de>)> = Vec::new();
        let mut i: usize = 0;
        assert(Seq::new(out@.len(), |j: int| (out@[j].0@, out@[j].1.spec())) =~= Seq::<
            (Seq<char>, SpecField),
        >::empty());
        while i < n
            invariant
                n == self.fields@.len(),
                n <= 32,
                m == mask_len(n as int),
                i <= n,
                mask@ == d.subrange(mask_at, mask_at + m),
                mask@.len() == m,
                e <= d.len(),
                mask_at + m == start,
                start <= e,
                reader.data() == d,
                reader.keys() == ks,
                reader.limit() == e,
                d == old(reader).data(),
                ks == old(reader).keys(),
                e == old(reader).limit(),
                mask_at == old(reader).pos(),
                spec_props(d, ks, styles@, mask_at, start, e, self.fields@, i as nat) == Some(
                    (Seq::new(out@.len(), |j: int| (out@[j].0@, out@[j].1.spec())), reader.pos()),
                ),
            decreases n - i,
        {
            let ghost before = Seq::new(out@.len(), |j: int| (out@[j].0@, out@[j].1.spec()));
            assert(i / 8 < m) by (nonlinear_arith)
                requires
                    i < n,
                    m == (n + 7) / 8,
            ;
            let byte = mask[i / 8];
            let bit: u8 = (i % 8) as u8;
            assert(byte == d[mask_at + i / 8]);
            if (byte >> bit) & 1u8 == 1u8 {
                let field = self.fields[i];
                match reader.field(field.kind) {
                    Ok(v) => {
                        if let FieldValue::Style(id) = v {
                            if resolve_style(styles, id).is_err() {
                                proof {
                                    lemma_props_none_stays(
                                        d,
                                        ks,
                                        styles@,
                                        mask_at,
                                        start,
                                        e,
                                        self.fields@,
                                        (i + 1) as nat,
                                        n as nat,
                                    );
                                }
                                return Err(Error::new(ErrorKind::UnknownStyle(id)));
                            }
                        }
                        out.push((field.name, v));
                        assert(Seq::new(out@.len(), |j: int| (out@[j].0@, out@[j].1.spec()))
                            =~= before.push((field.name@, v.spec())));
                    },
                    Err(err) => {
                        proof {
                            lemma_props_none_stays(
                                d,
                                ks,
                                styles@,
                                mask_at,
                                start,
                                e,
                                self.fields@,
                                (i + 1) as nat,
                                n as nat,
                            );
                        }
                        return Err(err);
                    },
                }
            }
            i = i + 1;
        }
        Ok(out)
    }
}

/// Checks a schema against the field names its props type's deserializer
/// asks for, in order. `None` stands for a type that reads no struct.
pub fn check_fields(schema: &Schema, reader_fields: Option<&Vec<String>>) -> (r: Result<(), Error>)
    ensures
        match schema {
            Schema::Tagged => r is Ok,
            Schema::Fields(fields) => match reader_fields {
                None => if fields@.len() == 0 {
                    r is Ok
                } else {
                    r matches Err(e) && e.kind == ErrorKind::FieldsWithoutStruct
                },
                Some(names) => if fields@.len() == names@.len() && forall|i: int|
                    0 <= i < fields@.len() ==> #[trigger] fields@[i].name@ == names@[i]@ {
                    r is Ok
                } else {
                    r matches Err(e) && e.kind == ErrorKind::FieldsDiffer
                },
            },
        },
{
    let fields = match schema {
        Schema::Tagged => {
            return Ok(());
        },
        Schema::Fields(fields) => fields,
    };
    let names = match reader_fields {
        None => {
            if fields.len() == 0 {
                return Ok(());
            } else {
                return Err(Error { kind: ErrorKind::FieldsWithoutStruct });
            }
        },
        Some(names) => names,
    };
    if fields.len() != names.len() {
        return Err(Error { kind: ErrorKind::FieldsDiffer });
    }
    let mut i: usize = 0;
    while i < fields.len()
        invariant
            fields@.len() == names@.len(),
            *schema == Schema::Fields(*fields),
            reader_fields == Some(names),
            i <= fields@.len(),
            forall|j: int| 0 <= j < i ==> #[trigger] fields@[j].name@ == names@[j]@,
        decreases fields@.len() - i,
    {
        if !crate::text::str_eq(fields[i].name, names[i].as_str()) {
            return Err(Error { kind: ErrorKind::FieldsDiffer });
        }
        i = i + 1;
    }
    Ok(())
}

/// How an enum travels as a tagged value: a unit variant is a string; any
/// other variant is a map of exactly one entry from its name to its content.
pub fn enum_parts<'a, 'de>(v: &'a Value<'de>) -> (r: Result<(&'de str, Option<&'a Value<'de>>), Error>)
    ensures
        match v {
            Value::Str(s) => r == Ok::<(&'de str, Option<&'a Value<'de>>), Error>((*s, None)),
            Value::Entries(es) => if es@.len() == 1 {
                r matches Ok((k, Some(c))) && k == es@[0].0 && c == &es@[0].1
            } else {
                r matches Err(e) && e.kind == ErrorKind::EnumEntries
            },
            _ => r matches Err(e) && e.kind == ErrorKind::EnumShape,
        },
{
    match v {
        Value::Str(s) => Ok((*s, None)),
        Value::Entries(es) => {
            if es.len() == 1 {
                Ok((es[0].0, Some(&es[0].1)))
            } else {
                Err(Error { kind: ErrorKind::EnumEntries })
            }
        },
        _ => Err(Error { kind: ErrorKind::EnumShape }),
    }
}

} // verus!
