//! Bounds-checked little-endian binary primitives used by the circuit codecs.
//!
//! Errors are `String`s in the project's `"CODE|details"` convention. Every
//! read is specified against the spec-level readers below (`sp_*`), which
//! define the wire format of each primitive over a byte sequence and an offset.
use vstd::prelude::*;
use vstd::utf8::*;
use crate::text::{chars_to_string, dec_int, dec_nat, push_i64, push_str, push_u64};

verus! {

/// Maximum number of items in an `i64`-counted sequence.
pub const MAX_SEQUENCE_ITEMS: i64 = 10_000_000;

/// Maximum UTF-8 byte length for a length-prefixed string.
pub const MAX_STRING_BYTES: usize = 0xFFFF;

// ───────────────────────── spec-level format ─────────────────────────

/// Why a decode failed. Each fault has one message text (see [`fault_text`]).
pub enum Fault {
    Truncated { need: nat, offset: nat, have: nat },
    BadBoolean { value: u8, offset: nat },
    Utf8 { detail: Seq<char> },
    BadCount { label: Seq<char>, count: int },
    Trailing { unconsumed: nat },
    BadWireDirection { direction: nat },
    BadWireLength { length: nat },
    Snappy { detail: Seq<char> },
    TooShort,
    TooShortFor { version: nat },
    BadVersion { expected: nat, got: nat },
    Unsupported { version: nat },
}

/// The message of a fault whose text is fully determined by the fault.
pub open spec fn fault_text(f: Fault) -> Seq<char> {
    match f {
        Fault::Truncated { need, offset, have } => "CIRCUIT_TRUNCATED|need "@ + dec_nat(need)
            + " byte(s) at offset "@ + dec_nat(offset) + ", have "@ + dec_nat(have),
        Fault::BadBoolean { value, offset } => "CIRCUIT_BAD_BOOLEAN|"@ + dec_nat(value as nat)
            + " at offset "@ + dec_nat(offset),
        Fault::Utf8 { detail } => "CIRCUIT_UTF8|"@ + detail,
        Fault::BadCount { label, count } => "CIRCUIT_BAD_COUNT|"@ + label + "="@ + dec_int(count)
            + " exceeds 10000000"@,
        Fault::Trailing { unconsumed } => "CIRCUIT_TRAILING|"@ + dec_nat(unconsumed) + " unconsumed byte(s)"@,
        Fault::BadWireDirection { direction } => "CIRCUIT_BAD_WIRE_DIRECTION|"@ + dec_nat(direction),
        Fault::BadWireLength { length } => "CIRCUIT_BAD_WIRE_LENGTH|"@ + dec_nat(length),
        Fault::Snappy { detail } => "CIRCUIT_SNAPPY|"@ + detail,
        Fault::TooShort => "CIRCUIT_TOO_SHORT|empty input"@,
        Fault::TooShortFor { version } => "CIRCUIT_TOO_SHORT|empty input for version "@ + dec_nat(
            version,
        ),
        Fault::BadVersion { expected, got } => "CIRCUIT_BAD_VERSION|expected "@ + dec_nat(expected)
            + ", got "@ + dec_nat(got),
        Fault::Unsupported { version } => "CIRCUIT_UNSUPPORTED|version "@ + dec_nat(version)
            + " not readable"@,
    }
}

/// `text` is the message a decoder reports for fault `f`.
pub open spec fn reports(text: Seq<char>, f: Fault) -> bool {
    text == fault_text(f)
}

/// Result of a spec-level read: the value and the offset just past it.
pub type SResult<T> = Result<(T, nat), Fault>;

pub open spec fn truncated(need: nat, d: Seq<u8>, o: nat) -> Fault {
    Fault::Truncated { need, offset: o, have: (d.len() - o) as nat }
}

/// Little-endian value of `d[o..o+2]`.
#[verifier::opaque]
pub open spec fn le2(d: Seq<u8>, o: int) -> int {
    d[o] + 256 * d[o + 1]
}

/// Little-endian value of `d[o..o+4]`.
#[verifier::opaque]
pub open spec fn le4(d: Seq<u8>, o: int) -> int {
    le2(d, o) + 65536 * le2(d, o + 2)
}

/// Little-endian value of `d[o..o+8]`.
#[verifier::opaque]
pub open spec fn le8(d: Seq<u8>, o: int) -> int {
    le4(d, o) + 4294967296 * le4(d, o + 4)
}

/// Two's-complement reading of a 16-bit pattern.
#[verifier::opaque]
pub open spec fn signed16(u: int) -> int {
    if u < 32768 { u } else { u - 65536 }
}

/// Two's-complement reading of a 64-bit pattern.
#[verifier::opaque]
pub open spec fn signed64(u: int) -> int {
    if u < 0x8000_0000_0000_0000 { u } else { u - 0x1_0000_0000_0000_0000 }
}

pub open spec fn sp_take(d: Seq<u8>, o: nat, n: nat) -> SResult<Seq<u8>> {
    if o + n <= d.len() {
        Ok((d.subrange(o as int, (o + n) as int), o + n))
    } else {
        Err(truncated(n, d, o))
    }
}

pub open spec fn sp_u8(d: Seq<u8>, o: nat) -> SResult<u8> {
    if o + 1 <= d.len() { Ok((d[o as int], o + 1)) } else { Err(truncated(1, d, o)) }
}

pub open spec fn sp_u16(d: Seq<u8>, o: nat) -> SResult<u16> {
    if o + 2 <= d.len() { Ok((le2(d, o as int) as u16, o + 2)) } else { Err(truncated(2, d, o)) }
}

pub open spec fn sp_i16(d: Seq<u8>, o: nat) -> SResult<i16> {
    if o + 2 <= d.len() {
        Ok((signed16(le2(d, o as int)) as i16, o + 2))
    } else {
        Err(truncated(2, d, o))
    }
}

pub open spec fn sp_u32(d: Seq<u8>, o: nat) -> SResult<u32> {
    if o + 4 <= d.len() { Ok((le4(d, o as int) as u32, o + 4)) } else { Err(truncated(4, d, o)) }
}

pub open spec fn sp_u64(d: Seq<u8>, o: nat) -> SResult<u64> {
    if o + 8 <= d.len() { Ok((le8(d, o as int) as u64, o + 8)) } else { Err(truncated(8, d, o)) }
}

pub open spec fn sp_i64(d: Seq<u8>, o: nat) -> SResult<i64> {
    if o + 8 <= d.len() {
        Ok((signed64(le8(d, o as int)) as i64, o + 8))
    } else {
        Err(truncated(8, d, o))
    }
}

pub open spec fn sp_bool(d: Seq<u8>, o: nat) -> SResult<bool> {
    match sp_u8(d, o) {
        Ok((v, o1)) => if v == 0 {
            Ok((false, o1))
        } else if v == 1 {
            Ok((true, o1))
        } else {
            Err(Fault::BadBoolean { value: v, offset: o })
        },
        Err(f) => Err(f),
    }
}

pub open spec fn sp_bytes_u16(d: Seq<u8>, o: nat) -> SResult<Seq<u8>> {
    match sp_u16(d, o) {
        Ok((n, o1)) => sp_take(d, o1, n as nat),
        Err(f) => Err(f),
    }
}

#[verifier::opaque]
pub open spec fn sp_string(d: Seq<u8>, o: nat) -> SResult<Seq<char>> {
    match sp_bytes_u16(d, o) {
        Ok((b, o2)) => if valid_utf8(b) { Ok((decode_utf8(b), o2)) } else { Err(Fault::Utf8 { detail: utf8_error(b) }) },
        Err(f) => Err(f),
    }
}

/// Where a failed read of a `u16`-prefixed payload leaves the cursor: past
/// the parts read before the failing one.
pub open spec fn prefixed_stop(d: Seq<u8>, o: nat) -> nat {
    match sp_u16(d, o) {
        Err(_) => o,
        Ok((n, o1)) => match sp_take(d, o1, n as nat) {
            Err(_) => o1,
            Ok((_, o2)) => o2,
        },
    }
}

/// Where a failed read that starts with an `i16` (point) or `i64` (count)
/// leaves the cursor: past that first value when it was read.
pub open spec fn i16_stop(d: Seq<u8>, o: nat) -> nat {
    match sp_i16(d, o) {
        Err(_) => o,
        Ok((_, o1)) => o1,
    }
}

pub open spec fn i64_stop(d: Seq<u8>, o: nat) -> nat {
    match sp_i64(d, o) {
        Err(_) => o,
        Ok((_, o1)) => o1,
    }
}

pub open spec fn sp_point(d: Seq<u8>, o: nat) -> SResult<(i16, i16)> {
    match sp_i16(d, o) {
        Ok((x, o1)) => match sp_i16(d, o1) {
            Ok((y, o2)) => Ok(((x, y), o2)),
            Err(f) => Err(f),
        },
        Err(f) => Err(f),
    }
}

pub open spec fn sp_count(d: Seq<u8>, o: nat, label: Seq<char>) -> SResult<usize> {
    match sp_i64(d, o) {
        Ok((v, o1)) => if 0 <= v <= MAX_SEQUENCE_ITEMS {
            Ok((v as usize, o1))
        } else {
            Err(Fault::BadCount { label, count: v as int })
        },
        Err(f) => Err(f),
    }
}

pub open spec fn sp_finish(d: Seq<u8>, o: nat) -> Result<(), Fault> {
    if o == d.len() { Ok(()) } else { Err(Fault::Trailing { unconsumed: (d.len() - o) as nat }) }
}

// ───────────────────────── encodings ─────────────────────────

/// The low byte of `v`.
#[verifier::opaque]
pub open spec fn byte0(v: int) -> u8 {
    (v % 256) as u8
}

/// The second-lowest byte of `v`.
#[verifier::opaque]
pub open spec fn byte1(v: int) -> u8 {
    ((v / 256) % 256) as u8
}

pub open spec fn u16_bytes(v: int) -> Seq<u8> {
    seq![byte0(v), byte1(v)]
}

pub open spec fn u32_bytes(v: int) -> Seq<u8> {
    u16_bytes(v % 65536) + u16_bytes((v / 65536) % 65536)
}

pub open spec fn u64_bytes(v: int) -> Seq<u8> {
    u32_bytes(v % 4294967296) + u32_bytes((v / 4294967296) % 4294967296)
}

pub open spec fn unsigned16(v: int) -> int {
    if v < 0 { v + 65536 } else { v }
}

pub open spec fn unsigned64(v: int) -> int {
    if v < 0 { v + 0x1_0000_0000_0000_0000 } else { v }
}

pub open spec fn i16_bytes(v: int) -> Seq<u8> {
    u16_bytes(unsigned16(v))
}

pub open spec fn i64_bytes(v: int) -> Seq<u8> {
    u64_bytes(unsigned64(v))
}

pub open spec fn bool_bytes(b: bool) -> Seq<u8> {
    seq![if b { 1u8 } else { 0u8 }]
}

pub open spec fn point_bytes(p: (i16, i16)) -> Seq<u8> {
    i16_bytes(p.0 as int) + i16_bytes(p.1 as int)
}

/// `u16` length prefix followed by the bytes.
pub open spec fn bytes_u16_bytes(b: Seq<u8>) -> Seq<u8> {
    u16_bytes(b.len() as int) + b
}

/// `u16` length prefix followed by the UTF-8 encoding of `s`.
pub open spec fn string_bytes(s: Seq<char>) -> Seq<u8> {
    bytes_u16_bytes(encode_utf8(s))
}

// ───────────────────────── fault messages ─────────────────────────

/// Exact message for a truncation fault.
pub fn truncated_message(need: usize, offset: usize, have: usize) -> (s: String)
    ensures
        s@ == fault_text(Fault::Truncated { need: need as nat, offset: offset as nat, have: have as nat }),
{
    let mut v: Vec<char> = Vec::new();
    push_str(&mut v, "CIRCUIT_TRUNCATED|need ");
    push_u64(&mut v, need as u64);
    push_str(&mut v, " byte(s) at offset ");
    push_u64(&mut v, offset as u64);
    push_str(&mut v, ", have ");
    push_u64(&mut v, have as u64);
    chars_to_string(v.as_slice())
}

// ───────────────────────── reader ─────────────────────────

/// Read primitives from a borrowed byte slice. Advances an internal offset and
/// fails on truncation or out-of-range values.
pub struct Reader<'a> {
    data: &'a [u8],
    offset: usize,
}

impl<'a> Reader<'a> {
    /// The offset never passes the end of the input.
    #[verifier::type_invariant]
    pub closed spec fn in_bounds(self) -> bool {
        self.offset <= self.data@.len()
    }

    /// The whole input.
    pub closed spec fn bytes(self) -> Seq<u8> {
        self.data@
    }

    /// The current offset.
    pub closed spec fn pos(self) -> nat {
        self.offset as nat
    }

    /// Construct a reader over `data`, at offset 0.
    pub fn new(data: &'a [u8]) -> (r: Self)
        ensures
            r.bytes() == data@,
            r.pos() == 0,
    {
        Reader { data, offset: 0 }
    }

    /// Current offset, in bytes from the start of the input.
    pub fn position(&self) -> (p: usize)
        ensures
            p == self.pos(),
    {
        self.offset
    }

    /// Borrow `n` bytes from the cursor and advance.
    pub fn take(&mut self, n: usize) -> (res: Result<&'a [u8], String>)
        ensures
            final(self).bytes() == old(self).bytes(),
            match sp_take(old(self).bytes(), old(self).pos(), n as nat) {
                Ok((b, p)) => res matches Ok(s) && s@ == b && final(self).pos() == p,
                Err(f) => res matches Err(e) && reports(e@, f) && final(self).pos() == old(
                    self,
                ).pos(),
            },
    {
        proof { use_type_invariant(&*self); }
        let have = self.data.len() - self.offset;
        if n > have {
            return Err(truncated_message(n, self.offset, have));
        }
        let start = self.offset;
        self.offset = self.offset + n;
        Ok(slice_range(self.data, start, start + n))
    }

    /// Single byte.
    pub fn u8(&mut self) -> (res: Result<u8, String>)
        ensures
            final(self).bytes() == old(self).bytes(),
            match sp_u8(old(self).bytes(), old(self).pos()) {
                Ok((v, p)) => res == Ok::<u8, String>(v) && final(self).pos() == p,
                Err(f) => res matches Err(e) && reports(e@, f) && final(self).pos() == old(
                    self,
                ).pos(),
            },
    {
        let b = self.take(1)?;
        Ok(b[0])
    }

    /// Little-endian `u16`.
    pub fn u16(&mut self) -> (res: Result<u16, String>)
        ensures
            final(self).bytes() == old(self).bytes(),
            match sp_u16(old(self).bytes(), old(self).pos()) {
                Ok((v, p)) => res == Ok::<u16, String>(v) && final(self).pos() == p,
                Err(f) => res matches Err(e) && reports(e@, f) && final(self).pos() == old(
                    self,
                ).pos(),
            },
    {
        proof {
            reveal(le2);
        }
        let b = self.take(2)?;
        Ok(b[0] as u16 + 256 * (b[1] as u16))
    }

    /// Little-endian `i16`.
    pub fn i16(&mut self) -> (res: Result<i16, String>)
        ensures
            final(self).bytes() == old(self).bytes(),
            match sp_i16(old(self).bytes(), old(self).pos()) {
                Ok((v, p)) => res == Ok::<i16, String>(v) && final(self).pos() == p,
                Err(f) => res matches Err(e) && reports(e@, f) && final(self).pos() == old(
                    self,
                ).pos(),
            },
    {
        proof {
            reveal(le2);
        }
        let u = self.u16()?;
        Ok(to_i16(u))
    }

    /// Little-endian `u32`.
    pub fn u32(&mut self) -> (res: Result<u32, String>)
        ensures
            final(self).bytes() == old(self).bytes(),
            match sp_u32(old(self).bytes(), old(self).pos()) {
                Ok((v, p)) => res == Ok::<u32, String>(v) && final(self).pos() == p,
                Err(f) => res matches Err(e) && reports(e@, f) && final(self).pos() == old(
                    self,
                ).pos(),
            },
    {
        proof {
            reveal(le2);
            reveal(le4);
        }
        let b = self.take(4)?;
        let lo: u32 = b[0] as u32 + 256 * (b[1] as u32);
        let hi: u32 = b[2] as u32 + 256 * (b[3] as u32);
        Ok(lo + 65536 * hi)
    }

    /// Little-endian `u64`.
    pub fn u64(&mut self) -> (res: Result<u64, String>)
        ensures
            final(self).bytes() == old(self).bytes(),
            match sp_u64(old(self).bytes(), old(self).pos()) {
                Ok((v, p)) => res == Ok::<u64, String>(v) && final(self).pos() == p,
                Err(f) => res matches Err(e) && reports(e@, f) && final(self).pos() == old(
                    self,
                ).pos(),
            },
    {
        proof {
            reveal(le2);
            reveal(le4);
            reveal(le8);
        }
        let b = self.take(8)?;
        Ok(le8_exec(b))
    }

    /// Little-endian `i64`.
    pub fn i64(&mut self) -> (res: Result<i64, String>)
        ensures
            final(self).bytes() == old(self).bytes(),
            match sp_i64(old(self).bytes(), old(self).pos()) {
                Ok((v, p)) => res == Ok::<i64, String>(v) && final(self).pos() == p,
                Err(f) => res matches Err(e) && reports(e@, f) && final(self).pos() == old(
                    self,
                ).pos(),
            },
    {
        proof {
            reveal(le2);
            reveal(le4);
            reveal(le8);
        }
        let u = self.u64()?;
        Ok(to_i64(u))
    }

    /// Read a single byte and require it to be 0 or 1.
    pub fn boolean(&mut self) -> (res: Result<bool, String>)
        ensures
            final(self).bytes() == old(self).bytes(),
            match sp_bool(old(self).bytes(), old(self).pos()) {
                Ok((v, p)) => res == Ok::<bool, String>(v) && final(self).pos() == p,
                Err(f) => res matches Err(e) && reports(e@, f) && final(self).pos() == (if old(
                    self,
                ).pos() < old(self).bytes().len() {
                    old(self).pos() + 1
                } else {
                    old(self).pos()
                }),
            },
    {
        let value = self.u8()?;
        if value == 0 {
            Ok(false)
        } else if value == 1 {
            Ok(true)
        } else {
            let mut v: Vec<char> = Vec::new();
            push_str(&mut v, "CIRCUIT_BAD_BOOLEAN|");
            push_u64(&mut v, value as u64);
            push_str(&mut v, " at offset ");
            push_u64(&mut v, (self.offset - 1) as u64);
            Err(chars_to_string(v.as_slice()))
        }
    }

    /// Length-prefixed UTF-8 string (`u16` length + payload bytes).
    pub fn string(&mut self) -> (res: Result<String, String>)
        ensures
            final(self).bytes() == old(self).bytes(),
            match sp_string(old(self).bytes(), old(self).pos()) {
                Ok((v, p)) => res matches Ok(s) && s@ == v && final(self).pos() == p,
                Err(f) => res matches Err(e) && reports(e@, f),
            },
            res is Err ==> final(self).pos() == prefixed_stop(old(self).bytes(), old(self).pos()),
    {
        reveal(sp_string);
        let len = self.u16()?;
        let bytes = self.take(len as usize)?;
        match utf8_decode(bytes) {
            Ok(s) => Ok(s),
            Err(detail) => {
                let mut v: Vec<char> = Vec::new();
                push_str(&mut v, "CIRCUIT_UTF8|");
                push_str(&mut v, detail.as_str());
                proof {
                    reveal_strlit("CIRCUIT_UTF8|");
                }
                Err(chars_to_string(v.as_slice()))
            },
        }
    }

    /// Length-prefixed opaque byte buffer (`u16` length + payload bytes).
    pub fn bytes_u16(&mut self) -> (res: Result<Vec<u8>, String>)
        ensures
            final(self).bytes() == old(self).bytes(),
            match sp_bytes_u16(old(self).bytes(), old(self).pos()) {
                Ok((v, p)) => res matches Ok(b) && b@ == v && final(self).pos() == p,
                Err(f) => res matches Err(e) && reports(e@, f),
            },
            res is Err ==> final(self).pos() == prefixed_stop(old(self).bytes(), old(self).pos()),
    {
        let len = self.u16()?;
        let bytes = self.take(len as usize)?;
        Ok(bytes_to_vec(bytes))
    }

    /// Two `i16`s packed as a `(x, y)` point.
    pub fn point(&mut self) -> (res: Result<(i16, i16), String>)
        ensures
            final(self).bytes() == old(self).bytes(),
            match sp_point(old(self).bytes(), old(self).pos()) {
                Ok((v, p)) => res == Ok::<(i16, i16), String>(v) && final(self).pos() == p,
                Err(f) => res matches Err(e) && reports(e@, f),
            },
            res is Err ==> final(self).pos() == i16_stop(old(self).bytes(), old(self).pos()),
    {
        let x = self.i16()?;
        let y = self.i16()?;
        Ok((x, y))
    }

    /// Read an `i64` length prefix and validate it against [`MAX_SEQUENCE_ITEMS`].
    pub fn count_i64(&mut self, label: &str) -> (res: Result<usize, String>)
        ensures
            final(self).bytes() == old(self).bytes(),
            match sp_count(old(self).bytes(), old(self).pos(), label@) {
                Ok((v, p)) => res == Ok::<usize, String>(v) && final(self).pos() == p,
                Err(f) => res matches Err(e) && reports(e@, f),
            },
            res is Err ==> final(self).pos() == i64_stop(old(self).bytes(), old(self).pos()),
    {
        let value = self.i64()?;
        if !(0 <= value && value <= MAX_SEQUENCE_ITEMS) {
            let mut v: Vec<char> = Vec::new();
            push_str(&mut v, "CIRCUIT_BAD_COUNT|");
            push_str(&mut v, label);
            push_str(&mut v, "=");
            push_i64(&mut v, value);
            push_str(&mut v, " exceeds 10000000");
            return Err(chars_to_string(v.as_slice()));
        }
        Ok(value as usize)
    }

    /// Require the reader to have consumed exactly the input.
    pub fn finish(&self) -> (res: Result<(), String>)
        ensures
            match sp_finish(self.bytes(), self.pos()) {
                Ok(()) => res is Ok,
                Err(f) => res matches Err(e) && reports(e@, f),
            },
    {
        proof { use_type_invariant(self); }
        let trailing = self.data.len() - self.offset;
        if trailing != 0 {
            let mut v: Vec<char> = Vec::new();
            push_str(&mut v, "CIRCUIT_TRAILING|");
            push_u64(&mut v, trailing as u64);
            push_str(&mut v, " unconsumed byte(s)");
            Err(chars_to_string(v.as_slice()))
        } else {
            Ok(())
        }
    }
}


// ───────────────────────── writer ─────────────────────────

/// Exact message when a string is too long for its `u16` length prefix.
pub open spec fn string_too_long_text(n: nat) -> Seq<char> {
    "CIRCUIT_STRING_TOO_LONG|"@ + dec_nat(n) + " bytes exceeds 65535"@
}

/// Exact message when a byte buffer is too long for its `u16` length prefix.
pub open spec fn bytes_too_long_text(n: nat) -> Seq<char> {
    "CIRCUIT_BYTES_TOO_LONG|"@ + dec_nat(n) + " bytes exceeds 65535"@
}

/// Write primitives to an owned `Vec<u8>`.
pub struct Writer {
    pub data: Vec<u8>,
}

impl Writer {
    /// Construct an empty writer.
    pub fn new() -> (w: Self)
        ensures
            w.data@ == Seq::<u8>::empty(),
    {
        Writer { data: Vec::new() }
    }

    /// Append raw bytes.
    pub fn pack(&mut self, bytes: &[u8])
        ensures
            final(self).data@ == old(self).data@ + bytes@,
    {
        let ghost start = self.data@;
        let mut i: usize = 0;
        while i < bytes.len()
            invariant
                i <= bytes@.len(),
                self.data@ == start + bytes@.take(i as int),
            decreases bytes@.len() - i,
        {
            self.data.push(bytes[i]);
            i = i + 1;
            assert(bytes@.take(i as int) =~= bytes@.take((i - 1) as int).push(bytes@[i - 1]));
        }
        assert(bytes@.take(bytes@.len() as int) =~= bytes@);
    }

    /// Append a single byte.
    pub fn u8(&mut self, value: u8)
        ensures
            final(self).data@ == old(self).data@.push(value),
    {
        self.data.push(value);
    }

    fn put_u16(&mut self, value: u16)
        ensures
            final(self).data@ == old(self).data@ + u16_bytes(value as int),
    {
        proof {
            reveal(byte0);
            reveal(byte1);
        }
        self.data.push((value % 256) as u8);
        self.data.push((value / 256) as u8);
        assert(self.data@ =~= old(self).data@ + u16_bytes(value as int));
    }

    fn put_u32(&mut self, value: u32)
        ensures
            final(self).data@ == old(self).data@ + u32_bytes(value as int),
    {
        let lo = (value % 65536) as u16;
        let hi = (value / 65536) as u16;
        assert(u32_bytes(value as int) == u16_bytes(lo as int) + u16_bytes(hi as int));
        self.put_u16(lo);
        self.put_u16(hi);
        assert(self.data@ =~= old(self).data@ + u32_bytes(value as int));
    }

    fn put_u64(&mut self, value: u64)
        ensures
            final(self).data@ == old(self).data@ + u64_bytes(value as int),
    {
        let lo = (value % 4294967296) as u32;
        let hi = (value / 4294967296) as u32;
        assert(u64_bytes(value as int) == u32_bytes(lo as int) + u32_bytes(hi as int));
        self.put_u32(lo);
        self.put_u32(hi);
        assert(self.data@ =~= old(self).data@ + u64_bytes(value as int));
    }

    /// Append a little-endian `u16`.
    pub fn u16(&mut self, value: u16) -> (res: Result<(), String>)
        ensures
            res is Ok,
            final(self).data@ == old(self).data@ + u16_bytes(value as int),
    {
        self.put_u16(value);
        Ok(())
    }

    /// Append a little-endian `i16`.
    pub fn i16(&mut self, value: i16) -> (res: Result<(), String>)
        ensures
            res is Ok,
            final(self).data@ == old(self).data@ + i16_bytes(value as int),
    {
        let u: u16 = if value < 0 { ((value + 32767 + 1) as u16) + 32768 } else { value as u16 };
        self.put_u16(u);
        Ok(())
    }

    /// Append a little-endian `u32`.
    pub fn u32(&mut self, value: u32) -> (res: Result<(), String>)
        ensures
            res is Ok,
            final(self).data@ == old(self).data@ + u32_bytes(value as int),
    {
        self.put_u32(value);
        Ok(())
    }

    /// Append a little-endian `i64`.
    pub fn i64(&mut self, value: i64) -> (res: Result<(), String>)
        ensures
            res is Ok,
            final(self).data@ == old(self).data@ + i64_bytes(value as int),
    {
        let u: u64 = if value < 0 {
            ((value + 0x7fff_ffff_ffff_ffff + 1) as u64) + 0x8000_0000_0000_0000
        } else {
            value as u64
        };
        self.put_u64(u);
        Ok(())
    }

    /// Append a little-endian `u64`.
    pub fn u64(&mut self, value: u64) -> (res: Result<(), String>)
        ensures
            res is Ok,
            final(self).data@ == old(self).data@ + u64_bytes(value as int),
    {
        self.put_u64(value);
        Ok(())
    }

    /// Append a `u8` 0/1 boolean.
    pub fn boolean(&mut self, value: bool)
        ensures
            final(self).data@ == old(self).data@ + bool_bytes(value),
    {
        self.u8(if value { 1 } else { 0 });
        assert(self.data@ =~= old(self).data@ + bool_bytes(value));
    }

    /// Append a `u16`-prefixed UTF-8 string.
    pub fn string(&mut self, value: &str) -> (res: Result<(), String>)
        ensures
            res is Ok <==> encode_utf8(value@).len() <= MAX_STRING_BYTES,
            res matches Ok(_) ==> final(self).data@ == old(self).data@ + string_bytes(value@),
            res matches Err(e) ==> e@ == string_too_long_text(encode_utf8(value@).len())
                && final(self).data@ == old(self).data@,
    {
        let bytes = value.as_bytes();
        if bytes.len() > MAX_STRING_BYTES {
            let mut v: Vec<char> = Vec::new();
            push_str(&mut v, "CIRCUIT_STRING_TOO_LONG|");
            push_u64(&mut v, bytes.len() as u64);
            push_str(&mut v, " bytes exceeds 65535");
            return Err(chars_to_string(v.as_slice()));
        }
        self.put_u16(bytes.len() as u16);
        self.pack(bytes);
        assert(self.data@ =~= old(self).data@ + string_bytes(value@));
        Ok(())
    }

    /// Append a `u16`-prefixed opaque byte buffer.
    pub fn bytes_u16(&mut self, value: &[u8]) -> (res: Result<(), String>)
        ensures
            res is Ok <==> value@.len() <= MAX_STRING_BYTES,
            res matches Ok(_) ==> final(self).data@ == old(self).data@ + bytes_u16_bytes(value@),
            res matches Err(e) ==> e@ == bytes_too_long_text(value@.len())
                && final(self).data@ == old(self).data@,
    {
        if value.len() > MAX_STRING_BYTES {
            let mut v: Vec<char> = Vec::new();
            push_str(&mut v, "CIRCUIT_BYTES_TOO_LONG|");
            push_u64(&mut v, value.len() as u64);
            push_str(&mut v, " bytes exceeds 65535");
            return Err(chars_to_string(v.as_slice()));
        }
        self.put_u16(value.len() as u16);
        self.pack(value);
        assert(self.data@ =~= old(self).data@ + bytes_u16_bytes(value@));
        Ok(())
    }

    /// Append two `i16`s packed as `(x, y)`.
    pub fn point(&mut self, value: (i16, i16)) -> (res: Result<(), String>)
        ensures
            res is Ok,
            final(self).data@ == old(self).data@ + point_bytes(value),
    {
        let _ = self.i16(value.0);
        let _ = self.i16(value.1);
        assert(self.data@ =~= old(self).data@ + point_bytes(value));
        Ok(())
    }

    /// Append an `i64` length prefix (the count's 64-bit pattern).
    pub fn count_i64(&mut self, value: usize) -> (res: Result<(), String>)
        ensures
            res is Ok,
            final(self).data@ == old(self).data@ + u64_bytes(value as int),
    {
        self.put_u64(value as u64);
        Ok(())
    }
}

impl Default for Writer {
    fn default() -> (w: Self)
        ensures
            w.data@ == Seq::<u8>::empty(),
    {
        Self::new()
    }
}


// ───────────────────────── write/read agreement ─────────────────────────

/// `enc` sits at offset `o` of `d`.
#[verifier::opaque]
pub open spec fn at(d: Seq<u8>, o: nat, enc: Seq<u8>) -> bool {
    o + enc.len() <= d.len() && d.subrange(o as int, o as int + enc.len() as int) == enc
}

proof fn lemma_le2(v: int, d: Seq<u8>, o: nat)
    requires
        0 <= v < 65536,
        at(d, o, u16_bytes(v)),
    ensures
        le2(d, o as int) == v,
{
    reveal(at);
    reveal(byte0);
    reveal(byte1);
    reveal(le2);
    assert(d[o as int] == u16_bytes(v)[0]);
    assert(d[o as int + 1] == u16_bytes(v)[1]);
}

proof fn lemma_le4(v: int, d: Seq<u8>, o: nat)
    requires
        0 <= v < 4294967296,
        at(d, o, u32_bytes(v)),
    ensures
        le4(d, o as int) == v,
{
    reveal(le4);
    reveal(at);
    let e = u32_bytes(v);
    assert(d.subrange(o as int, o as int + 2) =~= e.subrange(0, 2));
    assert(d.subrange(o as int + 2, o as int + 4) =~= e.subrange(2, 4));
    assert(e.subrange(0, 2) =~= u16_bytes(v % 65536));
    assert(e.subrange(2, 4) =~= u16_bytes((v / 65536) % 65536));
    lemma_le2(v % 65536, d, o);
    lemma_le2((v / 65536) % 65536, d, o + 2);
}

proof fn lemma_le8(v: int, d: Seq<u8>, o: nat)
    requires
        0 <= v < 0x1_0000_0000_0000_0000,
        at(d, o, u64_bytes(v)),
    ensures
        le8(d, o as int) == v,
{
    reveal(le8);
    reveal(at);
    let e = u64_bytes(v);
    assert(d.subrange(o as int, o as int + 4) =~= e.subrange(0, 4));
    assert(d.subrange(o as int + 4, o as int + 8) =~= e.subrange(4, 8));
    assert(e.subrange(0, 4) =~= u32_bytes(v % 4294967296));
    assert(e.subrange(4, 8) =~= u32_bytes((v / 4294967296) % 4294967296));
    lemma_le4(v % 4294967296, d, o);
    lemma_le4((v / 4294967296) % 4294967296, d, o + 4);
}

/// Reading a `u16` where one was written gives it back.
pub proof fn lemma_read_u16(v: u16, d: Seq<u8>, o: nat)
    requires
        at(d, o, u16_bytes(v as int)),
    ensures
        sp_u16(d, o) == Ok::<(u16, nat), Fault>((v, o + 2)),
{
    reveal(at);
    lemma_le2(v as int, d, o);
}

/// Reading an `i16` where one was written gives it back.
pub proof fn lemma_read_i16(v: i16, d: Seq<u8>, o: nat)
    requires
        at(d, o, i16_bytes(v as int)),
    ensures
        sp_i16(d, o) == Ok::<(i16, nat), Fault>((v, o + 2)),
{
    reveal(signed16);
    reveal(at);
    lemma_le2(unsigned16(v as int), d, o);
}

/// Reading a `u32` where one was written gives it back.
pub proof fn lemma_read_u32(v: u32, d: Seq<u8>, o: nat)
    requires
        at(d, o, u32_bytes(v as int)),
    ensures
        sp_u32(d, o) == Ok::<(u32, nat), Fault>((v, o + 4)),
{
    reveal(at);
    lemma_le4(v as int, d, o);
}

/// Reading a `u64` where one was written gives it back.
pub proof fn lemma_read_u64(v: u64, d: Seq<u8>, o: nat)
    requires
        at(d, o, u64_bytes(v as int)),
    ensures
        sp_u64(d, o) == Ok::<(u64, nat), Fault>((v, o + 8)),
{
    reveal(at);
    lemma_le8(v as int, d, o);
}

/// Reading an `i64` where one was written gives it back.
pub proof fn lemma_read_i64(v: i64, d: Seq<u8>, o: nat)
    requires
        at(d, o, i64_bytes(v as int)),
    ensures
        sp_i64(d, o) == Ok::<(i64, nat), Fault>((v, o + 8)),
{
    reveal(signed64);
    reveal(at);
    lemma_le8(unsigned64(v as int), d, o);
}

/// Reading a boolean where one was written gives it back.
pub proof fn lemma_read_bool(v: bool, d: Seq<u8>, o: nat)
    requires
        at(d, o, bool_bytes(v)),
    ensures
        sp_bool(d, o) == Ok::<(bool, nat), Fault>((v, o + 1)),
{
    reveal(at);
    assert(d[o as int] == bool_bytes(v)[0]);
}

/// Reading a point where one was written gives it back.
pub proof fn lemma_read_point(v: (i16, i16), d: Seq<u8>, o: nat)
    requires
        at(d, o, point_bytes(v)),
    ensures
        sp_point(d, o) == Ok::<((i16, i16), nat), Fault>((v, o + 4)),
{
    reveal(at);
    let e = point_bytes(v);
    assert(d.subrange(o as int, o as int + 2) =~= e.subrange(0, 2));
    assert(d.subrange(o as int + 2, o as int + 4) =~= e.subrange(2, 4));
    assert(e.subrange(0, 2) =~= i16_bytes(v.0 as int));
    assert(e.subrange(2, 4) =~= i16_bytes(v.1 as int));
    lemma_read_i16(v.0, d, o);
    lemma_read_i16(v.1, d, o + 2);
}

/// A point is read as two little-endian `i16`s, `x` first then `y`: for any
/// input with four bytes at `o`, the point read there is the `i16` at `o`
/// paired with the `i16` at `o + 2`, and the read ends four bytes on.
pub proof fn lemma_point_is_x_then_y(d: Seq<u8>, o: nat)
    requires
        o + 4 <= d.len(),
    ensures
        sp_i16(d, o) is Ok,
        sp_i16(d, o + 2) is Ok,
        sp_point(d, o) == Ok::<((i16, i16), nat), Fault>(
            ((sp_i16(d, o)->Ok_0.0, sp_i16(d, o + 2)->Ok_0.0), o + 4),
        ),
{
}

/// A written point is `x` as a little-endian `i16`, then `y`: the first two
/// bytes read back as `x` and the next two as `y`.
pub proof fn lemma_point_bytes_x_then_y(p: (i16, i16))
    ensures
        point_bytes(p).len() == 4,
        sp_i16(point_bytes(p), 0) == Ok::<(i16, nat), Fault>((p.0, 2)),
        sp_i16(point_bytes(p), 2) == Ok::<(i16, nat), Fault>((p.1, 4)),
{
    let e = point_bytes(p);
    assert(e.len() == 4);
    assert(at(e, 0, i16_bytes(p.0 as int))) by {
        reveal(at);
        assert(e.subrange(0, 2) =~= i16_bytes(p.0 as int));
    }
    assert(at(e, 2, i16_bytes(p.1 as int))) by {
        reveal(at);
        assert(e.subrange(2, 4) =~= i16_bytes(p.1 as int));
    }
    lemma_read_i16(p.0, e, 0);
    lemma_read_i16(p.1, e, 2);
}

/// Reading a length-prefixed buffer where one was written gives it back.
pub proof fn lemma_read_bytes_u16(b: Seq<u8>, d: Seq<u8>, o: nat)
    requires
        b.len() <= MAX_STRING_BYTES,
        at(d, o, bytes_u16_bytes(b)),
    ensures
        sp_bytes_u16(d, o) == Ok::<(Seq<u8>, nat), Fault>((b, o + 2 + b.len())),
{
    reveal(at);
    let e = bytes_u16_bytes(b);
    assert(d.subrange(o as int, o as int + 2) =~= e.subrange(0, 2));
    assert(e.subrange(0, 2) =~= u16_bytes(b.len() as int));
    lemma_read_u16(b.len() as u16, d, o);
    assert(d.subrange(o as int + 2, o as int + 2 + b.len() as int) =~= e.subrange(2, 2 + b.len() as int));
    assert(e.subrange(2, 2 + b.len() as int) =~= b);
}

/// Reading a length-prefixed string where one was written gives it back.
pub proof fn lemma_read_string(s: Seq<char>, d: Seq<u8>, o: nat)
    requires
        encode_utf8(s).len() <= MAX_STRING_BYTES,
        at(d, o, string_bytes(s)),
    ensures
        sp_string(d, o) == Ok::<(Seq<char>, nat), Fault>((s, o + string_bytes(s).len())),
{
    reveal(sp_string);
    lemma_read_bytes_u16(encode_utf8(s), d, o);
    encode_utf8_valid_utf8(s);
    encode_utf8_decode_utf8(s);
}

/// Reading a count where a small enough one was written gives it back.
pub proof fn lemma_read_count(v: usize, label: Seq<char>, d: Seq<u8>, o: nat)
    requires
        v <= MAX_SEQUENCE_ITEMS,
        at(d, o, u64_bytes(v as int)),
    ensures
        sp_count(d, o, label) == Ok::<(usize, nat), Fault>((v, o + 8)),
{
    reveal(signed64);
    reveal(at);
    lemma_le8(v as int, d, o);
}

/// `&s[start..end]`.
fn slice_range<'b>(s: &'b [u8], start: usize, end: usize) -> (r: &'b [u8])
    requires
        start <= end <= s@.len(),
    ensures
        r@ == s@.subrange(start as int, end as int),
{
    &s[start..end]
}

/// Copy of a byte slice.
pub fn bytes_to_vec(b: &[u8]) -> (v: Vec<u8>)
    ensures
        v@ == b@,
{
    let mut v: Vec<u8> = Vec::new();
    let mut i: usize = 0;
    while i < b.len()
        invariant
            i <= b@.len(),
            v@ == b@.take(i as int),
        decreases b@.len() - i,
    {
        v.push(b[i]);
        i = i + 1;
        assert(b@.take(i as int) =~= b@.take((i - 1) as int).push(b@[i - 1]));
    }
    assert(b@.take(b@.len() as int) =~= b@);
    v
}

/// The display text of the `Utf8Error` that `std::str::from_utf8` reports
/// for `bytes`.
pub uninterp spec fn utf8_error(bytes: Seq<u8>) -> Seq<char>;

/// Decode UTF-8 bytes with `std::str::from_utf8`. The contract claims: it
/// succeeds exactly on valid UTF-8, with the decoded text; on failure the
/// error is the `Utf8Error`'s display text, `utf8_error(bytes)`.
#[verifier::external_body]
fn utf8_decode(bytes: &[u8]) -> (res: Result<String, String>)
    ensures
        res is Ok <==> valid_utf8(bytes@),
        res matches Ok(s) ==> s@ == decode_utf8(bytes@),
        res matches Err(e) ==> e@ == utf8_error(bytes@),
{
    std::str::from_utf8(bytes).map(|s| s.to_owned()).map_err(|e| e.to_string())
}

fn le8_exec(b: &[u8]) -> (v: u64)
    requires
        b@.len() == 8,
    ensures
        v == le8(b@, 0),
{
    proof {
        reveal(le2);
        reveal(le4);
        reveal(le8);
    }
    let w0: u64 = b[0] as u64 + 256 * (b[1] as u64);
    let w1: u64 = b[2] as u64 + 256 * (b[3] as u64);
    let w2: u64 = b[4] as u64 + 256 * (b[5] as u64);
    let w3: u64 = b[6] as u64 + 256 * (b[7] as u64);
    let lo: u64 = w0 + 65536 * w1;
    let hi: u64 = w2 + 65536 * w3;
    lo + 4294967296 * hi
}

fn to_i16(u: u16) -> (v: i16)
    ensures
        v == signed16(u as int),
{
    reveal(signed16);
    if u < 32768 {
        u as i16
    } else {
        ((u - 32768) as i16) - 32767 - 1
    }
}

fn to_i64(u: u64) -> (v: i64)
    ensures
        v == signed64(u as int),
{
    reveal(signed64);
    if u < 0x8000_0000_0000_0000 {
        u as i64
    } else {
        ((u - 0x8000_0000_0000_0000) as i64) - 0x7fff_ffff_ffff_ffff - 1
    }
}

} // verus!
