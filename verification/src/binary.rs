//! Little-endian binary reading and writing over in-memory byte streams.
//!
//! A `ByteReader` stands for a buffered reader: its view is the sequence of
//! bytes not yet consumed. A `ByteWriter` stands for a buffered writer: its
//! view is the sequence of bytes written so far. Floats travel as their
//! IEEE-754 bit patterns (`u32`).
use vstd::prelude::*;
use vstd::utf8::*;

verus! {

/// What a read can run into.
#[derive(Debug, PartialEq, Eq, Structural)]
pub enum BinaryError {
    /// The stream ended before the value was complete.
    UnexpectedEof,
}

/// The unsigned value of the `n` little-endian bytes of `s` from `at` on.
pub open spec fn le_value(s: Seq<u8>, at: int, n: nat) -> nat
    decreases n,
{
    if n == 0 {
        0
    } else {
        s[at] as nat + 256 * le_value(s, at + 1, (n - 1) as nat)
    }
}

/// The little-endian `u16` at the front of `s`.
pub open spec fn le_u16(s: Seq<u8>) -> u16 {
    le_value(s, 0, 2) as u16
}

/// The little-endian `u32` at position `at` of `s`.
pub open spec fn le_u32_at(s: Seq<u8>, at: int) -> u32 {
    le_value(s, at, 4) as u32
}

/// The `i16` whose two's complement bits are `v`.
pub open spec fn i16_of_bits(v: u16) -> i16 {
    (if v >= 0x8000 { v - 0x1_0000 } else { v as int }) as i16
}

/// The `i32` whose two's complement bits are `v`.
pub open spec fn i32_of_bits(v: u32) -> i32 {
    (if v >= 0x8000_0000 { v - 0x1_0000_0000 } else { v as int }) as i32
}

/// The two's complement bits of `v`.
pub open spec fn bits_of_i16(v: i16) -> u16 {
    (if v < 0 { v + 0x1_0000 } else { v as int }) as u16
}

/// The two's complement bits of `v`.
pub open spec fn bits_of_i32(v: i32) -> u32 {
    (if v < 0 { v + 0x1_0000_0000 } else { v as int }) as u32
}

/// The little-endian bytes of `v`.
pub open spec fn u16_bytes(v: u16) -> Seq<u8> {
    seq![(v % 256) as u8, (v / 256) as u8]
}

/// The little-endian bytes of `v`.
pub open spec fn u32_bytes(v: u32) -> Seq<u8> {
    seq![(v % 256) as u8, ((v / 256) % 256) as u8, ((v / 0x1_0000) % 256) as u8, (v / 0x100_0000) as u8]
}

/// The bytes of a length-prefixed string: the byte length as a
/// little-endian `u32`, then the UTF-8 bytes.
pub open spec fn string_bytes(s: Seq<char>) -> Seq<u8> {
    u32_bytes(encode_utf8(s).len() as u32) + encode_utf8(s)
}

/// The bytes of a 3x3 matrix of `u32` bit patterns, row by row.
pub open spec fn matrix3_bytes(m: [[u32; 3]; 3]) -> Seq<u8> {
    matrix3_prefix(m, 9)
}

/// The bytes of a sequence of words, each little-endian, one after another.
pub open spec fn words_bytes(s: Seq<u32>) -> Seq<u8> {
    Seq::new(4 * s.len(), |j: int| u32_bytes(s[j / 4])[j % 4])
}

/// The first `n` little-endian `u32` values of `s`.
pub open spec fn le_u32s(s: Seq<u8>, n: nat) -> Seq<u32> {
    Seq::new(n, |k: int| le_u32_at(s, 4 * k))
}

/// The entries of a 4x4 matrix, row by row.
pub open spec fn matrix4_words(m: [[u32; 4]; 4]) -> Seq<u32> {
    Seq::new(16, |k: int| m[k / 4][k % 4])
}

/// The first three little-endian `u32` values of `s`: a 3-vector `(x, y, z)`.
pub open spec fn vector3_of(s: Seq<u8>) -> [u32; 3] {
    [le_u32_at(s, 0), le_u32_at(s, 4), le_u32_at(s, 8)]
}

/// The first four little-endian `u32` values of `s`: a quaternion
/// `(x, y, z, w)`.
pub open spec fn quaternion_of(s: Seq<u8>) -> [u32; 4] {
    [le_u32_at(s, 0), le_u32_at(s, 4), le_u32_at(s, 8), le_u32_at(s, 12)]
}

/// The 4x4 matrix whose entries are the little-endian `u32` values at the
/// front of `s`, row by row.
pub open spec fn matrix4_of(s: Seq<u8>) -> [[u32; 4]; 4] {
    let w = le_u32s(s, 16);
    [
        [w[0], w[1], w[2], w[3]],
        [w[4], w[5], w[6], w[7]],
        [w[8], w[9], w[10], w[11]],
        [w[12], w[13], w[14], w[15]],
    ]
}

/// The 3x3 matrix whose entries are the little-endian `u32` values at the
/// front of `s`, row by row.
pub open spec fn matrix3_of(s: Seq<u8>) -> [[u32; 3]; 3] {
    [
        [le_u32_at(s, 0), le_u32_at(s, 4), le_u32_at(s, 8)],
        [le_u32_at(s, 12), le_u32_at(s, 16), le_u32_at(s, 20)],
        [le_u32_at(s, 24), le_u32_at(s, 28), le_u32_at(s, 32)],
    ]
}

/// Whether reading a string of `size` bytes from `s` would meet bytes that
/// are not UTF-8 (reading them panics).
pub open spec fn fixed_string_fits(s: Seq<u8>, size: nat) -> bool {
    s.len() >= size ==> valid_utf8(s.take(size as int))
}

/// Whether reading a length-prefixed string from `s` would meet bytes that
/// are not UTF-8.
pub open spec fn string_fits(s: Seq<u8>) -> bool {
    s.len() >= 4 ==> fixed_string_fits(s.skip(4), le_u32_at(s, 0) as nat)
}

/// A reader over bytes held in memory.
pub struct ByteReader {
    data: Vec<u8>,
    pos: usize,
}

impl View for ByteReader {
    type V = Seq<u8>;

    closed spec fn view(&self) -> Seq<u8> {
        self.data@.subrange(self.pos as int, self.data@.len() as int)
    }
}

/// `String::from_utf8(bytes).unwrap()`: the string that valid UTF-8 bytes
/// encode. The claim is that std decodes UTF-8 as the standard says.
#[verifier::external_body]
fn string_from_utf8(bytes: Vec<u8>) -> (s: String)
    requires
        valid_utf8(bytes@),
    ensures
        s@ == decode_utf8(bytes@),
{
    String::from_utf8(bytes).unwrap()
}

impl ByteReader {
    #[verifier::type_invariant]
    spec fn position_in_range(self) -> bool {
        self.pos <= self.data@.len()
    }

    /// A reader at the start of `data`.
    pub fn new(data: Vec<u8>) -> (r: Self)
        ensures
            r@ == data@,
    {
        ByteReader { data, pos: 0 }
    }

    /// The number of bytes not yet read.
    pub fn remaining(&self) -> (n: usize)
        ensures
            n == self@.len(),
    {
        proof {
            use_type_invariant(self);
        }
        self.data.len() - self.pos
    }

    /// Consumes `n` bytes, or all that are left when fewer are.
    fn consume(&mut self, n: usize) -> (got: bool)
        ensures
            got == (old(self)@.len() >= n),
            got ==> final(self)@ == old(self)@.skip(n as int),
            !got ==> final(self)@ == Seq::<u8>::empty(),
    {
        proof {
            use_type_invariant(&*self);
        }
        if self.data.len() - self.pos >= n {
            self.pos = self.pos + n;
            true
        } else {
            self.pos = self.data.len();
            false
        }
    }

    /// The byte at offset `k` of what is left.
    fn byte_at(&self, k: usize) -> (b: u8)
        requires
            k < self@.len(),
        ensures
            b == self@[k as int],
    {
        proof {
            use_type_invariant(self);
        }
        let len = self.data.len();
        assert(self@.len() == len - self.pos);
        assert(self@[k as int] == self.data@[self.pos + k]);
        self.data[self.pos + k]
    }

    /// Reads exactly `n` bytes.
    pub fn read_bytes(&mut self, n: usize) -> (r: Result<Vec<u8>, BinaryError>)
        ensures
            old(self)@.len() >= n ==> (r matches Ok(v) && v@ == old(self)@.take(n as int)) && final(self)@
                == old(self)@.skip(n as int),
            old(self)@.len() < n ==> r == Err::<Vec<u8>, BinaryError>(BinaryError::UnexpectedEof) && final(self)@.len()
                == 0,
    {
        if self.remaining() < n {
            self.consume(n);
            return Err(BinaryError::UnexpectedEof);
        }
        let mut out: Vec<u8> = Vec::new();
        let mut k: usize = 0;
        while k < n
            invariant
                n <= self@.len(),
                k <= n,
                out@ == self@.take(k as int),
            decreases n - k,
        {
            out.push(self.byte_at(k));
            k = k + 1;
            assert(out@ =~= self@.take(k as int));
        }
        self.consume(n);
        Ok(out)
    }

    /// The `n`-byte little-endian value at the front, `n <= 4`.
    fn front_le(&self, n: usize) -> (v: u32)
        requires
            n <= 4,
            n <= self@.len(),
        ensures
            v == le_value(self@, 0, n as nat),
    {
        let mut v: u32 = 0;
        let mut k: usize = n;
        while k > 0
            invariant
                k <= n <= 4,
                n <= self@.len(),
                v as nat == le_value(self@, k as int, (n - k) as nat),
                v < pow256(n - k),
            decreases k,
        {
            k = k - 1;
            let b = self.byte_at(k);
            assert(le_value(self@, k as int, (n - k) as nat) == b as nat + 256 * le_value(self@, k + 1, (n - k - 1) as nat));
            proof {
                lemma_pow256_step((n - k - 1) as nat);
            }
            v = v * 256 + b as u32;
        }
        v
    }
}

/// `256^k` for the small `k` that matter here.
pub open spec fn pow256(k: int) -> int {
    if k <= 0 { 1 } else if k == 1 { 0x100 } else if k == 2 { 0x1_0000 } else if k == 3 { 0x100_0000 } else { 0x1_0000_0000 }
}

proof fn lemma_pow256_step(k: nat)
    requires
        k < 4,
    ensures
        pow256(k + 1int) == 256 * pow256(k as int),
{
}

/// The next byte, without consuming it.
pub fn peek(buf: &mut ByteReader) -> (r: Result<u8, BinaryError>)
    requires
        old(buf)@.len() > 0,
    ensures
        r == Ok::<u8, BinaryError>(old(buf)@[0]),
        final(buf)@ == old(buf)@,
{
    Ok(buf.byte_at(0))
}

/// Up to `amount` next bytes, without consuming them.
pub fn peek_many(buf: &mut ByteReader, amount: usize) -> (r: Result<Vec<u8>, BinaryError>)
    ensures
        r is Ok,
        r matches Ok(v) ==> v@ == old(buf)@.take(if amount < old(buf)@.len() { amount as int } else { old(buf)@.len() as int }),
        final(buf)@ == old(buf)@,
{
    let left = buf.remaining();
    let len = if left < amount { left } else { amount };
    let mut out: Vec<u8> = Vec::new();
    let mut k: usize = 0;
    while k < len
        invariant
            len <= buf@.len(),
            k <= len,
            out@ == buf@.take(k as int),
        decreases len - k,
    {
        out.push(buf.byte_at(k));
        k = k + 1;
        assert(out@ =~= buf@.take(k as int));
    }
    Ok(out)
}

/// Reads one byte.
pub fn read_byte(buf: &mut ByteReader) -> (r: Result<u8, BinaryError>)
    ensures
        old(buf)@.len() >= 1 ==> r == Ok::<u8, BinaryError>(old(buf)@[0]) && final(buf)@ == old(buf)@.skip(1),
        old(buf)@.len() < 1 ==> r == Err::<u8, BinaryError>(BinaryError::UnexpectedEof) && final(buf)@.len() == 0,
{
    if buf.remaining() < 1 {
        buf.consume(1);
        return Err(BinaryError::UnexpectedEof);
    }
    let b = buf.byte_at(0);
    buf.consume(1);
    Ok(b)
}

/// Reads a little-endian `u16`.
pub fn read_u16(buf: &mut ByteReader) -> (r: Result<u16, BinaryError>)
    ensures
        old(buf)@.len() >= 2 ==> r == Ok::<u16, BinaryError>(le_u16(old(buf)@)) && final(buf)@ == old(buf)@.skip(2),
        old(buf)@.len() < 2 ==> r == Err::<u16, BinaryError>(BinaryError::UnexpectedEof) && final(buf)@.len() == 0,
{
    if buf.remaining() < 2 {
        buf.consume(2);
        return Err(BinaryError::UnexpectedEof);
    }
    let v = buf.front_le(2);
    buf.consume(2);
    Ok(v as u16)
}

/// Reads a little-endian `i16`.
pub fn read_i16(buf: &mut ByteReader) -> (r: Result<i16, BinaryError>)
    ensures
        old(buf)@.len() >= 2 ==> r == Ok::<i16, BinaryError>(i16_of_bits(le_u16(old(buf)@))) && final(buf)@
            == old(buf)@.skip(2),
        old(buf)@.len() < 2 ==> r == Err::<i16, BinaryError>(BinaryError::UnexpectedEof) && final(buf)@.len() == 0,
{
    match read_u16(buf) {
        Ok(v) => {
            let x = v as i16;
            assert(x == i16_of_bits(v)) by (bit_vector)
                requires x == v as i16;
            Ok(x)
        },
        Err(e) => Err(e),
    }
}

/// Reads a little-endian `u32`.
pub fn read_u32(buf: &mut ByteReader) -> (r: Result<u32, BinaryError>)
    ensures
        old(buf)@.len() >= 4 ==> r == Ok::<u32, BinaryError>(le_u32_at(old(buf)@, 0)) && final(buf)@ == old(buf)@.skip(4),
        old(buf)@.len() < 4 ==> r == Err::<u32, BinaryError>(BinaryError::UnexpectedEof) && final(buf)@.len() == 0,
{
    if buf.remaining() < 4 {
        buf.consume(4);
        return Err(BinaryError::UnexpectedEof);
    }
    let v = buf.front_le(4);
    buf.consume(4);
    Ok(v)
}

/// Reads a little-endian `i32`.
pub fn read_i32(buf: &mut ByteReader) -> (r: Result<i32, BinaryError>)
    ensures
        old(buf)@.len() >= 4 ==> r == Ok::<i32, BinaryError>(i32_of_bits(le_u32_at(old(buf)@, 0))) && final(buf)@
            == old(buf)@.skip(4),
        old(buf)@.len() < 4 ==> r == Err::<i32, BinaryError>(BinaryError::UnexpectedEof) && final(buf)@.len() == 0,
{
    match read_u32(buf) {
        Ok(v) => {
            let x = v as i32;
            assert(x == i32_of_bits(v)) by (bit_vector)
                requires x == v as i32;
            Ok(x)
        },
        Err(e) => Err(e),
    }
}

/// Reads a string of `size` bytes. Its bytes must be UTF-8.
pub fn read_fixed_string(buf: &mut ByteReader, size: usize) -> (r: Result<String, BinaryError>)
    requires
        fixed_string_fits(old(buf)@, size as nat),
    ensures
        old(buf)@.len() >= size ==> (r matches Ok(s) && s@ == decode_utf8(old(buf)@.take(size as int)))
            && final(buf)@ == old(buf)@.skip(size as int),
        old(buf)@.len() < size ==> r == Err::<String, BinaryError>(BinaryError::UnexpectedEof) && final(buf)@.len()
            == 0,
{
    if buf.remaining() < size {
        buf.consume(size);
        return Err(BinaryError::UnexpectedEof);
    }
    let bytes = match peek_many(buf, size) {
        Ok(b) => b,
        Err(e) => return Err(e),
    };
    buf.consume(size);
    Ok(string_from_utf8(bytes))
}

/// Reads a string prefixed by its byte length as a little-endian `u32`. Its
/// bytes must be UTF-8.
pub fn read_string(buf: &mut ByteReader) -> (r: Result<String, BinaryError>)
    requires
        string_fits(old(buf)@),
    ensures
        ({
            let s0 = old(buf)@;
            let size = le_u32_at(s0, 0) as int;
            &&& (s0.len() >= 4 && s0.len() - 4 >= size) ==> (r matches Ok(s) && s@ == decode_utf8(
                s0.subrange(4, 4 + size),
            )) && final(buf)@ == s0.skip(4 + size)
            &&& !(s0.len() >= 4 && s0.len() - 4 >= size) ==> r == Err::<String, BinaryError>(
                BinaryError::UnexpectedEof,
            ) && final(buf)@.len() == 0
        }),
{
    let ghost s0 = buf@;
    let size = match read_u32(buf) {
        Ok(v) => v as usize,
        Err(e) => return Err(e),
    };
    assert(buf@ == s0.skip(4));
    proof {
        if 4 + size <= s0.len() {
            assert(s0.skip(4).take(size as int) =~= s0.subrange(4, 4 + size));
            assert(s0.skip(4).skip(size as int) =~= s0.skip(4 + size));
        }
    }
    read_fixed_string(buf, size)
}

/// Reads a 3x3 matrix of IEEE-754 `f32` bit patterns, row by row, each a
/// little-endian `u32`.
pub fn read_matrix3f(buf: &mut ByteReader) -> (r: Result<[[u32; 3]; 3], BinaryError>)
    ensures
        old(buf)@.len() >= 36 ==> r == Ok::<[[u32; 3]; 3], BinaryError>(matrix3_of(old(buf)@)) && final(buf)@
            == old(buf)@.skip(36),
        old(buf)@.len() < 36 ==> r == Err::<[[u32; 3]; 3], BinaryError>(BinaryError::UnexpectedEof) && final(buf)@.len()
            == 0,
{
    let ghost s0 = buf@;
    let mut vals: Vec<u32> = Vec::new();
    let mut i: usize = 0;
    while i < 9
        invariant
            i <= 9,
            s0 == old(buf)@,
            s0.len() >= 4 * i,
            buf@ == s0.skip(4 * i),
            vals@.len() == i,
            forall|k: int| 0 <= k < i ==> vals@[k] == le_u32_at(s0, 4 * k),
        decreases 9 - i,
    {
        let ghost before = buf@;
        match read_u32(buf) {
            Ok(v) => {
                proof {
                    lemma_le_value_skip(s0, 4 * i, 0, 4);
                }
                vals.push(v);
            },
            Err(e) => {
                assert(before.len() == s0.len() - 4 * i);
                return Err(e);
            },
        }
        assert(buf@ =~= s0.skip(4 * (i + 1)));
        i = i + 1;
    }
    Ok([[vals[0], vals[1], vals[2]], [vals[3], vals[4], vals[5]], [vals[6], vals[7], vals[8]]])
}

/// Reads `n` IEEE-754 `f32` bit patterns, each a little-endian `u32`.
fn read_f32s(buf: &mut ByteReader, n: usize) -> (r: Result<Vec<u32>, BinaryError>)
    ensures
        old(buf)@.len() >= 4 * n ==> (r matches Ok(v) && v@ == le_u32s(old(buf)@, n as nat)) && final(buf)@
            == old(buf)@.skip(4 * n),
        old(buf)@.len() < 4 * n ==> r == Err::<Vec<u32>, BinaryError>(BinaryError::UnexpectedEof)
            && final(buf)@.len() == 0,
{
    let ghost s0 = buf@;
    let mut vals: Vec<u32> = Vec::new();
    let mut i: usize = 0;
    while i < n
        invariant
            i <= n,
            s0 == old(buf)@,
            s0.len() >= 4 * i,
            buf@ == s0.skip(4 * i),
            vals@ == le_u32s(s0, i as nat),
        decreases n - i,
    {
        let ghost before = buf@;
        match read_u32(buf) {
            Ok(v) => {
                proof {
                    lemma_le_value_skip(s0, 4 * i, 0, 4);
                }
                vals.push(v);
            },
            Err(e) => {
                assert(before.len() == s0.len() - 4 * i);
                return Err(e);
            },
        }
        assert(buf@ =~= s0.skip(4 * (i + 1)));
        i = i + 1;
        assert(vals@ =~= le_u32s(s0, i as nat));
    }
    Ok(vals)
}

/// Reads an IEEE-754 `f32` as its bit pattern, a little-endian `u32`.
pub fn read_f32(buf: &mut ByteReader) -> (r: Result<u32, BinaryError>)
    ensures
        old(buf)@.len() >= 4 ==> r == Ok::<u32, BinaryError>(le_u32_at(old(buf)@, 0)) && final(buf)@ == old(buf)@.skip(4),
        old(buf)@.len() < 4 ==> r == Err::<u32, BinaryError>(BinaryError::UnexpectedEof) && final(buf)@.len() == 0,
{
    read_u32(buf)
}

/// Reads a 3-vector of `f32` bit patterns `(x, y, z)`.
pub fn read_vector3f(buf: &mut ByteReader) -> (r: Result<[u32; 3], BinaryError>)
    ensures
        old(buf)@.len() >= 12 ==> r == Ok::<[u32; 3], BinaryError>(vector3_of(old(buf)@)) && final(buf)@
            == old(buf)@.skip(12),
        old(buf)@.len() < 12 ==> r == Err::<[u32; 3], BinaryError>(BinaryError::UnexpectedEof) && final(buf)@.len()
            == 0,
{
    match read_f32s(buf, 3) {
        Ok(v) => {
            let a: [u32; 3] = [v[0], v[1], v[2]];
            assert(a =~= vector3_of(old(buf)@));
            Ok(a)
        },
        Err(e) => Err(e),
    }
}

/// Reads a quaternion of `f32` bit patterns `(x, y, z, w)`.
pub fn read_quaternionf(buf: &mut ByteReader) -> (r: Result<[u32; 4], BinaryError>)
    ensures
        old(buf)@.len() >= 16 ==> r == Ok::<[u32; 4], BinaryError>(quaternion_of(old(buf)@)) && final(buf)@
            == old(buf)@.skip(16),
        old(buf)@.len() < 16 ==> r == Err::<[u32; 4], BinaryError>(BinaryError::UnexpectedEof) && final(buf)@.len()
            == 0,
{
    match read_f32s(buf, 4) {
        Ok(v) => {
            let a: [u32; 4] = [v[0], v[1], v[2], v[3]];
            assert(a =~= quaternion_of(old(buf)@));
            Ok(a)
        },
        Err(e) => Err(e),
    }
}

/// Reads a 4x4 matrix of `f32` bit patterns, row by row.
pub fn read_matrix4f(buf: &mut ByteReader) -> (r: Result<[[u32; 4]; 4], BinaryError>)
    ensures
        old(buf)@.len() >= 64 ==> r == Ok::<[[u32; 4]; 4], BinaryError>(matrix4_of(old(buf)@)) && final(buf)@
            == old(buf)@.skip(64),
        old(buf)@.len() < 64 ==> r == Err::<[[u32; 4]; 4], BinaryError>(BinaryError::UnexpectedEof)
            && final(buf)@.len() == 0,
{
    match read_f32s(buf, 16) {
        Ok(v) => {
            let m: [[u32; 4]; 4] = [
                [v[0], v[1], v[2], v[3]],
                [v[4], v[5], v[6], v[7]],
                [v[8], v[9], v[10], v[11]],
                [v[12], v[13], v[14], v[15]],
            ];
            let ghost e = matrix4_of(old(buf)@);
            assert(m[0] =~= e[0]);
            assert(m[1] =~= e[1]);
            assert(m[2] =~= e[2]);
            assert(m[3] =~= e[3]);
            assert(m =~= e);
            Ok(m)
        },
        Err(e) => Err(e),
    }
}

/// Little-endian values read after dropping a prefix are those of the whole
/// sequence further on.
pub proof fn lemma_le_value_skip(s: Seq<u8>, d: int, at: int, n: nat)
    requires
        0 <= d,
        0 <= at,
        d + at + n <= s.len(),
    ensures
        le_value(s.skip(d), at, n) == le_value(s, d + at, n),
    decreases n,
{
    if n > 0 {
        lemma_le_value_skip(s, d, at + 1, (n - 1) as nat);
    }
}

/// A writer that collects bytes in memory.
pub struct ByteWriter {
    data: Vec<u8>,
}

impl View for ByteWriter {
    type V = Seq<u8>;

    closed spec fn view(&self) -> Seq<u8> {
        self.data@
    }
}

impl ByteWriter {
    /// A writer with nothing written.
    pub fn new() -> (w: Self)
        ensures
            w@ == Seq::<u8>::empty(),
    {
        ByteWriter { data: Vec::new() }
    }

    /// The bytes written.
    pub fn into_bytes(self) -> (v: Vec<u8>)
        ensures
            v@ == self@,
    {
        self.data
    }

    /// Appends bytes.
    pub fn write_all(&mut self, bytes: &[u8]) -> (r: Result<(), BinaryError>)
        ensures
            r is Ok,
            final(self)@ == old(self)@ + bytes@,
    {
        let ghost start = self.data@;
        let mut k: usize = 0;
        while k < bytes.len()
            invariant
                k <= bytes@.len(),
                self.data@ == start + bytes@.take(k as int),
            decreases bytes@.len() - k,
        {
            self.data.push(bytes[k]);
            k = k + 1;
            assert(self.data@ =~= start + bytes@.take(k as int));
        }
        assert(bytes@.take(k as int) =~= bytes@);
        Ok(())
    }
}

/// Writes one byte.
pub fn write_byte(writer: &mut ByteWriter, value: u8) -> (r: Result<(), BinaryError>)
    ensures
        r is Ok,
        final(writer)@ == old(writer)@.push(value),
{
    let bytes: [u8; 1] = [value];
    let r = writer.write_all(&bytes);
    assert(bytes@ =~= seq![value]);
    r
}

/// The little-endian bytes of a `u16`.
fn u16_le_bytes(value: u16) -> (b: [u8; 2])
    ensures
        b@ == u16_bytes(value),
{
    let b0 = (value & 0xFFu16) as u8;
    let b1 = (value >> 8u16) as u8;
    assert(b0 == value % 256 && b1 == value / 256) by (bit_vector)
        requires b0 == (value & 0xFFu16) as u8, b1 == (value >> 8u16) as u8;
    let b = [b0, b1];
    assert(b@ =~= u16_bytes(value));
    b
}

/// The little-endian bytes of a `u32`.
fn u32_le_bytes(value: u32) -> (b: [u8; 4])
    ensures
        b@ == u32_bytes(value),
{
    let b0 = (value & 0xFFu32) as u8;
    let b1 = ((value >> 8u32) & 0xFFu32) as u8;
    let b2 = ((value >> 16u32) & 0xFFu32) as u8;
    let b3 = (value >> 24u32) as u8;
    assert(b0 == value % 256 && b1 == (value / 256) % 256 && b2 == (value / 0x1_0000) % 256 && b3 == value
        / 0x100_0000) by (bit_vector)
        requires
            b0 == (value & 0xFFu32) as u8,
            b1 == ((value >> 8u32) & 0xFFu32) as u8,
            b2 == ((value >> 16u32) & 0xFFu32) as u8,
            b3 == (value >> 24u32) as u8,
    ;
    let b = [b0, b1, b2, b3];
    assert(b@ =~= u32_bytes(value));
    b
}

/// Writes a little-endian `u16`.
pub fn write_u16(writer: &mut ByteWriter, value: u16) -> (r: Result<(), BinaryError>)
    ensures
        r is Ok,
        final(writer)@ == old(writer)@ + u16_bytes(value),
{
    let b = u16_le_bytes(value);
    writer.write_all(&b)
}

/// Writes a little-endian `i16`.
pub fn write_i16(writer: &mut ByteWriter, value: i16) -> (r: Result<(), BinaryError>)
    ensures
        r is Ok,
        final(writer)@ == old(writer)@ + u16_bytes(bits_of_i16(value)),
{
    let bits = value as u16;
    assert(bits == bits_of_i16(value)) by (bit_vector)
        requires bits == value as u16;
    write_u16(writer, bits)
}

/// Writes a little-endian `u32`.
pub fn write_u32(writer: &mut ByteWriter, value: u32) -> (r: Result<(), BinaryError>)
    ensures
        r is Ok,
        final(writer)@ == old(writer)@ + u32_bytes(value),
{
    let b = u32_le_bytes(value);
    writer.write_all(&b)
}

/// Writes a little-endian `i32`.
pub fn write_i32(writer: &mut ByteWriter, value: i32) -> (r: Result<(), BinaryError>)
    ensures
        r is Ok,
        final(writer)@ == old(writer)@ + u32_bytes(bits_of_i32(value)),
{
    let bits = value as u32;
    assert(bits == bits_of_i32(value)) by (bit_vector)
        requires bits == value as u32;
    write_u32(writer, bits)
}

/// Writes a string prefixed by its byte length as a little-endian `u32`
/// (the length is cut to 32 bits).
pub fn write_string(writer: &mut ByteWriter, value: &str) -> (r: Result<(), BinaryError>)
    ensures
        r is Ok,
        final(writer)@ == old(writer)@ + string_bytes(value@),
{
    let bytes = value.as_bytes();
    let len = bytes.len();
    write_u32(writer, #[verifier::truncate] (len as u32));
    let r = writer.write_all(bytes);
    assert(writer@ =~= old(writer)@ + string_bytes(value@));
    r
}

/// Writes the UTF-8 bytes of a string, with no length.
pub fn write_fixed_string(writer: &mut ByteWriter, value: &str) -> (r: Result<(), BinaryError>)
    ensures
        r is Ok,
        final(writer)@ == old(writer)@ + encode_utf8(value@),
{
    writer.write_all(value.as_bytes())
}

/// Writes a 3x3 matrix of IEEE-754 `f32` bit patterns, row by row.
pub fn write_matrix3f(writer: &mut ByteWriter, value: [[u32; 3]; 3]) -> (r: Result<(), BinaryError>)
    ensures
        r is Ok,
        final(writer)@ == old(writer)@ + matrix3_bytes(value),
{
    let ghost start = writer@;
    let mut i: usize = 0;
    while i < 9
        invariant
            i <= 9,
            writer@ == start + matrix3_prefix(value, i as int),
        decreases 9 - i,
    {
        let row: [u32; 3] = value[i / 3];
        write_u32(writer, row[i % 3]);
        proof {
            lemma_matrix3_prefix_step(value, i as int);
        }
        assert(writer@ =~= start + matrix3_prefix(value, i + 1));
        i = i + 1;
    }
    Ok(())
}

/// Writes IEEE-754 `f32` bit patterns, each a little-endian `u32`.
fn write_f32s(writer: &mut ByteWriter, ws: &[u32]) -> (r: Result<(), BinaryError>)
    ensures
        r is Ok,
        final(writer)@ == old(writer)@ + words_bytes(ws@),
{
    let ghost start = writer@;
    let mut k: usize = 0;
    while k < ws.len()
        invariant
            k <= ws@.len(),
            writer@ == start + words_bytes(ws@.take(k as int)),
        decreases ws@.len() - k,
    {
        write_u32(writer, ws[k]);
        proof {
            lemma_words_bytes_push(ws@.take(k as int), ws@[k as int]);
            assert(ws@.take(k as int).push(ws@[k as int]) =~= ws@.take(k + 1));
        }
        k = k + 1;
        assert(writer@ =~= start + words_bytes(ws@.take(k as int)));
    }
    assert(ws@.take(k as int) =~= ws@);
    Ok(())
}

/// Adding a word to a sequence adds its four bytes to its encoding.
proof fn lemma_words_bytes_push(t: Seq<u32>, x: u32)
    ensures
        words_bytes(t.push(x)) == words_bytes(t) + u32_bytes(x),
{
    let n = t.len();
    assert forall|j: int| 0 <= j < 4 * n + 4 implies #[trigger] words_bytes(t.push(x))[j] == (words_bytes(t)
        + u32_bytes(x))[j] by {
        if j < 4 * n {
            assert(j / 4 < n);
        } else {
            assert(j / 4 == n && j % 4 == j - 4 * n);
        }
    }
    assert(words_bytes(t.push(x)) =~= words_bytes(t) + u32_bytes(x));
}

/// Writes an IEEE-754 `f32` given by its bit pattern, a little-endian `u32`.
pub fn write_f32(writer: &mut ByteWriter, bits: u32) -> (r: Result<(), BinaryError>)
    ensures
        r is Ok,
        final(writer)@ == old(writer)@ + u32_bytes(bits),
{
    write_u32(writer, bits)
}

/// Writes a 3-vector of `f32` bit patterns `(x, y, z)`.
pub fn write_vector3f(writer: &mut ByteWriter, value: [u32; 3]) -> (r: Result<(), BinaryError>)
    ensures
        r is Ok,
        final(writer)@ == old(writer)@ + words_bytes(value@),
{
    write_f32s(writer, &value)
}

/// Writes a quaternion of `f32` bit patterns `(x, y, z, w)`.
pub fn write_quaternionf(writer: &mut ByteWriter, value: [u32; 4]) -> (r: Result<(), BinaryError>)
    ensures
        r is Ok,
        final(writer)@ == old(writer)@ + words_bytes(value@),
{
    write_f32s(writer, &value)
}

/// Writes a 4x4 matrix of `f32` bit patterns, row by row.
pub fn write_matrix4f(writer: &mut ByteWriter, value: [[u32; 4]; 4]) -> (r: Result<(), BinaryError>)
    ensures
        r is Ok,
        final(writer)@ == old(writer)@ + words_bytes(matrix4_words(value)),
{
    let r0: [u32; 4] = value[0];
    let r1: [u32; 4] = value[1];
    let r2: [u32; 4] = value[2];
    let r3: [u32; 4] = value[3];
    let flat: [u32; 16] = [
        r0[0], r0[1], r0[2], r0[3],
        r1[0], r1[1], r1[2], r1[3],
        r2[0], r2[1], r2[2], r2[3],
        r3[0], r3[1], r3[2], r3[3],
    ];
    assert(flat@ =~= matrix4_words(value));
    write_f32s(writer, &flat)
}

/// The bytes of the first `k` entries of a matrix, row by row.
pub open spec fn matrix3_prefix(m: [[u32; 3]; 3], k: int) -> Seq<u8>
    decreases k,
{
    if k <= 0 {
        Seq::empty()
    } else {
        matrix3_prefix(m, k - 1) + u32_bytes(m[(k - 1) / 3][(k - 1) % 3])
    }
}

proof fn lemma_matrix3_prefix_step(m: [[u32; 3]; 3], i: int)
    requires
        0 <= i < 9,
    ensures
        matrix3_prefix(m, i + 1) == matrix3_prefix(m, i) + u32_bytes(m[i / 3][i % 3]),
{
}


/// Reading a `u16` gives back what writing it wrote.
pub proof fn lemma_u16_roundtrip(v: u16, rest: Seq<u8>)
    ensures
        (u16_bytes(v) + rest).len() >= 2,
        le_u16(u16_bytes(v) + rest) == v,
        (u16_bytes(v) + rest).skip(2) == rest,
{
    let s = u16_bytes(v) + rest;
    reveal_with_fuel(le_value, 3);
    assert(s[0] == v % 256 && s[1] == v / 256);
    assert(s.skip(2) =~= rest);
}

/// Reading a `u32` gives back what writing it wrote.
pub proof fn lemma_u32_roundtrip(v: u32, rest: Seq<u8>)
    ensures
        (u32_bytes(v) + rest).len() >= 4,
        le_u32_at(u32_bytes(v) + rest, 0) == v,
        (u32_bytes(v) + rest).skip(4) == rest,
{
    let s = u32_bytes(v) + rest;
    reveal_with_fuel(le_value, 5);
    assert(s[0] == v % 256 && s[1] == (v / 256) % 256 && s[2] == (v / 0x1_0000) % 256 && s[3] == v / 0x100_0000);
    assert(s.skip(4) =~= rest);
}

/// Reading an `i16` gives back what writing it wrote.
pub proof fn lemma_i16_roundtrip(v: i16, rest: Seq<u8>)
    ensures
        i16_of_bits(le_u16(u16_bytes(bits_of_i16(v)) + rest)) == v,
{
    lemma_u16_roundtrip(bits_of_i16(v), rest);
}

/// Reading an `i32` gives back what writing it wrote.
pub proof fn lemma_i32_roundtrip(v: i32, rest: Seq<u8>)
    ensures
        i32_of_bits(le_u32_at(u32_bytes(bits_of_i32(v)) + rest, 0)) == v,
{
    lemma_u32_roundtrip(bits_of_i32(v), rest);
}

/// Reading a length-prefixed string gives back the string that writing it
/// wrote, when its UTF-8 length fits in 32 bits.
pub proof fn lemma_string_roundtrip(s: Seq<char>, rest: Seq<u8>)
    requires
        encode_utf8(s).len() < 0x1_0000_0000,
    ensures
        string_fits(string_bytes(s) + rest),
        le_u32_at(string_bytes(s) + rest, 0) == encode_utf8(s).len(),
        decode_utf8((string_bytes(s) + rest).subrange(4, 4 + encode_utf8(s).len() as int)) == s,
        (string_bytes(s) + rest).skip(4 + encode_utf8(s).len() as int) == rest,
{
    let e = encode_utf8(s);
    let n = e.len() as u32;
    let all = string_bytes(s) + rest;
    assert(all =~= u32_bytes(n) + (e + rest));
    lemma_u32_roundtrip(n, e + rest);
    assert(all.skip(4) =~= e + rest);
    assert((e + rest).take(e.len() as int) =~= e);
    assert(all.subrange(4, 4 + e.len() as int) =~= e);
    assert(all.skip(4 + e.len() as int) =~= rest);
    vstd::utf8::encode_utf8_valid_utf8(s);
    vstd::utf8::encode_utf8_decode_utf8(s);
}

/// Reading a matrix gives back what writing it wrote.
pub proof fn lemma_matrix3_roundtrip(m: [[u32; 3]; 3], rest: Seq<u8>)
    ensures
        matrix3_of(matrix3_bytes(m) + rest) == m,
        (matrix3_bytes(m) + rest).skip(36) == rest,
{
    let all = matrix3_bytes(m) + rest;
    lemma_matrix3_prefix_len(m, 9);
    assert forall|k: int| 0 <= k < 9 implies #[trigger] le_u32_at(all, 4 * k) == m[k / 3][k % 3] by {
        lemma_matrix3_entry(m, rest, k);
    }
    assert(le_u32_at(all, 4 * 0int) == m[0][0]);
    assert(le_u32_at(all, 4 * 1int) == m[0][1]);
    assert(le_u32_at(all, 4 * 2int) == m[0][2]);
    assert(le_u32_at(all, 4 * 3int) == m[1][0]);
    assert(le_u32_at(all, 4 * 4int) == m[1][1]);
    assert(le_u32_at(all, 4 * 5int) == m[1][2]);
    assert(le_u32_at(all, 4 * 6int) == m[2][0]);
    assert(le_u32_at(all, 4 * 7int) == m[2][1]);
    assert(le_u32_at(all, 4 * 8int) == m[2][2]);
    let r = matrix3_of(all);
    assert(r[0] =~= m[0]);
    assert(r[1] =~= m[1]);
    assert(r[2] =~= m[2]);
    assert(r =~= m);
    assert(all.skip(36) =~= rest);
}

proof fn lemma_matrix3_entry(m: [[u32; 3]; 3], rest: Seq<u8>, k: int)
    requires
        0 <= k < 9,
    ensures
        le_u32_at(matrix3_bytes(m) + rest, 4 * k) == m[k / 3][k % 3],
{
    let all = matrix3_bytes(m) + rest;
    let v = m[k / 3][k % 3];
    lemma_matrix3_prefix_len(m, 9);
    lemma_matrix3_prefix_entry(m, 9, k);
    assert(all.subrange(4 * k, 4 * k + 4) =~= u32_bytes(v));
    lemma_le_value_subrange(all, 4 * k, 4);
    lemma_u32_roundtrip(v, Seq::empty());
    assert(u32_bytes(v) + Seq::<u8>::empty() =~= u32_bytes(v));
}

proof fn lemma_matrix3_prefix_len(m: [[u32; 3]; 3], k: int)
    requires
        0 <= k <= 9,
    ensures
        matrix3_prefix(m, k).len() == 4 * k,
    decreases k,
{
    if k > 0 {
        lemma_matrix3_prefix_len(m, k - 1);
    }
}

proof fn lemma_matrix3_prefix_entry(m: [[u32; 3]; 3], n: int, k: int)
    requires
        0 <= k < n <= 9,
    ensures
        matrix3_prefix(m, n).subrange(4 * k, 4 * k + 4) == u32_bytes(m[k / 3][k % 3]),
    decreases n,
{
    lemma_matrix3_prefix_len(m, n - 1);
    let p = matrix3_prefix(m, n - 1);
    let e = u32_bytes(m[(n - 1) / 3][(n - 1) % 3]);
    assert(matrix3_prefix(m, n) == p + e);
    if k == n - 1 {
        assert((p + e).subrange(4 * k, 4 * k + 4) =~= e);
    } else {
        lemma_matrix3_prefix_entry(m, n - 1, k);
        assert((p + e).subrange(4 * k, 4 * k + 4) =~= p.subrange(4 * k, 4 * k + 4));
    }
}

/// A little-endian value depends only on its own bytes.
pub proof fn lemma_le_value_subrange(s: Seq<u8>, at: int, n: nat)
    requires
        0 <= at,
        at + n <= s.len(),
    ensures
        le_value(s, at, n) == le_value(s.subrange(at, at + n), 0, n),
    decreases n,
{
    if n > 0 {
        lemma_le_value_subrange(s, at + 1, (n - 1) as nat);
        assert(s.subrange(at, at + n).subrange(1, n as int) =~= s.subrange(at + 1, at + n));
        lemma_le_value_skip(s.subrange(at, at + n), 1, 0, (n - 1) as nat);
        assert(s.subrange(at, at + n).skip(1) =~= s.subrange(at + 1, at + n));
    }
}

/// Reading words gives back the words that were written, and leaves what
/// followed them.
pub proof fn lemma_words_roundtrip(ws: Seq<u32>, rest: Seq<u8>)
    ensures
        (words_bytes(ws) + rest).len() >= 4 * ws.len(),
        le_u32s(words_bytes(ws) + rest, ws.len()) == ws,
        (words_bytes(ws) + rest).skip((4 * ws.len()) as int) == rest,
{
    let all = words_bytes(ws) + rest;
    assert forall|k: int| 0 <= k < ws.len() implies #[trigger] le_u32s(all, ws.len())[k] == ws[k] by {
        assert forall|i: int| 0 <= i < 4 implies all.subrange(4 * k, 4 * k + 4)[i] == u32_bytes(ws[k])[i] by {
            assert(all[4 * k + i] == words_bytes(ws)[4 * k + i]);
            assert((4 * k + i) / 4 == k && (4 * k + i) % 4 == i);
        }
        assert(all.subrange(4 * k, 4 * k + 4) =~= u32_bytes(ws[k]));
        lemma_le_value_subrange(all, 4 * k, 4);
        lemma_u32_roundtrip(ws[k], Seq::empty());
        assert(u32_bytes(ws[k]) + Seq::<u8>::empty() =~= u32_bytes(ws[k]));
    }
    assert(le_u32s(all, ws.len()) =~= ws);
    assert(all.skip((4 * ws.len()) as int) =~= rest);
}

/// Reading a 3-vector gives back what writing it wrote.
pub proof fn lemma_vector3_roundtrip(v: [u32; 3], rest: Seq<u8>)
    ensures
        vector3_of(words_bytes(v@) + rest) == v,
        (words_bytes(v@) + rest).skip(12) == rest,
{
    lemma_words_roundtrip(v@, rest);
    let w = le_u32s(words_bytes(v@) + rest, 3);
    assert(w[0] == v[0] && w[1] == v[1] && w[2] == v[2]);
    assert(vector3_of(words_bytes(v@) + rest) =~= v);
}

/// Reading a quaternion gives back what writing it wrote.
pub proof fn lemma_quaternion_roundtrip(q: [u32; 4], rest: Seq<u8>)
    ensures
        quaternion_of(words_bytes(q@) + rest) == q,
        (words_bytes(q@) + rest).skip(16) == rest,
{
    lemma_words_roundtrip(q@, rest);
    let w = le_u32s(words_bytes(q@) + rest, 4);
    assert(w[0] == q[0] && w[1] == q[1] && w[2] == q[2] && w[3] == q[3]);
    assert(quaternion_of(words_bytes(q@) + rest) =~= q);
}

/// Reading a 4x4 matrix gives back what writing it wrote.
pub proof fn lemma_matrix4_roundtrip(m: [[u32; 4]; 4], rest: Seq<u8>)
    ensures
        matrix4_of(words_bytes(matrix4_words(m)) + rest) == m,
        (words_bytes(matrix4_words(m)) + rest).skip(64) == rest,
{
    let ws = matrix4_words(m);
    lemma_words_roundtrip(ws, rest);
    let r = matrix4_of(words_bytes(ws) + rest);
    assert forall|i: int, j: int| 0 <= i < 4 && 0 <= j < 4 implies r[i][j] == m[i][j] by {
        assert(ws[4 * i + j] == m[(4 * i + j) / 4][(4 * i + j) % 4]);
        assert((4 * i + j) / 4 == i && (4 * i + j) % 4 == j);
    }
    assert(r[0] =~= m[0]);
    assert(r[1] =~= m[1]);
    assert(r[2] =~= m[2]);
    assert(r[3] =~= m[3]);
    assert(r =~= m);
}

} // verus!
