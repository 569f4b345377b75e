//! The `.mod` mesh file: the eight bytes `HYLEUS_M`, then a zstd stream whose
//! payload is, little-endian throughout:
//!
//! - a type byte: bit 1 indices, bit 2 uvs, bit 4 normals, bit 8 texture,
//!   bit 16 a depth for the texture, bit 32 an armature (nothing follows for it);
//! - the vertex count (`i32`) and each position (three `f32`);
//! - with indices: their count (`i32`) and each index (`u32`);
//! - with uvs: a count (`i32`, cut to the vertex count) and that many uv pairs
//!   for the first vertices;
//! - with normals: the same, with three `f32` each;
//! - with a texture: its sample type (byte), width and height (`u32`), the
//!   depth (`u32`) when bit 16 is set (else the depth is 1), and
//!   `width * height * depth * 4` bytes of RGBA pixels.
//!
//! Floats travel as their IEEE-754 bit patterns (`u32`).
use vstd::prelude::*;
use crate::binary::{
    ByteReader, ByteWriter, BinaryError, le_u32_at, i32_of_bits, le_value, lemma_le_value_skip, lemma_le_value_subrange, lemma_u32_roundtrip, read_byte,
    read_u32, read_i32, write_byte, write_u32, u32_bytes, words_bytes,
};
use vstd::utf8::valid_utf8;
use crate::texture::{SampleType, sample_type_of_byte, sample_type_byte};

verus! {

/// The texture stored in a mesh file.
pub struct MeshTexture {
    pub sample_type: SampleType,
    pub width: u32,
    pub height: u32,
    pub depth: u32,
    pub pixels: Vec<u8>,
}

/// The contents of a mesh file. Positions, normals and uvs are `f32` bit
/// patterns, one entry per vertex.
pub struct MeshData {
    pub positions: Vec<[u32; 3]>,
    pub normals: Vec<[u32; 3]>,
    pub uvs: Vec<[u32; 2]>,
    pub indices: Option<Vec<u32>>,
    pub texture: Option<MeshTexture>,
}

/// A texture as a mathematical value.
pub struct TextureModel {
    pub sample_type: SampleType,
    pub width: u32,
    pub height: u32,
    pub depth: u32,
    pub pixels: Seq<u8>,
}

/// A mesh as a mathematical value.
pub struct MeshModel {
    pub positions: Seq<[u32; 3]>,
    pub normals: Seq<[u32; 3]>,
    pub uvs: Seq<[u32; 2]>,
    pub indices: Option<Seq<u32>>,
    pub texture: Option<TextureModel>,
}

impl View for MeshTexture {
    type V = TextureModel;

    open spec fn view(&self) -> TextureModel {
        TextureModel {
            sample_type: self.sample_type,
            width: self.width,
            height: self.height,
            depth: self.depth,
            pixels: self.pixels@,
        }
    }
}

impl View for MeshData {
    type V = MeshModel;

    open spec fn view(&self) -> MeshModel {
        MeshModel {
            positions: self.positions@,
            normals: self.normals@,
            uvs: self.uvs@,
            indices: match self.indices {
                Some(v) => Some(v@),
                None => None,
            },
            texture: match self.texture {
                Some(t) => Some(t@),
                None => None,
            },
        }
    }
}

/// Why a mesh file could not be read.
#[derive(Debug, PartialEq, Eq, Structural)]
pub enum ModError {
    /// The data ended before the mesh was complete, or the zstd stream
    /// ended inside a frame before it.
    UnexpectedEof,
    /// The first eight bytes are not `HYLEUS_M`.
    InvalidHeader,
    /// The zstd stream turned out not to be zstd data before the mesh was
    /// complete, or compressing failed.
    Compression,
    /// The file is one that the engine's loader cannot survive: a header that
    /// is not UTF-8, a negative uv or normal count followed by more entries
    /// than there are vertices, or a texture size past 32 bits.
    Malformed,
}

/// The `u32` at byte `at` of `p`.
pub open spec fn word(p: Seq<u8>, at: int) -> u32 {
    le_u32_at(p, at)
}

/// The `i32` at byte `at` of `p`.
pub open spec fn count_at(p: Seq<u8>, at: int) -> i32 {
    i32_of_bits(le_u32_at(p, at))
}

/// `n` words from byte `at` on.
pub open spec fn words_at(p: Seq<u8>, at: int, n: nat) -> Seq<u32> {
    Seq::new(n, |k: int| word(p, at + 4 * k))
}

/// `n` pairs of words from byte `at` on.
pub open spec fn pairs_at(p: Seq<u8>, at: int, n: nat) -> Seq<[u32; 2]> {
    Seq::new(n, |k: int| [word(p, at + 8 * k), word(p, at + 8 * k + 4)])
}

/// `n` triples of words from byte `at` on.
pub open spec fn triples_at(p: Seq<u8>, at: int, n: nat) -> Seq<[u32; 3]> {
    Seq::new(n, |k: int| [word(p, at + 12 * k), word(p, at + 12 * k + 4), word(p, at + 12 * k + 8)])
}

/// The number of vertices that a vertex count stands for.
pub open spec fn vertex_total(verts: i32) -> nat {
    if verts < 0 { 0 } else { verts as nat }
}

/// The index section from byte `at` on: the indices (none when absent or
/// empty) and where the next section starts.
pub open spec fn parse_indices(p: Seq<u8>, at: int, ty: u8) -> Result<(Option<Seq<u32>>, int), ModError> {
    if ty & 1 == 0 {
        Ok((None, at))
    } else if p.len() < at + 4 {
        Err(ModError::UnexpectedEof)
    } else {
        let n = count_at(p, at);
        if n < 0 || p.len() < at + 4 + 4 * n {
            Err(ModError::UnexpectedEof)
        } else {
            let list = words_at(p, at + 4, n as nat);
            Ok((if n > 0 { Some(list) } else { None }, at + 4 + 4 * n))
        }
    }
}

/// An attribute section of `width` words per vertex from byte `at` on, for
/// `verts` vertices: how many leading vertices it sets and where the next
/// section starts. A negative count makes the loader read entries until the
/// data ends (an error) or an entry falls past the last vertex (a panic).
pub open spec fn parse_attribute(p: Seq<u8>, at: int, present: bool, verts: i32, width: int) -> Result<(nat, int), ModError> {
    if !present {
        Ok((0, at))
    } else if p.len() < at + 4 {
        Err(ModError::UnexpectedEof)
    } else {
        let read = count_at(p, at);
        let c = if read < verts { read } else { verts };
        if c >= 0 {
            if p.len() < at + 4 + 4 * width * c {
                Err(ModError::UnexpectedEof)
            } else {
                Ok((c as nat, at + 4 + 4 * width * c))
            }
        } else if p.len() - (at + 4) >= 4 * width * (vertex_total(verts) + 1) {
            Err(ModError::Malformed)
        } else {
            Err(ModError::UnexpectedEof)
        }
    }
}

/// The byte count of a texture's pixels, or `None` when one of the products
/// `width * height`, `* depth`, `* 4` passes 32 bits.
pub open spec fn pixel_bytes(width: u32, height: u32, depth: u32) -> Option<nat> {
    if width * height > u32::MAX || width * height * depth > u32::MAX || width * height * depth * 4 > u32::MAX {
        None
    } else {
        Some((width * height * depth * 4) as nat)
    }
}

/// The texture section from byte `at` on.
pub open spec fn parse_texture(p: Seq<u8>, at: int, ty: u8) -> Result<Option<TextureModel>, ModError> {
    if ty & 8 == 0 {
        Ok(None)
    } else {
        let head = if ty & 0x10 != 0 { 13int } else { 9int };
        if p.len() < at + head {
            Err(ModError::UnexpectedEof)
        } else {
            let width = word(p, at + 1);
            let height = word(p, at + 5);
            let depth = if ty & 0x10 != 0 { word(p, at + 9) } else { 1u32 };
            match pixel_bytes(width, height, depth) {
                None => Err(ModError::Malformed),
                Some(n) => if p.len() < at + head + n {
                    Err(ModError::UnexpectedEof)
                } else {
                    Ok(
                        Some(
                            TextureModel {
                                sample_type: sample_type_of_byte(p[at]),
                                width,
                                height,
                                depth,
                                pixels: p.subrange(at + head, at + head + n),
                            },
                        ),
                    )
                },
            }
        }
    }
}

/// The first `c` of `n` entries read from `read`, the rest `zero`.
pub open spec fn leading<T>(read: Seq<T>, c: nat, n: nat, zero: T) -> Seq<T> {
    Seq::new(n, |k: int| if k < c { read[k] } else { zero })
}

/// What the loader makes of a decompressed payload.
pub open spec fn parse_payload(p: Seq<u8>) -> Result<MeshModel, ModError> {
    if p.len() < 5 {
        Err(ModError::UnexpectedEof)
    } else {
        let ty = p[0];
        let verts = count_at(p, 1);
        let nv = vertex_total(verts);
        if p.len() < 5 + 12 * nv {
            Err(ModError::UnexpectedEof)
        } else {
            match parse_indices(p, 5 + 12 * nv as int, ty) {
                Err(e) => Err(e),
                Ok((indices, at2)) => match parse_attribute(p, at2, ty & 2 != 0, verts, 2) {
                    Err(e) => Err(e),
                    Ok((cu, at3)) => match parse_attribute(p, at3, ty & 4 != 0, verts, 3) {
                        Err(e) => Err(e),
                        Ok((cn, at4)) => match parse_texture(p, at4, ty) {
                            Err(e) => Err(e),
                            Ok(texture) => Ok(
                                MeshModel {
                                    positions: triples_at(p, 5, nv),
                                    uvs: leading(pairs_at(p, at2 + 4, cu), cu, nv, [0u32, 0u32]),
                                    normals: leading(triples_at(p, at3 + 4, cn), cn, nv, [0u32, 0u32, 0u32]),
                                    indices,
                                    texture,
                                },
                            ),
                        },
                    },
                },
            }
        }
    }
}

/// The eight header bytes, `HYLEUS_M` in ASCII.
pub open spec fn mod_header() -> Seq<u8> {
    seq![0x48u8, 0x59u8, 0x4Cu8, 0x45u8, 0x55u8, 0x53u8, 0x5Fu8, 0x4Du8]
}

/// `n` words read from the front.
fn read_words(reader: &mut ByteReader, n: usize) -> (v: Vec<u32>)
    requires
        old(reader)@.len() >= 4 * n,
    ensures
        v@ == words_at(old(reader)@, 0, n as nat),
        final(reader)@ == old(reader)@.skip(4 * n),
{
    let ghost s0 = reader@;
    let mut v: Vec<u32> = Vec::new();
    let mut k: usize = 0;
    while k < n
        invariant
            k <= n,
            s0.len() >= 4 * n,
            reader@ == s0.skip(4 * k),
            v@ == words_at(s0, 0, k as nat),
        decreases n - k,
    {
        let x = match read_u32(reader) {
            Ok(x) => x,
            Err(_) => 0,
        };
        proof {
            lemma_le_value_skip(s0, 4 * k, 0, 4);
        }
        v.push(x);
        k = k + 1;
        assert(v@ =~= words_at(s0, 0, k as nat));
        assert(reader@ =~= s0.skip(4 * k));
    }
    v
}

/// `n` pairs of words read from the front.
fn read_pairs(reader: &mut ByteReader, n: usize) -> (v: Vec<[u32; 2]>)
    requires
        old(reader)@.len() >= 8 * n,
    ensures
        v@ == pairs_at(old(reader)@, 0, n as nat),
        final(reader)@ == old(reader)@.skip(8 * n),
{
    let ghost s0 = reader@;
    let mut v: Vec<[u32; 2]> = Vec::new();
    let mut k: usize = 0;
    while k < n
        invariant
            k <= n,
            s0.len() >= 8 * n,
            reader@ == s0.skip(8 * k),
            v@ == pairs_at(s0, 0, k as nat),
        decreases n - k,
    {
        let a = match read_u32(reader) {
            Ok(x) => x,
            Err(_) => 0,
        };
        let b = match read_u32(reader) {
            Ok(x) => x,
            Err(_) => 0,
        };
        proof {
            lemma_le_value_skip(s0, 8 * k, 0, 4);
            lemma_le_value_skip(s0, 8 * k + 4, 0, 4);
            assert(s0.skip(8 * k).skip(4) =~= s0.skip(8 * k + 4));
        }
        v.push([a, b]);
        k = k + 1;
        assert(v@ =~= pairs_at(s0, 0, k as nat));
        assert(reader@ =~= s0.skip(8 * k));
    }
    v
}

/// `n` triples of words read from the front.
fn read_triples(reader: &mut ByteReader, n: usize) -> (v: Vec<[u32; 3]>)
    requires
        old(reader)@.len() >= 12 * n,
    ensures
        v@ == triples_at(old(reader)@, 0, n as nat),
        final(reader)@ == old(reader)@.skip(12 * n),
{
    let ghost s0 = reader@;
    let mut v: Vec<[u32; 3]> = Vec::new();
    let mut k: usize = 0;
    while k < n
        invariant
            k <= n,
            s0.len() >= 12 * n,
            reader@ == s0.skip(12 * k),
            v@ == triples_at(s0, 0, k as nat),
        decreases n - k,
    {
        let a = match read_u32(reader) {
            Ok(x) => x,
            Err(_) => 0,
        };
        let b = match read_u32(reader) {
            Ok(x) => x,
            Err(_) => 0,
        };
        let c = match read_u32(reader) {
            Ok(x) => x,
            Err(_) => 0,
        };
        proof {
            lemma_le_value_skip(s0, 12 * k, 0, 4);
            lemma_le_value_skip(s0, 12 * k + 4, 0, 4);
            lemma_le_value_skip(s0, 12 * k + 8, 0, 4);
            assert(s0.skip(12 * k).skip(4) =~= s0.skip(12 * k + 4));
            assert(s0.skip(12 * k + 4).skip(4) =~= s0.skip(12 * k + 8));
        }
        v.push([a, b, c]);
        k = k + 1;
        assert(v@ =~= triples_at(s0, 0, k as nat));
        assert(reader@ =~= s0.skip(12 * k));
    }
    v
}

/// Words read at an offset are the words of the whole payload there.
proof fn lemma_words_skip(p: Seq<u8>, at: int, n: nat)
    requires
        0 <= at,
        at + 4 * n <= p.len(),
    ensures
        words_at(p.skip(at), 0, n) == words_at(p, at, n),
{
    assert forall|k: int| 0 <= k < n implies #[trigger] words_at(p.skip(at), 0, n)[k] == words_at(p, at, n)[k] by {
        lemma_le_value_skip(p, at, 4 * k, 4);
    }
    assert(words_at(p.skip(at), 0, n) =~= words_at(p, at, n));
}

/// Pairs read at an offset are the pairs of the whole payload there.
proof fn lemma_pairs_skip(p: Seq<u8>, at: int, n: nat)
    requires
        0 <= at,
        at + 8 * n <= p.len(),
    ensures
        pairs_at(p.skip(at), 0, n) == pairs_at(p, at, n),
{
    assert forall|k: int| 0 <= k < n implies #[trigger] pairs_at(p.skip(at), 0, n)[k] == pairs_at(p, at, n)[k] by {
        lemma_le_value_skip(p, at, 8 * k, 4);
        lemma_le_value_skip(p, at, 8 * k + 4, 4);
        assert(pairs_at(p.skip(at), 0, n)[k] =~= pairs_at(p, at, n)[k]);
    }
    assert(pairs_at(p.skip(at), 0, n) =~= pairs_at(p, at, n));
}

/// Triples read at an offset are the triples of the whole payload there.
proof fn lemma_triples_skip(p: Seq<u8>, at: int, n: nat)
    requires
        0 <= at,
        at + 12 * n <= p.len(),
    ensures
        triples_at(p.skip(at), 0, n) == triples_at(p, at, n),
{
    assert forall|k: int| 0 <= k < n implies #[trigger] triples_at(p.skip(at), 0, n)[k] == triples_at(p, at, n)[k] by {
        lemma_le_value_skip(p, at, 12 * k, 4);
        lemma_le_value_skip(p, at, 12 * k + 4, 4);
        lemma_le_value_skip(p, at, 12 * k + 8, 4);
        assert(triples_at(p.skip(at), 0, n)[k] =~= triples_at(p, at, n)[k]);
    }
    assert(triples_at(p.skip(at), 0, n) =~= triples_at(p, at, n));
}

/// The value of an optional index list.
pub open spec fn indices_view(o: Option<Vec<u32>>) -> Option<Seq<u32>> {
    match o {
        Some(v) => Some(v@),
        None => None,
    }
}

/// Reads the index section.
fn decode_indices(reader: &mut ByteReader, ty: u8, Ghost(p): Ghost<Seq<u8>>, Ghost(at): Ghost<int>) -> (r: Result<
    Option<Vec<u32>>,
    ModError,
>)
    requires
        0 <= at <= p.len(),
        old(reader)@ == p.skip(at),
    ensures
        match parse_indices(p, at, ty) {
            Ok((idx, at2)) => (r matches Ok(v) && indices_view(v) == idx) && final(reader)@ == p.skip(at2) && at
                <= at2 <= p.len(),
            Err(e) => r == Err::<Option<Vec<u32>>, ModError>(e),
        },
{
    if ty & 1 == 0 {
        return Ok(None);
    }
    let n = match read_i32(reader) {
        Ok(n) => n,
        Err(_) => return Err(ModError::UnexpectedEof),
    };
    proof {
        lemma_le_value_skip(p, at, 0, 4);
    }
    if n < 0 || (reader.remaining() as u64) < 4 * (n as u64) {
        return Err(ModError::UnexpectedEof);
    }
    assert(reader@ == p.skip(at + 4));
    let list = read_words(reader, n as usize);
    proof {
        lemma_words_skip(p, at + 4, n as nat);
        assert(p.skip(at + 4).skip(4 * n) =~= p.skip(at + 4 + 4 * n));
    }
    if n > 0 {
        Ok(Some(list))
    } else {
        Ok(None)
    }
}

/// Reads the count of an attribute section; `Ok(c)` with `c` the number of
/// leading vertices it sets.
fn decode_attribute_count(
    reader: &mut ByteReader,
    present: bool,
    verts: i32,
    width: u64,
    Ghost(p): Ghost<Seq<u8>>,
    Ghost(at): Ghost<int>,
) -> (r: Result<usize, ModError>)
    requires
        0 <= at <= p.len(),
        old(reader)@ == p.skip(at),
        width == 2 || width == 3,
    ensures
        match parse_attribute(p, at, present, verts, width as int) {
            Ok((c, at2)) => r == Ok::<usize, ModError>(c as usize) && c <= vertex_total(verts) && (if present {
                final(reader)@ == p.skip(at + 4) && at2 == at + 4 + 4 * width * c && at2 <= p.len()
            } else {
                final(reader)@ == old(reader)@ && at2 == at && c == 0
            }),
            Err(e) => r == Err::<usize, ModError>(e),
        },
{
    if !present {
        return Ok(0);
    }
    let read = match read_i32(reader) {
        Ok(n) => n,
        Err(_) => return Err(ModError::UnexpectedEof),
    };
    proof {
        lemma_le_value_skip(p, at, 0, 4);
    }
    let c = if read < verts { read } else { verts };
    let left = reader.remaining() as u64;
    assert(c <= 0x7FFF_FFFF);
    if c >= 0 {
        assert(4 * width * (c as u64) <= 12 * 0x7FFF_FFFF) by (nonlinear_arith)
            requires width <= 3, 0 <= c <= 0x7FFF_FFFF;
        if left < 4 * width * (c as u64) {
            return Err(ModError::UnexpectedEof);
        }
        Ok(c as usize)
    } else {
        let nv: u64 = if verts < 0 { 0 } else { verts as u64 };
        assert(nv <= 0x7FFF_FFFF);
        assert(4 * width * (nv + 1) <= 12 * 0x8000_0000) by (nonlinear_arith)
            requires width <= 3, nv <= 0x7FFF_FFFF;
        if left >= 4 * width * (nv + 1) {
            Err(ModError::Malformed)
        } else {
            Err(ModError::UnexpectedEof)
        }
    }
}

/// The uvs of `n` vertices: the first `read.len()` from `read`, the rest zero.
fn fill_pairs(read: Vec<[u32; 2]>, n: usize) -> (v: Vec<[u32; 2]>)
    requires
        read@.len() <= n,
    ensures
        v@ == leading(read@, read@.len(), n as nat, [0u32, 0u32]),
{
    let mut v: Vec<[u32; 2]> = Vec::new();
    let mut k: usize = 0;
    while k < n
        invariant
            read@.len() <= n,
            k <= n,
            v@ == leading(read@, read@.len(), k as nat, [0u32, 0u32]),
        decreases n - k,
    {
        if k < read.len() {
            v.push(read[k]);
        } else {
            v.push([0u32, 0u32]);
        }
        k = k + 1;
        assert(v@ =~= leading(read@, read@.len(), k as nat, [0u32, 0u32]));
    }
    v
}

/// The normals of `n` vertices: the first `read.len()` from `read`, the
/// rest zero.
fn fill_triples(read: Vec<[u32; 3]>, n: usize) -> (v: Vec<[u32; 3]>)
    requires
        read@.len() <= n,
    ensures
        v@ == leading(read@, read@.len(), n as nat, [0u32, 0u32, 0u32]),
{
    let mut v: Vec<[u32; 3]> = Vec::new();
    let mut k: usize = 0;
    while k < n
        invariant
            read@.len() <= n,
            k <= n,
            v@ == leading(read@, read@.len(), k as nat, [0u32, 0u32, 0u32]),
        decreases n - k,
    {
        if k < read.len() {
            v.push(read[k]);
        } else {
            v.push([0u32, 0u32, 0u32]);
        }
        k = k + 1;
        assert(v@ =~= leading(read@, read@.len(), k as nat, [0u32, 0u32, 0u32]));
    }
    v
}

/// The value of an optional texture.
pub open spec fn texture_view(o: Option<MeshTexture>) -> Option<TextureModel> {
    match o {
        Some(t) => Some(t@),
        None => None,
    }
}

/// Reads the texture section.
fn decode_texture(reader: &mut ByteReader, ty: u8, Ghost(p): Ghost<Seq<u8>>, Ghost(at): Ghost<int>) -> (r: Result<
    Option<MeshTexture>,
    ModError,
>)
    requires
        0 <= at <= p.len(),
        old(reader)@ == p.skip(at),
    ensures
        match parse_texture(p, at, ty) {
            Ok(t) => r matches Ok(v) && texture_view(v) == t,
            Err(e) => r == Err::<Option<MeshTexture>, ModError>(e),
        },
{
    if ty & 8 == 0 {
        return Ok(None);
    }
    let head: usize = if ty & 0x10 != 0 { 13 } else { 9 };
    if reader.remaining() < head {
        return Err(ModError::UnexpectedEof);
    }
    let sample_byte = match read_byte(reader) {
        Ok(b) => b,
        Err(_) => return Err(ModError::UnexpectedEof),
    };
    let sample_type = SampleType::from_byte(sample_byte);
    let width = match read_u32(reader) {
        Ok(v) => v,
        Err(_) => return Err(ModError::UnexpectedEof),
    };
    proof {
        lemma_le_value_skip(p, at + 1, 0, 4);
        assert(p.skip(at).skip(1) =~= p.skip(at + 1));
    }
    let height = match read_u32(reader) {
        Ok(v) => v,
        Err(_) => return Err(ModError::UnexpectedEof),
    };
    proof {
        lemma_le_value_skip(p, at + 5, 0, 4);
        assert(p.skip(at + 1).skip(4) =~= p.skip(at + 5));
        assert(p.skip(at + 5).skip(4) =~= p.skip(at + 9));
    }
    let depth = if ty & 0x10 != 0 {
        let d = match read_u32(reader) {
            Ok(v) => v,
            Err(_) => return Err(ModError::UnexpectedEof),
        };
        proof {
            lemma_le_value_skip(p, at + 9, 0, 4);
            assert(p.skip(at + 9).skip(4) =~= p.skip(at + 13));
        }
        d
    } else {
        1u32
    };
    assert(reader@ == p.skip(at + head));
    let count = match width.checked_mul(height) {
        None => return Err(ModError::Malformed),
        Some(wh) => match wh.checked_mul(depth) {
            None => return Err(ModError::Malformed),
            Some(whd) => match whd.checked_mul(4) {
                None => return Err(ModError::Malformed),
                Some(n) => n,
            },
        },
    };
    let pixels = match reader.read_bytes(count as usize) {
        Ok(v) => v,
        Err(_) => return Err(ModError::UnexpectedEof),
    };
    proof {
        assert(p.skip(at + head).take(count as int) =~= p.subrange(at + head, at + head + count));
    }
    Ok(Some(MeshTexture { sample_type, width, height, depth, pixels }))
}

/// Reads the uv section: the uvs of the leading vertices it sets.
fn decode_uvs(reader: &mut ByteReader, ty: u8, verts: i32, Ghost(p): Ghost<Seq<u8>>, Ghost(at): Ghost<int>) -> (r: Result<
    Vec<[u32; 2]>,
    ModError,
>)
    requires
        0 <= at <= p.len(),
        old(reader)@ == p.skip(at),
    ensures
        match parse_attribute(p, at, ty & 2 != 0, verts, 2) {
            Ok((c, at2)) => (r matches Ok(v) && v@ == pairs_at(p, at + 4, c)) && final(reader)@ == p.skip(at2) && at
                <= at2 <= p.len() && c <= vertex_total(verts),
            Err(e) => r == Err::<Vec<[u32; 2]>, ModError>(e),
        },
{
    let c = match decode_attribute_count(reader, ty & 2 != 0, verts, 2, Ghost(p), Ghost(at)) {
        Ok(c) => c,
        Err(e) => return Err(e),
    };
    let ghost at2 = parse_attribute(p, at, ty & 2 != 0, verts, 2).unwrap().1;
    let v = read_pairs(reader, c);
    proof {
        if ty & 2 != 0 {
            lemma_pairs_skip(p, at + 4, c as nat);
            assert(p.skip(at + 4).skip(8 * c) =~= p.skip(at2));
        } else {
            assert(v@ =~= pairs_at(p, at + 4, 0));
            assert(reader@ =~= p.skip(at2));
        }
    }
    Ok(v)
}

/// Reads the normal section: the normals of the leading vertices it sets.
fn decode_normals(reader: &mut ByteReader, ty: u8, verts: i32, Ghost(p): Ghost<Seq<u8>>, Ghost(at): Ghost<int>) -> (r: Result<
    Vec<[u32; 3]>,
    ModError,
>)
    requires
        0 <= at <= p.len(),
        old(reader)@ == p.skip(at),
    ensures
        match parse_attribute(p, at, ty & 4 != 0, verts, 3) {
            Ok((c, at2)) => (r matches Ok(v) && v@ == triples_at(p, at + 4, c)) && final(reader)@ == p.skip(at2) && at
                <= at2 <= p.len() && c <= vertex_total(verts),
            Err(e) => r == Err::<Vec<[u32; 3]>, ModError>(e),
        },
{
    let c = match decode_attribute_count(reader, ty & 4 != 0, verts, 3, Ghost(p), Ghost(at)) {
        Ok(c) => c,
        Err(e) => return Err(e),
    };
    let ghost at2 = parse_attribute(p, at, ty & 4 != 0, verts, 3).unwrap().1;
    let v = read_triples(reader, c);
    proof {
        if ty & 4 != 0 {
            lemma_triples_skip(p, at + 4, c as nat);
            assert(p.skip(at + 4).skip(12 * c) =~= p.skip(at2));
        } else {
            assert(v@ =~= triples_at(p, at + 4, 0));
            assert(reader@ =~= p.skip(at2));
        }
    }
    Ok(v)
}

/// The mesh that a decompressed payload holds, or why the loader gives up.
#[verifier::rlimit(40)]
pub fn decode_payload(payload: Vec<u8>) -> (r: Result<MeshData, ModError>)
    ensures
        match r {
            Ok(m) => parse_payload(payload@) == Ok::<MeshModel, ModError>(m@),
            Err(e) => parse_payload(payload@) == Err::<MeshModel, ModError>(e),
        },
{
    let ghost p = payload@;
    let mut reader = ByteReader::new(payload);
    if reader.remaining() < 5 {
        return Err(ModError::UnexpectedEof);
    }
    let ty = match read_byte(&mut reader) {
        Ok(b) => b,
        Err(_) => return Err(ModError::UnexpectedEof),
    };
    let verts = match read_i32(&mut reader) {
        Ok(v) => v,
        Err(_) => return Err(ModError::UnexpectedEof),
    };
    proof {
        lemma_le_value_skip(p, 1, 0, 4);
        assert(p.skip(1).skip(4) =~= p.skip(5));
    }
    let nv: usize = if verts < 0 { 0 } else { verts as usize };
    if (reader.remaining() as u64) < 12 * (nv as u64) {
        return Err(ModError::UnexpectedEof);
    }
    let positions = read_triples(&mut reader, nv);
    let ghost at1 = 5 + 12 * nv;
    proof {
        lemma_triples_skip(p, 5, nv as nat);
        assert(p.skip(5).skip(12 * nv) =~= p.skip(at1));
    }
    let indices = match decode_indices(&mut reader, ty, Ghost(p), Ghost(at1)) {
        Ok(v) => v,
        Err(e) => return Err(e),
    };
    let ghost at2 = parse_indices(p, at1, ty).unwrap().1;
    let read_uvs = match decode_uvs(&mut reader, ty, verts, Ghost(p), Ghost(at2)) {
        Ok(v) => v,
        Err(e) => return Err(e),
    };
    let ghost cu = parse_attribute(p, at2, ty & 2 != 0, verts, 2).unwrap().0;
    let ghost at3 = parse_attribute(p, at2, ty & 2 != 0, verts, 2).unwrap().1;
    let read_normals = match decode_normals(&mut reader, ty, verts, Ghost(p), Ghost(at3)) {
        Ok(v) => v,
        Err(e) => return Err(e),
    };
    let ghost cn = parse_attribute(p, at3, ty & 4 != 0, verts, 3).unwrap().0;
    let ghost at4 = parse_attribute(p, at3, ty & 4 != 0, verts, 3).unwrap().1;
    let texture = match decode_texture(&mut reader, ty, Ghost(p), Ghost(at4)) {
        Ok(t) => t,
        Err(e) => return Err(e),
    };
    let uvs = fill_pairs(read_uvs, nv);
    let normals = fill_triples(read_normals, nv);
    let m = MeshData { positions, normals, uvs, indices, texture };
    assert(m@.positions == triples_at(p, 5, nv as nat));
    assert(m@.uvs =~= leading(pairs_at(p, at2 + 4, cu as nat), cu as nat, nv as nat, [0u32, 0u32]));
    assert(m@.normals =~= leading(triples_at(p, at3 + 4, cn as nat), cn as nat, nv as nat, [0u32, 0u32, 0u32]));
    Ok(m)
}

/// The bytes of a sequence of pairs of words.
pub open spec fn pairs_bytes(s: Seq<[u32; 2]>) -> Seq<u8> {
    Seq::new(8 * s.len(), |j: int| u32_bytes(s[j / 8][(j % 8) / 4])[j % 4])
}

/// The bytes of a sequence of triples of words.
pub open spec fn triples_bytes(s: Seq<[u32; 3]>) -> Seq<u8> {
    Seq::new(12 * s.len(), |j: int| u32_bytes(s[j / 12][(j % 12) / 4])[j % 4])
}

/// Whether an `f32` bit pattern is a value other than `+0.0` and `-0.0`
/// (NaN included), as `!= 0.0` decides.
pub open spec fn float_nonzero(bits: u32) -> bool {
    bits % 0x8000_0000 != 0
}

/// Whether a uv differs from zero.
pub open spec fn uv_set(e: [u32; 2]) -> bool {
    float_nonzero(e[0]) || float_nonzero(e[1])
}

/// Whether a normal differs from zero.
pub open spec fn normal_set(e: [u32; 3]) -> bool {
    float_nonzero(e[0]) || float_nonzero(e[1]) || float_nonzero(e[2])
}

/// Whether some uv differs from zero.
pub open spec fn any_uv_set(uvs: Seq<[u32; 2]>) -> bool {
    exists|k: int| 0 <= k < uvs.len() && #[trigger] uv_set(uvs[k])
}

/// Whether some normal differs from zero.
pub open spec fn any_normal_set(normals: Seq<[u32; 3]>) -> bool {
    exists|k: int| 0 <= k < normals.len() && #[trigger] normal_set(normals[k])
}

/// A count written as an `i32`: the length cut to 32 bits.
pub open spec fn count_word(n: nat) -> u32 {
    (n % 0x1_0000_0000) as u32
}

/// The sections that saving writes.
pub open spec fn saved_sections(m: MeshModel, bake_normals: bool, bake_texture: bool) -> (bool, bool, bool, bool, bool) {
    let has_texture = bake_texture && m.texture is Some;
    (
        m.indices is Some,
        any_uv_set(m.uvs),
        bake_normals && any_normal_set(m.normals),
        has_texture,
        has_texture && m.texture.unwrap().depth > 1,
    )
}

/// The type byte of a saved mesh.
pub open spec fn saved_type(m: MeshModel, bake_normals: bool, bake_texture: bool) -> u8 {
    let (i, u, n, t, d) = saved_sections(m, bake_normals, bake_texture);
    ((if i { 1int } else { 0 }) + (if u { 2int } else { 0 }) + (if n { 4int } else { 0 }) + (if t { 8int } else { 0 })
        + (if d { 16int } else { 0 })) as u8
}

/// The texture section of a saved mesh.
pub open spec fn texture_bytes(t: TextureModel) -> Seq<u8> {
    seq![sample_type_byte(t.sample_type)] + u32_bytes(t.width) + u32_bytes(t.height) + (if t.depth > 1 {
        u32_bytes(t.depth)
    } else {
        Seq::empty()
    }) + t.pixels
}

/// The index section of a saved mesh.
pub open spec fn indices_section(m: MeshModel) -> Seq<u8> {
    if m.indices is Some {
        u32_bytes(count_word(m.indices.unwrap().len())) + words_bytes(m.indices.unwrap())
    } else {
        Seq::empty()
    }
}

/// The uv section of a saved mesh.
pub open spec fn uvs_section(m: MeshModel) -> Seq<u8> {
    if any_uv_set(m.uvs) {
        u32_bytes(count_word(m.positions.len())) + pairs_bytes(m.uvs)
    } else {
        Seq::empty()
    }
}

/// The normal section of a saved mesh.
pub open spec fn normals_section(m: MeshModel, bake_normals: bool) -> Seq<u8> {
    if bake_normals && any_normal_set(m.normals) {
        u32_bytes(count_word(m.positions.len())) + triples_bytes(m.normals)
    } else {
        Seq::empty()
    }
}

/// The texture section of a saved mesh.
pub open spec fn texture_section(m: MeshModel, bake_texture: bool) -> Seq<u8> {
    if bake_texture && m.texture is Some {
        texture_bytes(m.texture.unwrap())
    } else {
        Seq::empty()
    }
}

/// The payload that saving a mesh writes.
pub open spec fn saved_payload(m: MeshModel, bake_normals: bool, bake_texture: bool) -> Seq<u8> {
    seq![saved_type(m, bake_normals, bake_texture)] + u32_bytes(count_word(m.positions.len())) + triples_bytes(
        m.positions,
    ) + indices_section(m) + uvs_section(m) + normals_section(m, bake_normals) + texture_section(m, bake_texture)
}

impl MeshModel {
    /// One normal and one uv per vertex.
    pub open spec fn wf(self) -> bool {
        self.normals.len() == self.positions.len() && self.uvs.len() == self.positions.len()
    }
}

/// Appends the bytes of a sequence of words.
fn write_words(writer: &mut ByteWriter, s: &Vec<u32>)
    ensures
        final(writer)@ == old(writer)@ + words_bytes(s@),
{
    let ghost start = writer@;
    let mut k: usize = 0;
    while k < s.len()
        invariant
            k <= s@.len(),
            writer@ == start + words_bytes(s@.take(k as int)),
        decreases s@.len() - k,
    {
        write_u32(writer, s[k]);
        k = k + 1;
        assert(words_bytes(s@.take(k as int)) =~= words_bytes(s@.take(k - 1)) + u32_bytes(s@[k - 1]));
        assert(writer@ =~= start + words_bytes(s@.take(k as int)));
    }
    assert(s@.take(k as int) =~= s@);
}

/// Appends the bytes of a sequence of pairs of words.
fn write_pairs(writer: &mut ByteWriter, s: &Vec<[u32; 2]>)
    ensures
        final(writer)@ == old(writer)@ + pairs_bytes(s@),
{
    let ghost start = writer@;
    let mut k: usize = 0;
    while k < s.len()
        invariant
            k <= s@.len(),
            writer@ == start + pairs_bytes(s@.take(k as int)),
        decreases s@.len() - k,
    {
        let e = s[k];
        write_u32(writer, e[0]);
        write_u32(writer, e[1]);
        k = k + 1;
        assert(pairs_bytes(s@.take(k as int)) =~= pairs_bytes(s@.take(k - 1)) + u32_bytes(s@[k - 1][0]) + u32_bytes(
            s@[k - 1][1],
        ));
        assert(writer@ =~= start + pairs_bytes(s@.take(k as int)));
    }
    assert(s@.take(k as int) =~= s@);
}

/// Appends the bytes of a sequence of triples of words.
fn write_triples(writer: &mut ByteWriter, s: &Vec<[u32; 3]>)
    ensures
        final(writer)@ == old(writer)@ + triples_bytes(s@),
{
    let ghost start = writer@;
    let mut k: usize = 0;
    while k < s.len()
        invariant
            k <= s@.len(),
            writer@ == start + triples_bytes(s@.take(k as int)),
        decreases s@.len() - k,
    {
        let e = s[k];
        write_u32(writer, e[0]);
        write_u32(writer, e[1]);
        write_u32(writer, e[2]);
        k = k + 1;
        assert(triples_bytes(s@.take(k as int)) =~= triples_bytes(s@.take(k - 1)) + u32_bytes(s@[k - 1][0])
            + u32_bytes(s@[k - 1][1]) + u32_bytes(s@[k - 1][2]));
        assert(writer@ =~= start + triples_bytes(s@.take(k as int)));
    }
    assert(s@.take(k as int) =~= s@);
}

/// Whether an `f32` bit pattern is not a zero.
fn bits_nonzero(bits: u32) -> (r: bool)
    ensures
        r == float_nonzero(bits),
{
    let r = (bits & 0x7FFF_FFFFu32) != 0;
    assert(((bits & 0x7FFF_FFFFu32) != 0) == (bits % 0x8000_0000u32 != 0)) by (bit_vector);
    r
}

/// Whether some uv differs from zero.
fn has_uvs(uvs: &Vec<[u32; 2]>) -> (r: bool)
    ensures
        r == any_uv_set(uvs@),
{
    let mut k: usize = 0;
    while k < uvs.len()
        invariant
            k <= uvs@.len(),
            forall|j: int| 0 <= j < k ==> !#[trigger] uv_set(uvs@[j]),
        decreases uvs@.len() - k,
    {
        let e = uvs[k];
        if bits_nonzero(e[0]) || bits_nonzero(e[1]) {
            assert(uv_set(uvs@[k as int]));
            return true;
        }
        k = k + 1;
    }
    false
}

/// Whether some normal differs from zero.
fn has_normals(normals: &Vec<[u32; 3]>) -> (r: bool)
    ensures
        r == any_normal_set(normals@),
{
    let mut k: usize = 0;
    while k < normals.len()
        invariant
            k <= normals@.len(),
            forall|j: int| 0 <= j < k ==> !#[trigger] normal_set(normals@[j]),
        decreases normals@.len() - k,
    {
        let e = normals[k];
        if bits_nonzero(e[0]) || bits_nonzero(e[1]) || bits_nonzero(e[2]) {
            assert(normal_set(normals@[k as int]));
            return true;
        }
        k = k + 1;
    }
    false
}

/// A length written as a 32-bit count.
fn count_u32(n: usize) -> (r: u32)
    ensures
        r == count_word(n as nat),
{
    let r = #[verifier::truncate] (n as u32);
    assert(r as int == (n as int) % 0x1_0000_0000) by (bit_vector)
        requires r == n as u32;
    r
}

/// Appends the index section.
fn write_indices_section(w: &mut ByteWriter, mesh: &MeshData)
    ensures
        final(w)@ == old(w)@ + indices_section(mesh@),
{
    match &mesh.indices {
        Some(idx) => {
            let ghost start = w@;
            write_u32(w, count_u32(idx.len()));
            write_words(w, idx);
            assert(mesh@.indices == Some(idx@));
            assert(w@ =~= old(w)@ + indices_section(mesh@));
        },
        None => {
            assert(indices_section(mesh@) =~= Seq::<u8>::empty());
            assert(w@ =~= old(w)@ + indices_section(mesh@));
        },
    }
}

/// Appends the texture section.
fn write_texture_section(w: &mut ByteWriter, mesh: &MeshData, bake_texture: bool)
    ensures
        final(w)@ == old(w)@ + texture_section(mesh@, bake_texture),
{
    if bake_texture {
        match &mesh.texture {
            Some(t) => {
                write_byte(w, t.sample_type.to_byte());
                write_u32(w, t.width);
                write_u32(w, t.height);
                if t.depth > 1 {
                    write_u32(w, t.depth);
                }
                w.write_all(t.pixels.as_slice());
                assert(w@ =~= old(w)@ + texture_section(mesh@, bake_texture));
                return;
            },
            None => {},
        }
    }
    assert(texture_section(mesh@, bake_texture) =~= Seq::<u8>::empty());
    assert(w@ =~= old(w)@ + texture_section(mesh@, bake_texture));
}

/// The payload that saving a mesh writes, before compression. Normals are
/// written only when `bake_normals` holds and one differs from zero; the
/// texture only when `bake_texture` holds.
#[verifier::rlimit(40)]
pub fn encode_payload(mesh: &MeshData, bake_normals: bool, bake_texture: bool) -> (bytes: Vec<u8>)
    requires
        mesh@.wf(),
    ensures
        bytes@ == saved_payload(mesh@, bake_normals, bake_texture),
{
    let ghost m = mesh@;
    let has_indices = mesh.indices.is_some();
    let with_uvs = has_uvs(&mesh.uvs);
    let with_normals = bake_normals && has_normals(&mesh.normals);
    let has_texture = bake_texture && mesh.texture.is_some();
    let has_depth = match &mesh.texture {
        Some(t) => has_texture && t.depth > 1,
        None => false,
    };
    assert((has_indices, with_uvs, with_normals, has_texture, has_depth) == saved_sections(m, bake_normals, bake_texture));
    let mut ty: u8 = 0;
    if has_indices {
        ty = ty + 1;
    }
    if with_uvs {
        ty = ty + 2;
    }
    if with_normals {
        ty = ty + 4;
    }
    if has_texture {
        ty = ty + 8;
    }
    if has_depth {
        ty = ty + 16;
    }
    assert(ty == saved_type(m, bake_normals, bake_texture));
    let n = mesh.positions.len();
    let mut w = ByteWriter::new();
    write_byte(&mut w, ty);
    write_u32(&mut w, count_u32(n));
    write_triples(&mut w, &mesh.positions);
    let ghost part1 = w@;
    assert(part1 =~= seq![ty] + u32_bytes(count_word(n as nat)) + triples_bytes(m.positions));
    write_indices_section(&mut w, mesh);
    let ghost part2 = w@;
    if with_uvs {
        write_u32(&mut w, count_u32(n));
        write_pairs(&mut w, &mesh.uvs);
    }
    assert(w@ =~= part2 + uvs_section(m));
    let ghost part3 = w@;
    if with_normals {
        write_u32(&mut w, count_u32(n));
        write_triples(&mut w, &mesh.normals);
    }
    assert(w@ =~= part3 + normals_section(m, bake_normals));
    write_texture_section(&mut w, mesh, bake_texture);
    let bytes = w.into_bytes();
    assert(bytes@ =~= saved_payload(m, bake_normals, bake_texture));
    bytes
}

/// What zstd's streaming decoder yields from a stream of frames before it
/// stops, and how it stops: `None` at a clean end, `Some(true)` when the
/// stream ends inside a frame, `Some(false)` on data that is not zstd.
pub uninterp spec fn zstd_stream(data: Seq<u8>) -> (Seq<u8>, Option<bool>);

/// What zstd compresses data to at a compression level: `None` when the
/// encoder fails.
pub uninterp spec fn zstd_compressed(data: Seq<u8>, level: i32) -> Option<Seq<u8>>;

/// `zstd::stream::copy_decode` from a byte slice into a vector: the bytes
/// the decoder yielded (kept in the vector when it stops on an error), and
/// `None` at a clean end, else whether the error is of kind `UnexpectedEof`
/// (the decoder gives that kind when the input ends inside a frame). The
/// claim is only that the result is a function of the input.
#[verifier::external_body]
fn zstd_copy_decode(data: &[u8]) -> (r: (Vec<u8>, Option<bool>))
    ensures
        (r.0@, r.1) == zstd_stream(data@),
{
    let mut out: Vec<u8> = Vec::new();
    let end = match zstd::stream::copy_decode(data, &mut out) {
        Ok(()) => None,
        Err(e) => Some(e.kind() == std::io::ErrorKind::UnexpectedEof),
    };
    (out, end)
}

/// `zstd::encode_all` on a byte slice: one zstd frame, `None` on any error.
/// The claims are that the result is a function of the input and level, and
/// that decompressing a frame it produced gives the input back (zstd is
/// lossless).
#[verifier::external_body]
fn zstd_encode_all(data: &[u8], level: i32) -> (r: Option<Vec<u8>>)
    ensures
        match r {
            Some(v) => zstd_compressed(data@, level) == Some(v@),
            None => zstd_compressed(data@, level) is None,
        },
        r matches Some(v) ==> zstd_stream(v@) == (data@, None::<bool>),
{
    zstd::encode_all(data, level).ok()
}

/// `std::str::from_utf8(bytes).is_ok()`: whether bytes are valid UTF-8. The
/// claim is that std accepts exactly the UTF-8 of the standard.
#[verifier::external_body]
fn is_utf8(bytes: &[u8]) -> (r: bool)
    ensures
        r == valid_utf8(bytes@),
{
    std::str::from_utf8(bytes).is_ok()
}

/// The zstd level that saving uses.
pub const MOD_ZSTD_LEVEL: i32 = 3;

/// The header is UTF-8 (it is ASCII).
proof fn lemma_header_is_utf8()
    ensures
        valid_utf8(mod_header()),
{
    reveal_with_fuel(valid_utf8, 9);
    let h = mod_header();
    assert(h.subrange(1, 8) =~= seq![0x59u8, 0x4Cu8, 0x45u8, 0x55u8, 0x53u8, 0x5Fu8, 0x4Du8]);
}

/// What the loader makes of a whole mesh file.
pub open spec fn parse_mod_file(f: Seq<u8>) -> Result<MeshModel, ModError> {
    if f.len() < 8 {
        Err(ModError::UnexpectedEof)
    } else if !valid_utf8(f.take(8)) {
        Err(ModError::Malformed)
    } else if f.take(8) != mod_header() {
        Err(ModError::InvalidHeader)
    } else {
        stream_result(zstd_stream(f.skip(8)))
    }
}

/// What the loader makes of what the decoder yields: the payload is parsed
/// as far as it needs; when it runs out of bytes, the way the decoder
/// stopped decides the error.
pub open spec fn stream_result(stream: (Seq<u8>, Option<bool>)) -> Result<MeshModel, ModError> {
    match parse_payload(stream.0) {
        Err(ModError::UnexpectedEof) => match stream.1 {
            Some(false) => Err(ModError::Compression),
            _ => Err(ModError::UnexpectedEof),
        },
        other => other,
    }
}

/// The mesh that a mesh file holds, or why the loader gives up. On
/// `Malformed` the engine panics.
pub fn decode_mod_file(file: &[u8]) -> (r: Result<MeshData, ModError>)
    ensures
        match r {
            Ok(m) => parse_mod_file(file@) == Ok::<MeshModel, ModError>(m@),
            Err(e) => parse_mod_file(file@) == Err::<MeshModel, ModError>(e),
        },
{
    if file.len() < 8 {
        return Err(ModError::UnexpectedEof);
    }
    let mut header: Vec<u8> = Vec::new();
    let mut rest: Vec<u8> = Vec::new();
    let mut k: usize = 0;
    while k < file.len()
        invariant
            8 <= file@.len(),
            k <= file@.len(),
            k <= 8 ==> header@ == file@.take(k as int) && rest@.len() == 0,
            k > 8 ==> header@ == file@.take(8) && rest@ == file@.subrange(8, k as int),
        decreases file@.len() - k,
    {
        if k < 8 {
            header.push(file[k]);
        } else {
            rest.push(file[k]);
        }
        k = k + 1;
        assert(k <= 8 ==> header@ =~= file@.take(k as int));
        assert(k > 8 ==> rest@ =~= file@.subrange(8, k as int));
    }
    assert(header@ =~= file@.take(8));
    assert(rest@ =~= file@.skip(8));
    if !is_utf8(header.as_slice()) {
        return Err(ModError::Malformed);
    }
    let expected: [u8; 8] = [0x48u8, 0x59u8, 0x4Cu8, 0x45u8, 0x55u8, 0x53u8, 0x5Fu8, 0x4Du8];
    let mut i: usize = 0;
    while i < 8
        invariant
            i <= 8,
            header@.len() == 8,
            file@.len() >= 8,
            header@ == file@.take(8),
            valid_utf8(header@),
            expected@ == mod_header(),
            forall|j: int| 0 <= j < i ==> header@[j] == expected@[j],
        decreases 8 - i,
    {
        if header[i] != expected[i] {
            assert(header@ != mod_header());
            return Err(ModError::InvalidHeader);
        }
        i = i + 1;
    }
    assert(header@ =~= mod_header());
    let (payload, end) = zstd_copy_decode(rest.as_slice());
    match decode_payload(payload) {
        Err(ModError::UnexpectedEof) => match end {
            Some(false) => Err(ModError::Compression),
            _ => Err(ModError::UnexpectedEof),
        },
        other => other,
    }
}

/// The bytes of a saved mesh file: the header, then the payload compressed
/// at level 3. Fails only when the compressor does.
pub fn encode_mod_file(mesh: &MeshData, bake_normals: bool, bake_texture: bool) -> (r: Result<Vec<u8>, ModError>)
    requires
        mesh@.wf(),
    ensures
        match zstd_compressed(saved_payload(mesh@, bake_normals, bake_texture), MOD_ZSTD_LEVEL) {
            Some(c) => r matches Ok(v) && v@ == mod_header() + c,
            None => r == Err::<Vec<u8>, ModError>(ModError::Compression),
        },
        saveable(mesh@, bake_texture) ==> (r matches Ok(v) ==> parse_mod_file(v@) == Ok::<MeshModel, ModError>(
            reloaded(mesh@, bake_normals, bake_texture),
        )),
{
    let payload = encode_payload(mesh, bake_normals, bake_texture);
    let compressed = match zstd_encode_all(payload.as_slice(), MOD_ZSTD_LEVEL) {
        Some(c) => c,
        None => return Err(ModError::Compression),
    };
    let mut out: Vec<u8> = vec![0x48u8, 0x59u8, 0x4Cu8, 0x45u8, 0x55u8, 0x53u8, 0x5Fu8, 0x4Du8];
    let ghost start = out@;
    assert(start =~= mod_header());
    let mut k: usize = 0;
    while k < compressed.len()
        invariant
            k <= compressed@.len(),
            out@ == start + compressed@.take(k as int),
        decreases compressed@.len() - k,
    {
        out.push(compressed[k]);
        k = k + 1;
        assert(out@ =~= start + compressed@.take(k as int));
    }
    assert(compressed@.take(k as int) =~= compressed@);
    proof {
        lemma_header_is_utf8();
        assert(out@.take(8) =~= mod_header());
        assert(out@.skip(8) =~= compressed@);
        if saveable(mesh@, bake_texture) {
            lemma_saved_payload_reloads(mesh@, bake_normals, bake_texture);
        }
    }
    Ok(out)
}

/// A word whose bytes are those of `v` reads as `v`.
proof fn lemma_word_in(p: Seq<u8>, at: int, v: u32)
    requires
        0 <= at,
        at + 4 <= p.len(),
        p.subrange(at, at + 4) == u32_bytes(v),
    ensures
        word(p, at) == v,
{
    lemma_le_value_subrange(p, at, 4);
    lemma_u32_roundtrip(v, Seq::empty());
    assert(u32_bytes(v) + Seq::<u8>::empty() =~= u32_bytes(v));
}

/// Words whose bytes were written by `words_bytes` read back.
proof fn lemma_words_in(p: Seq<u8>, at: int, s: Seq<u32>)
    requires
        0 <= at,
        at + 4 * s.len() <= p.len(),
        p.subrange(at, at + 4 * s.len()) == words_bytes(s),
    ensures
        words_at(p, at, s.len()) == s,
{
    assert forall|k: int| 0 <= k < s.len() implies #[trigger] words_at(p, at, s.len())[k] == s[k] by {
        assert forall|i: int| 0 <= i < 4 implies p.subrange(at + 4 * k, at + 4 * k + 4)[i] == u32_bytes(s[k])[i] by {
            assert(p[at + 4 * k + i] == words_bytes(s)[4 * k + i]);
            assert((4 * k + i) / 4 == k && (4 * k + i) % 4 == i);
        }
        assert(p.subrange(at + 4 * k, at + 4 * k + 4) =~= u32_bytes(s[k]));
        lemma_word_in(p, at + 4 * k, s[k]);
    }
    assert(words_at(p, at, s.len()) =~= s);
}

/// Pairs whose bytes were written by `pairs_bytes` read back.
proof fn lemma_pairs_in(p: Seq<u8>, at: int, s: Seq<[u32; 2]>)
    requires
        0 <= at,
        at + 8 * s.len() <= p.len(),
        p.subrange(at, at + 8 * s.len()) == pairs_bytes(s),
    ensures
        pairs_at(p, at, s.len()) == s,
{
    assert forall|k: int| 0 <= k < s.len() implies #[trigger] pairs_at(p, at, s.len())[k] == s[k] by {
        assert forall|j: int| 0 <= j < 2 implies word(p, at + 8 * k + 4 * j) == s[k][j] by {
            assert forall|i: int| 0 <= i < 4 implies p.subrange(at + 8 * k + 4 * j, at + 8 * k + 4 * j + 4)[i]
                == u32_bytes(s[k][j])[i] by {
                assert(p[at + 8 * k + 4 * j + i] == pairs_bytes(s)[8 * k + 4 * j + i]);
                assert((8 * k + 4 * j + i) / 8 == k && ((8 * k + 4 * j + i) % 8) / 4 == j && (8 * k + 4 * j + i) % 4 == i);
            }
            assert(p.subrange(at + 8 * k + 4 * j, at + 8 * k + 4 * j + 4) =~= u32_bytes(s[k][j]));
            lemma_word_in(p, at + 8 * k + 4 * j, s[k][j]);
        }
        assert(word(p, at + 8 * k + 4 * 0) == s[k][0]);
        assert(word(p, at + 8 * k + 4 * 1) == s[k][1]);
        assert(pairs_at(p, at, s.len())[k] =~= s[k]);
    }
    assert(pairs_at(p, at, s.len()) =~= s);
}

/// Triples whose bytes were written by `triples_bytes` read back.
proof fn lemma_triples_in(p: Seq<u8>, at: int, s: Seq<[u32; 3]>)
    requires
        0 <= at,
        at + 12 * s.len() <= p.len(),
        p.subrange(at, at + 12 * s.len()) == triples_bytes(s),
    ensures
        triples_at(p, at, s.len()) == s,
{
    assert forall|k: int| 0 <= k < s.len() implies #[trigger] triples_at(p, at, s.len())[k] == s[k] by {
        assert forall|j: int| 0 <= j < 3 implies word(p, at + 12 * k + 4 * j) == s[k][j] by {
            assert forall|i: int| 0 <= i < 4 implies p.subrange(at + 12 * k + 4 * j, at + 12 * k + 4 * j + 4)[i]
                == u32_bytes(s[k][j])[i] by {
                assert(p[at + 12 * k + 4 * j + i] == triples_bytes(s)[12 * k + 4 * j + i]);
                assert((12 * k + 4 * j + i) / 12 == k && ((12 * k + 4 * j + i) % 12) / 4 == j && (12 * k + 4 * j + i)
                    % 4 == i);
            }
            assert(p.subrange(at + 12 * k + 4 * j, at + 12 * k + 4 * j + 4) =~= u32_bytes(s[k][j]));
            lemma_word_in(p, at + 12 * k + 4 * j, s[k][j]);
        }
        assert(word(p, at + 12 * k + 4 * 0) == s[k][0]);
        assert(word(p, at + 12 * k + 4 * 1) == s[k][1]);
        assert(word(p, at + 12 * k + 4 * 2) == s[k][2]);
        assert(triples_at(p, at, s.len())[k] =~= s[k]);
    }
    assert(triples_at(p, at, s.len()) =~= s);
}

/// All-zero uvs for `n` vertices.
pub open spec fn zero_uvs(n: nat) -> Seq<[u32; 2]> {
    Seq::new(n, |k: int| [0u32, 0u32])
}

/// All-zero normals for `n` vertices.
pub open spec fn zero_normals(n: nat) -> Seq<[u32; 3]> {
    Seq::new(n, |k: int| [0u32, 0u32, 0u32])
}

/// The texture that loading gives back: a depth below 2 reads back as 1.
pub open spec fn reloaded_texture(t: TextureModel) -> TextureModel {
    TextureModel { depth: if t.depth > 1 { t.depth } else { 1 }, ..t }
}

/// The mesh that loading a saved mesh gives back: uvs that are all zero, and
/// normals that are all zero or not baked, read back as `+0.0`; an empty
/// index list reads back as none; the texture only when it was baked.
pub open spec fn reloaded(m: MeshModel, bake_normals: bool, bake_texture: bool) -> MeshModel {
    let n = m.positions.len();
    MeshModel {
        positions: m.positions,
        uvs: if any_uv_set(m.uvs) { m.uvs } else { zero_uvs(n) },
        normals: if bake_normals && any_normal_set(m.normals) { m.normals } else { zero_normals(n) },
        indices: match m.indices {
            Some(v) => if v.len() > 0 { Some(v) } else { None },
            None => None,
        },
        texture: if bake_texture && m.texture is Some { Some(reloaded_texture(m.texture.unwrap())) } else { None },
    }
}

/// A mesh that saving can write in a form that loading reads back: counts
/// that fit in an `i32`, and a baked texture whose pixels are exactly
/// `width * height * depth * 4` bytes, within 32 bits.
pub open spec fn saveable(m: MeshModel, bake_texture: bool) -> bool {
    &&& m.wf()
    &&& m.positions.len() <= 0x7FFF_FFFF
    &&& (m.indices matches Some(v) ==> v.len() <= 0x7FFF_FFFF)
    &&& (bake_texture && m.texture is Some) ==> pixel_bytes(
        m.texture.unwrap().width,
        m.texture.unwrap().height,
        reloaded_texture(m.texture.unwrap()).depth,
    ) == Some(m.texture.unwrap().pixels.len())
}

/// A uv with one non-zero float component makes saving keep the uvs: the
/// type byte has bit 2 and loading gives the uvs back.
pub proof fn lemma_nonzero_uv_is_saved(m: MeshModel, bake_normals: bool, bake_texture: bool, k: int, j: int)
    requires
        m.wf(),
        0 <= k < m.uvs.len(),
        0 <= j < 2,
        m.uvs[k][j] % 0x8000_0000 != 0,
    ensures
        saved_type(m, bake_normals, bake_texture) & 2 != 0,
        reloaded(m, bake_normals, bake_texture).uvs == m.uvs,
{
    assert(uv_set(m.uvs[k]));
    assert(any_uv_set(m.uvs));
    let (i, u, n, t, d) = saved_sections(m, bake_normals, bake_texture);
    lemma_type_bits(i, u, n, t, d);
}

/// Saving without baking normals never writes them: the type byte lacks
/// bit 4 and loading gives zero normals.
pub proof fn lemma_unbaked_normals_are_not_saved(m: MeshModel, bake_texture: bool)
    ensures
        saved_type(m, false, bake_texture) & 4 == 0,
        reloaded(m, false, bake_texture).normals == zero_normals(m.positions.len()),
{
    let (i, u, n, t, d) = saved_sections(m, false, bake_texture);
    lemma_type_bits(i, u, n, t, d);
}

/// Saving with baked normals keeps the normals whenever one component of one
/// normal is a non-zero float: the type byte has bit 4 and loading gives the
/// normals back.
pub proof fn lemma_nonzero_normal_is_saved(m: MeshModel, bake_texture: bool, k: int, j: int)
    requires
        m.wf(),
        0 <= k < m.normals.len(),
        0 <= j < 3,
        m.normals[k][j] % 0x8000_0000 != 0,
    ensures
        saved_type(m, true, bake_texture) & 4 != 0,
        reloaded(m, true, bake_texture).normals == m.normals,
{
    assert(normal_set(m.normals[k]));
    assert(any_normal_set(m.normals));
    let (i, u, n, t, d) = saved_sections(m, true, bake_texture);
    lemma_type_bits(i, u, n, t, d);
}

/// Normals whose components are all `+0.0` or `-0.0` are not saved: the
/// type byte lacks bit 4 and loading gives zero normals.
pub proof fn lemma_zero_normals_are_not_saved(m: MeshModel, bake_normals: bool, bake_texture: bool)
    requires
        m.wf(),
        forall|k: int, j: int| 0 <= k < m.normals.len() && 0 <= j < 3 ==> #[trigger] m.normals[k][j] % 0x8000_0000 == 0,
    ensures
        saved_type(m, bake_normals, bake_texture) & 4 == 0,
        reloaded(m, bake_normals, bake_texture).normals == zero_normals(m.positions.len()),
{
    assert forall|k: int| 0 <= k < m.normals.len() implies !#[trigger] normal_set(m.normals[k]) by {
        assert(m.normals[k][0] % 0x8000_0000 == 0);
        assert(m.normals[k][1] % 0x8000_0000 == 0);
        assert(m.normals[k][2] % 0x8000_0000 == 0);
    }
    let (i, u, n, t, d) = saved_sections(m, bake_normals, bake_texture);
    lemma_type_bits(i, u, n, t, d);
}

/// A texture section stores the sample type byte, then the width, then the
/// height, each a little-endian `u32`, then the depth when bit 16 of the
/// type is set (else the depth is 1), then `4 * width * height * depth`
/// bytes of pixels.
pub proof fn lemma_texture_width_first(p: Seq<u8>, at: int, ty: u8)
    requires
        0 <= at,
        parse_texture(p, at, ty) matches Ok(Some(_)),
    ensures
        ({
            let t = parse_texture(p, at, ty).unwrap().unwrap();
            &&& t.sample_type == sample_type_of_byte(p[at])
            &&& t.width == le_u32_at(p, at + 1)
            &&& t.height == le_u32_at(p, at + 5)
            &&& t.depth == if ty & 0x10 != 0 { le_u32_at(p, at + 9) } else { 1 }
            &&& t.pixels.len() == 4 * t.width * t.height * t.depth
            &&& t.pixels == p.subrange(
                at + (if ty & 0x10 != 0 { 13int } else { 9int }),
                at + (if ty & 0x10 != 0 { 13int } else { 9int }) + t.pixels.len(),
            )
        }),
{
    let t = parse_texture(p, at, ty).unwrap().unwrap();
    assert(t.pixels.len() == t.width * t.height * t.depth * 4);
    assert(4 * t.width * t.height * t.depth == t.width * t.height * t.depth * 4) by (nonlinear_arith);
}

/// Saving writes a texture's width before its height: in the bytes of a
/// texture section, bytes 1 to 4 are the width and bytes 5 to 8 the height;
/// a depth above 1 follows, and then the pixels.
pub proof fn lemma_texture_bytes_width_first(t: TextureModel)
    ensures
        texture_bytes(t)[0] == sample_type_byte(t.sample_type),
        texture_bytes(t).subrange(1, 5) == u32_bytes(t.width),
        texture_bytes(t).subrange(5, 9) == u32_bytes(t.height),
        t.depth > 1 ==> texture_bytes(t).subrange(9, 13) == u32_bytes(t.depth) && texture_bytes(t).skip(13) == t.pixels,
        t.depth <= 1 ==> texture_bytes(t).skip(9) == t.pixels,
{
    let b = texture_bytes(t);
    assert(b.subrange(1, 5) =~= u32_bytes(t.width));
    assert(b.subrange(5, 9) =~= u32_bytes(t.height));
    if t.depth > 1 {
        assert(b.subrange(9, 13) =~= u32_bytes(t.depth));
        assert(b.skip(13) =~= t.pixels);
    } else {
        assert(b.skip(9) =~= t.pixels);
    }
}

/// A payload of type 8 (a texture and nothing else) with no vertices holds
/// the texture right after the vertex count: loading reads its sample type
/// at byte 5, its width at byte 6 and its height at byte 10, with depth 1.
pub proof fn lemma_texture_only_payload(p: Seq<u8>)
    requires
        p.len() >= 14,
        p[0] == 8,
        le_u32_at(p, 1) == 0,
    ensures
        parse_payload(p) matches Ok(m) ==> (m.texture matches Some(t) && t.sample_type == sample_type_of_byte(p[5])
            && t.width == le_u32_at(p, 6) && t.height == le_u32_at(p, 10) && t.depth == 1 && m.positions.len() == 0),
{
    let ty: u8 = 8;
    assert(ty & 1 == 0 && ty & 2 == 0 && ty & 4 == 0 && ty & 8 != 0 && ty & 0x10 == 0) by (bit_vector)
        requires ty == 8u8;
    assert(count_at(p, 1) == 0);
    assert(vertex_total(0) == 0);
}

/// The bits of the type byte give back the sections.
proof fn lemma_type_bits(i: bool, u: bool, n: bool, t: bool, d: bool)
    ensures
        ({
            let ty = ((if i { 1int } else { 0 }) + (if u { 2int } else { 0 }) + (if n { 4int } else { 0 }) + (if t {
                8int
            } else {
                0
            }) + (if d { 16int } else { 0 })) as u8;
            &&& (ty & 1 != 0) == i
            &&& (ty & 2 != 0) == u
            &&& (ty & 4 != 0) == n
            &&& (ty & 8 != 0) == t
            &&& (ty & 0x10 != 0) == d
        }),
{
    let bi: u8 = if i { 1 } else { 0 };
    let bu: u8 = if u { 1 } else { 0 };
    let bn: u8 = if n { 1 } else { 0 };
    let bt: u8 = if t { 1 } else { 0 };
    let bd: u8 = if d { 1 } else { 0 };
    let ty: u8 = (bi + 2 * bu + 4 * bn + 8 * bt + 16 * bd) as u8;
    assert((ty & 1 != 0) == (bi == 1) && (ty & 2 != 0) == (bu == 1) && (ty & 4 != 0) == (bn == 1) && (ty & 8 != 0)
        == (bt == 1) && (ty & 0x10 != 0) == (bd == 1)) by (bit_vector)
        requires
            bi <= 1,
            bu <= 1,
            bn <= 1,
            bt <= 1,
            bd <= 1,
            ty == (bi + 2 * bu + 4 * bn + 8 * bt + 16 * bd) as u8,
    ;
}

/// A count below 2^31 written as a word reads back as itself.
proof fn lemma_count_in(p: Seq<u8>, at: int, n: nat)
    requires
        0 <= at,
        at + 4 <= p.len(),
        n <= 0x7FFF_FFFF,
        p.subrange(at, at + 4) == u32_bytes(count_word(n)),
    ensures
        count_at(p, at) == n,
{
    lemma_word_in(p, at, count_word(n));
}

/// The index section reads back.
proof fn lemma_indices_section_reads(p: Seq<u8>, at: int, ty: u8, m: MeshModel)
    requires
        0 <= at,
        at + indices_section(m).len() <= p.len(),
        p.subrange(at, at + indices_section(m).len()) == indices_section(m),
        (ty & 1 != 0) == (m.indices is Some),
        m.indices matches Some(v) ==> v.len() <= 0x7FFF_FFFF,
    ensures
        parse_indices(p, at, ty) == Ok::<(Option<Seq<u32>>, int), ModError>(
            (reloaded(m, false, false).indices, at + indices_section(m).len()),
        ),
{
    if m.indices is Some {
        let v = m.indices.unwrap();
        let sec = indices_section(m);
        assert(sec.len() == 4 + 4 * v.len());
        assert(p.subrange(at, at + 4) =~= sec.subrange(0, 4));
        assert(sec.subrange(0, 4) =~= u32_bytes(count_word(v.len())));
        lemma_count_in(p, at, v.len());
        assert(p.subrange(at + 4, at + 4 + 4 * v.len()) =~= sec.subrange(4, sec.len() as int));
        assert(sec.subrange(4, sec.len() as int) =~= words_bytes(v));
        lemma_words_in(p, at + 4, v);
    }
}

/// An attribute section of pairs reads back.
proof fn lemma_uvs_section_reads(p: Seq<u8>, at: int, ty: u8, m: MeshModel)
    requires
        0 <= at,
        at + uvs_section(m).len() <= p.len(),
        p.subrange(at, at + uvs_section(m).len()) == uvs_section(m),
        (ty & 2 != 0) == any_uv_set(m.uvs),
        m.wf(),
        m.positions.len() <= 0x7FFF_FFFF,
    ensures
        ({
            let n = m.positions.len();
            let (c, at2) = parse_attribute(p, at, ty & 2 != 0, n as i32, 2).unwrap();
            &&& parse_attribute(p, at, ty & 2 != 0, n as i32, 2) is Ok
            &&& at2 == at + uvs_section(m).len()
            &&& leading(pairs_at(p, at + 4, c), c, n, [0u32, 0u32]) == reloaded(m, false, false).uvs
        }),
{
    let n = m.positions.len();
    if any_uv_set(m.uvs) {
        let sec = uvs_section(m);
        assert(sec.len() == 4 + 8 * n);
        assert(p.subrange(at, at + 4) =~= sec.subrange(0, 4));
        assert(sec.subrange(0, 4) =~= u32_bytes(count_word(n)));
        lemma_count_in(p, at, n);
        assert(p.subrange(at + 4, at + 4 + 8 * n) =~= sec.subrange(4, sec.len() as int));
        assert(sec.subrange(4, sec.len() as int) =~= pairs_bytes(m.uvs));
        lemma_pairs_in(p, at + 4, m.uvs);
        assert(leading(pairs_at(p, at + 4, n), n, n, [0u32, 0u32]) =~= m.uvs);
    } else {
        assert(leading(pairs_at(p, at + 4, 0), 0, n, [0u32, 0u32]) =~= zero_uvs(n));
    }
}

/// An attribute section of triples reads back.
proof fn lemma_normals_section_reads(p: Seq<u8>, at: int, ty: u8, m: MeshModel, bake_normals: bool)
    requires
        0 <= at,
        at + normals_section(m, bake_normals).len() <= p.len(),
        p.subrange(at, at + normals_section(m, bake_normals).len()) == normals_section(m, bake_normals),
        (ty & 4 != 0) == (bake_normals && any_normal_set(m.normals)),
        m.wf(),
        m.positions.len() <= 0x7FFF_FFFF,
    ensures
        ({
            let n = m.positions.len();
            let (c, at2) = parse_attribute(p, at, ty & 4 != 0, n as i32, 3).unwrap();
            &&& parse_attribute(p, at, ty & 4 != 0, n as i32, 3) is Ok
            &&& at2 == at + normals_section(m, bake_normals).len()
            &&& leading(triples_at(p, at + 4, c), c, n, [0u32, 0u32, 0u32]) == reloaded(m, bake_normals, false).normals
        }),
{
    let n = m.positions.len();
    if bake_normals && any_normal_set(m.normals) {
        let sec = normals_section(m, bake_normals);
        assert(sec.len() == 4 + 12 * n);
        assert(p.subrange(at, at + 4) =~= sec.subrange(0, 4));
        assert(sec.subrange(0, 4) =~= u32_bytes(count_word(n)));
        lemma_count_in(p, at, n);
        assert(p.subrange(at + 4, at + 4 + 12 * n) =~= sec.subrange(4, sec.len() as int));
        assert(sec.subrange(4, sec.len() as int) =~= triples_bytes(m.normals));
        lemma_triples_in(p, at + 4, m.normals);
        assert(leading(triples_at(p, at + 4, n), n, n, [0u32, 0u32, 0u32]) =~= m.normals);
    } else {
        assert(leading(triples_at(p, at + 4, 0), 0, n, [0u32, 0u32, 0u32]) =~= zero_normals(n));
    }
}

/// The texture section reads back.
proof fn lemma_texture_section_reads(p: Seq<u8>, at: int, ty: u8, m: MeshModel, bake_texture: bool)
    requires
        0 <= at,
        at + texture_section(m, bake_texture).len() == p.len(),
        p.subrange(at, p.len() as int) == texture_section(m, bake_texture),
        (ty & 8 != 0) == (bake_texture && m.texture is Some),
        (ty & 0x10 != 0) == (bake_texture && m.texture is Some && m.texture.unwrap().depth > 1),
        saveable(m, bake_texture),
    ensures
        parse_texture(p, at, ty) == Ok::<Option<TextureModel>, ModError>(reloaded(m, false, bake_texture).texture),
{
    if bake_texture && m.texture is Some {
        let t = m.texture.unwrap();
        let sec = texture_bytes(t);
        let head: int = if t.depth > 1 { 13 } else { 9 };
        assert(sec.len() == head + t.pixels.len());
        let q = p.subrange(at, p.len() as int);
        assert(q == sec);
        assert(p[at] == sec[0]);
        assert(sec.subrange(1, 5) =~= u32_bytes(t.width));
        assert(p.subrange(at + 1, at + 5) =~= q.subrange(1, 5));
        lemma_word_in(p, at + 1, t.width);
        assert(sec.subrange(5, 9) =~= u32_bytes(t.height));
        assert(p.subrange(at + 5, at + 9) =~= q.subrange(5, 9));
        lemma_word_in(p, at + 5, t.height);
        if t.depth > 1 {
            assert(sec.subrange(9, 13) =~= u32_bytes(t.depth));
            assert(p.subrange(at + 9, at + 13) =~= q.subrange(9, 13));
            lemma_word_in(p, at + 9, t.depth);
        }
        assert(sec.subrange(head, head + t.pixels.len()) =~= t.pixels);
        assert(p.subrange(at + head, at + head + t.pixels.len()) =~= q.subrange(head, head + t.pixels.len()));
        assert(sample_type_of_byte(sample_type_byte(t.sample_type)) == t.sample_type);
        let got = parse_texture(p, at, ty).unwrap().unwrap();
        assert(got.pixels =~= reloaded_texture(t).pixels);
    }
}

/// The parts of a sequence made of five parts.
proof fn lemma_five_parts(p: Seq<u8>, h: Seq<u8>, a1: Seq<u8>, a2: Seq<u8>, a3: Seq<u8>, a4: Seq<u8>)
    requires
        p == h + a1 + a2 + a3 + a4,
    ensures
        p.len() == h.len() as int + a1.len() + a2.len() + a3.len() + a4.len(),
        p.subrange(0, h.len() as int) == h,
        p.subrange(h.len() as int, h.len() as int + a1.len()) == a1,
        p.subrange(h.len() as int + a1.len(), h.len() as int + a1.len() + a2.len()) == a2,
        p.subrange(h.len() as int + a1.len() + a2.len(), h.len() as int + a1.len() + a2.len() + a3.len()) == a3,
        p.subrange(h.len() as int + a1.len() + a2.len() + a3.len(), p.len() as int) == a4,
{
    assert(p.subrange(0, h.len() as int) =~= h);
    assert(p.subrange(h.len() as int, h.len() as int + a1.len()) =~= a1);
    assert(p.subrange(h.len() as int + a1.len(), h.len() as int + a1.len() + a2.len()) =~= a2);
    assert(p.subrange(h.len() as int + a1.len() + a2.len(), h.len() as int + a1.len() + a2.len() + a3.len()) =~= a3);
    assert(p.subrange(h.len() as int + a1.len() + a2.len() + a3.len(), p.len() as int) =~= a4);
}

/// The head of a saved payload reads back: type, vertex count, positions.
proof fn lemma_head_reads(p: Seq<u8>, ty: u8, positions: Seq<[u32; 3]>)
    requires
        positions.len() <= 0x7FFF_FFFF,
        p.len() >= 5 + 12 * positions.len(),
        p.subrange(0, 5 + 12 * positions.len() as int) == seq![ty] + u32_bytes(count_word(positions.len())) + triples_bytes(
            positions,
        ),
    ensures
        p[0] == ty,
        count_at(p, 1) == positions.len(),
        triples_at(p, 5, positions.len()) == positions,
{
    let n = positions.len();
    let h = seq![ty] + u32_bytes(count_word(n)) + triples_bytes(positions);
    assert(p[0] == h[0]);
    assert(p.subrange(1, 5) =~= h.subrange(1, 5));
    assert(h.subrange(1, 5) =~= u32_bytes(count_word(n)));
    lemma_count_in(p, 1, n);
    assert(p.subrange(5, 5 + 12 * n as int) =~= h.subrange(5, 5 + 12 * n as int));
    assert(h.subrange(5, 5 + 12 * n as int) =~= triples_bytes(positions));
    lemma_triples_in(p, 5, positions);
}

/// Loading a saved payload gives back the saved mesh, with all-zero uvs and
/// unbaked normals reading back as zero, an empty index list as none, and
/// the texture only when baked.
#[verifier::rlimit(80)]
pub proof fn lemma_saved_payload_reloads(m: MeshModel, bake_normals: bool, bake_texture: bool)
    requires
        saveable(m, bake_texture),
    ensures
        parse_payload(saved_payload(m, bake_normals, bake_texture)) == Ok::<MeshModel, ModError>(
            reloaded(m, bake_normals, bake_texture),
        ),
{
    let p = saved_payload(m, bake_normals, bake_texture);
    let n = m.positions.len();
    let (hi, hu, hn, ht, hd) = saved_sections(m, bake_normals, bake_texture);
    let ty = saved_type(m, bake_normals, bake_texture);
    lemma_type_bits(hi, hu, hn, ht, hd);
    let h = seq![ty] + u32_bytes(count_word(n)) + triples_bytes(m.positions);
    let a1 = indices_section(m);
    let a2 = uvs_section(m);
    let a3 = normals_section(m, bake_normals);
    let a4 = texture_section(m, bake_texture);
    assert(p == h + a1 + a2 + a3 + a4);
    lemma_five_parts(p, h, a1, a2, a3, a4);
    assert(h.len() == 5 + 12 * n);
    let at1: int = h.len() as int;
    let at2: int = at1 + a1.len();
    let at3: int = at2 + a2.len();
    let at4: int = at3 + a3.len();
    lemma_head_reads(p, ty, m.positions);
    lemma_indices_section_reads(p, at1, ty, m);
    lemma_uvs_section_reads(p, at2, ty, m);
    lemma_normals_section_reads(p, at3, ty, m, bake_normals);
    lemma_texture_section_reads(p, at4, ty, m, bake_texture);
    let want = reloaded(m, bake_normals, bake_texture);
    assert(parse_payload(p) == Ok::<MeshModel, ModError>(want));
}

} // verus!
