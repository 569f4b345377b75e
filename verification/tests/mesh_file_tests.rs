use hyleus::mesh_file::{decode_mod_file, decode_payload, encode_mod_file, encode_payload, MeshData, MeshTexture, ModError};
use hyleus::texture::SampleType;

fn f(x: f32) -> u32 {
    x.to_bits()
}

fn sample_mesh() -> MeshData {
    MeshData {
        positions: vec![[f(0.0), f(1.0), f(2.0)], [f(-1.0), f(0.5), f(3.0)], [f(4.0), f(5.0), f(6.0)]],
        normals: vec![[f(0.0), f(1.0), f(0.0)], [f(0.0), f(0.0), f(1.0)], [f(1.0), f(0.0), f(0.0)]],
        uvs: vec![[f(0.0), f(0.0)], [f(1.0), f(0.0)], [f(0.0), f(1.0)]],
        indices: Some(vec![0, 1, 2]),
        texture: Some(MeshTexture {
            sample_type: SampleType::POINT,
            width: 2,
            height: 1,
            depth: 1,
            pixels: vec![1, 2, 3, 4, 5, 6, 7, 8],
        }),
    }
}

#[test]
fn payload_layout() {
    let m = MeshData {
        positions: vec![[1, 2, 3]],
        normals: vec![[0, 0, 0]],
        uvs: vec![[0, 0x8000_0000]],
        indices: None,
        texture: None,
    };
    // No indices, uvs all zero (-0.0 counts as zero), normals all zero: type 0.
    let p = encode_payload(&m, true, true);
    assert_eq!(p, vec![0, 1, 0, 0, 0, 1, 0, 0, 0, 2, 0, 0, 0, 3, 0, 0, 0]);
}

#[test]
fn save_then_load_gives_the_mesh_back() {
    let m = sample_mesh();
    let file = encode_mod_file(&m, true, true).unwrap();
    assert_eq!(&file[..8], b"HYLEUS_M");
    let back = decode_mod_file(&file).unwrap();
    assert_eq!(back.positions, m.positions);
    assert_eq!(back.normals, m.normals);
    assert_eq!(back.uvs, m.uvs);
    assert_eq!(back.indices, m.indices);
    let t = back.texture.unwrap();
    assert_eq!((t.sample_type, t.width, t.height, t.depth), (SampleType::POINT, 2, 1, 1));
    assert_eq!(t.pixels, vec![1, 2, 3, 4, 5, 6, 7, 8]);
}

#[test]
fn unbaked_parts_read_back_as_defaults() {
    let m = sample_mesh();
    let file = encode_mod_file(&m, false, false).unwrap();
    let back = decode_mod_file(&file).unwrap();
    assert_eq!(back.normals, vec![[0, 0, 0]; 3]);
    assert!(back.texture.is_none());
    assert_eq!(back.uvs, m.uvs);
}

#[test]
fn empty_index_list_reads_back_as_none() {
    let mut m = sample_mesh();
    m.indices = Some(vec![]);
    let back = decode_payload(encode_payload(&m, true, true)).unwrap();
    assert!(back.indices.is_none());
}

#[test]
fn depth_texture_round_trip() {
    let mut m = sample_mesh();
    m.texture = Some(MeshTexture { sample_type: SampleType::LINEAR, width: 1, height: 1, depth: 2, pixels: vec![9; 8] });
    let back = decode_payload(encode_payload(&m, true, true)).unwrap();
    let t = back.texture.unwrap();
    assert_eq!((t.sample_type, t.depth, t.pixels.len()), (SampleType::LINEAR, 2, 8));
}

#[test]
fn header_errors() {
    assert_eq!(decode_mod_file(b"HYLEUS").err(), Some(ModError::UnexpectedEof));
    assert_eq!(decode_mod_file(b"NOTAMESH and more").err(), Some(ModError::InvalidHeader));
    assert_eq!(decode_mod_file(&[0xFF, 0xFE, 0, 0, 0, 0, 0, 0, 1]).err(), Some(ModError::Malformed));
    assert_eq!(decode_mod_file(b"HYLEUS_Mnot zstd").err(), Some(ModError::Compression));
}

#[test]
fn truncated_payloads_fail() {
    assert_eq!(decode_payload(vec![]).err(), Some(ModError::UnexpectedEof));
    assert_eq!(decode_payload(vec![0, 2, 0, 0, 0, 1, 2, 3]).err(), Some(ModError::UnexpectedEof));
    // An index section whose count is negative reads to the end.
    assert_eq!(decode_payload(vec![1, 0, 0, 0, 0, 0xFF, 0xFF, 0xFF, 0xFF, 1, 2, 3, 4]).err(), Some(ModError::UnexpectedEof));
}

#[test]
fn negative_attribute_count_past_the_vertices_is_malformed() {
    // No vertices, uv bit set, uv count -1, then a full uv entry: the loader
    // would write past the last vertex.
    let p = vec![2, 0, 0, 0, 0, 0xFF, 0xFF, 0xFF, 0xFF, 0, 0, 0, 0, 0, 0, 0, 0];
    assert_eq!(decode_payload(p).err(), Some(ModError::Malformed));
    // The same with too few bytes for that entry ends the data first.
    let p = vec![2, 0, 0, 0, 0, 0xFF, 0xFF, 0xFF, 0xFF, 0, 0, 0];
    assert_eq!(decode_payload(p).err(), Some(ModError::UnexpectedEof));
}

#[test]
fn oversized_texture_is_malformed() {
    let mut p = vec![8, 0, 0, 0, 0, 0];
    p.extend_from_slice(&0x1_0000u32.to_le_bytes());
    p.extend_from_slice(&0x1_0000u32.to_le_bytes());
    assert_eq!(decode_payload(p).err(), Some(ModError::Malformed));
}

#[test]
fn uv_count_is_cut_to_the_vertices() {
    // Two vertices, uv count 5: only two uv pairs are read.
    let mut p = vec![2, 2, 0, 0, 0];
    p.extend_from_slice(&[0u8; 24]);
    p.extend_from_slice(&5i32.to_le_bytes());
    p.extend_from_slice(&[1, 0, 0, 0, 2, 0, 0, 0, 3, 0, 0, 0, 4, 0, 0, 0]);
    let m = decode_payload(p).unwrap();
    assert_eq!(m.uvs, vec![[1, 2], [3, 4]]);
    // A shorter uv count leaves the rest at zero.
    let mut p = vec![2, 2, 0, 0, 0];
    p.extend_from_slice(&[0u8; 24]);
    p.extend_from_slice(&1i32.to_le_bytes());
    p.extend_from_slice(&[7, 0, 0, 0, 8, 0, 0, 0]);
    let m = decode_payload(p).unwrap();
    assert_eq!(m.uvs, vec![[7, 8], [0, 0]]);
}

#[test]
fn streams_that_end_inside_a_frame_are_unexpected_eof() {
    assert_eq!(decode_mod_file(b"HYLEUS_M").err(), Some(ModError::UnexpectedEof));
    let m = MeshData {
        positions: vec![[1.0f32.to_bits(), 2.0f32.to_bits(), 3.0f32.to_bits()]; 40],
        indices: None,
        uvs: vec![],
        normals: vec![],
        texture: None,
    };
    let file = encode_mod_file(&m, false, false).unwrap();
    let cut = &file[..file.len() - 3];
    assert_eq!(decode_mod_file(cut).err(), Some(ModError::UnexpectedEof));
}

#[test]
fn bytes_after_the_stream_are_not_read() {
    let m = MeshData {
        positions: vec![[1.0f32.to_bits(), 2.0f32.to_bits(), 3.0f32.to_bits()]; 4],
        indices: Some(vec![0, 1, 2, 2, 3, 0]),
        uvs: vec![],
        normals: vec![],
        texture: None,
    };
    let mut file = encode_mod_file(&m, false, false).unwrap();
    file.extend_from_slice(b"trailing bytes that are not zstd");
    let back = decode_mod_file(&file).unwrap();
    assert_eq!(back.positions, m.positions);
    assert_eq!(back.indices, m.indices);
}
