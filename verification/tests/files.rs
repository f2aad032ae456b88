use ivf_fraud::bytes::{
    read_bytes, read_f32_vec, read_i16_vec, read_u32, read_u32_vec, read_u8_vec,
};
use ivf_fraud::index::IvfIndex;

const TRUNCATED: &str = "indice IVF truncado";

#[test]
fn readers_move_the_cursor() {
    let bytes = [1u8, 0, 0, 0, 0xff, 0xff, 0xfe, 0x7f, 0, 0, 0x80, 0x3f, 9];
    let mut cursor = 0;
    assert_eq!(read_u32(&bytes, &mut cursor), Ok(1));
    assert_eq!(cursor, 4);
    assert_eq!(read_i16_vec(&bytes, &mut cursor, 2), Ok(vec![-1, 0x7ffe]));
    assert_eq!(cursor, 8);
    let numbers = read_f32_vec(&bytes, &mut cursor, 1).unwrap();
    assert_eq!(numbers[0].bits, 1.0f32.to_bits());
    assert_eq!(cursor, 12);
    assert_eq!(read_u8_vec(&bytes, &mut cursor, 1), Ok(vec![9]));
    assert_eq!(cursor, 13);
    assert_eq!(read_bytes::<0>(&bytes, &mut cursor), Ok([]));
    cursor = 4;
    assert_eq!(read_bytes::<3>(&bytes, &mut cursor), Ok([0xff, 0xff, 0xfe]));
    assert_eq!(cursor, 7);
}

#[test]
fn readers_fail_where_bytes_are_missing() {
    let bytes = [1u8, 2, 3, 4, 5, 6];
    let mut cursor = 3;
    assert_eq!(read_u32(&bytes, &mut cursor).unwrap_err(), TRUNCATED);
    assert_eq!(cursor, 3);
    assert_eq!(read_u8_vec(&bytes, &mut cursor, 4).unwrap_err(), TRUNCATED);
    assert_eq!(cursor, 3);
    assert_eq!(read_bytes::<4>(&bytes, &mut cursor).unwrap_err(), TRUNCATED);
    assert_eq!(cursor, 3);
    assert_eq!(read_i16_vec(&bytes, &mut cursor, 2).unwrap_err(), TRUNCATED);
    assert_eq!(cursor, 5);
    cursor = 0;
    assert_eq!(read_u32_vec(&bytes, &mut cursor, 2).unwrap_err(), TRUNCATED);
    assert_eq!(cursor, 4);
    cursor = 1;
    assert_eq!(read_f32_vec(&bytes, &mut cursor, 9).unwrap_err(), TRUNCATED);
    assert_eq!(cursor, 5);
    cursor = 99;
    assert_eq!(read_u32(&bytes, &mut cursor).unwrap_err(), TRUNCATED);
}

/// Two clusters, one block.
fn small_file() -> Vec<u8> {
    let mut bytes = b"IVF8".to_vec();
    for value in [7u32, 2, 14, 10_000, 1] {
        bytes.extend_from_slice(&value.to_le_bytes());
    }
    for item in 0..28u32 {
        bytes.extend_from_slice(&(item as f32).to_le_bytes());
    }
    for item in 0..56i16 {
        bytes.extend_from_slice(&(-item).to_le_bytes());
    }
    for offset in [0u32, 1, 1] {
        bytes.extend_from_slice(&offset.to_le_bytes());
    }
    bytes.extend_from_slice(&[0, 1, 0, 1, 0, 1, 0, 1]);
    for id in 0..8u32 {
        bytes.extend_from_slice(&(id + 100).to_le_bytes());
    }
    for item in 0..112i16 {
        bytes.extend_from_slice(&(item * 3).to_le_bytes());
    }
    bytes
}

fn failure(bytes: &[u8]) -> String {
    match IvfIndex::load(bytes) {
        Ok(_) => "none".to_string(),
        Err(message) => message,
    }
}

fn with_u32(at: usize, value: u32) -> Vec<u8> {
    let mut bytes = small_file();
    bytes[at..at + 4].copy_from_slice(&value.to_le_bytes());
    bytes
}

#[test]
fn index_is_what_the_file_holds() {
    let index = IvfIndex::load(&small_file()).unwrap();
    assert_eq!((index.n, index.clusters), (7, 2));
    assert_eq!(index.centroids.len(), 28);
    assert_eq!(index.centroids[27].bits, 27.0f32.to_bits());
    assert_eq!((index.bbox_min[0], index.bbox_min[27]), (0, -27));
    assert_eq!((index.bbox_max[0], index.bbox_max[27]), (-28, -55));
    assert_eq!(index.offsets, vec![0, 1, 1]);
    assert_eq!(index.labels, vec![0, 1, 0, 1, 0, 1, 0, 1]);
    assert_eq!(index.orig_ids, vec![100, 101, 102, 103, 104, 105, 106, 107]);
    assert_eq!((index.blocks[0], index.blocks[111]), (0, 333));
    assert!(index.check_blocks());
}

#[test]
fn what_follows_the_index_is_ignored() {
    let mut bytes = small_file();
    bytes.extend_from_slice(b"and more");
    let index = IvfIndex::load(&bytes).unwrap();
    assert_eq!(index.blocks.len(), 112);
    assert_eq!(index.blocks[111], 333);
}

#[test]
fn cut_files_are_truncated() {
    let bytes = small_file();
    for len in 0..bytes.len() {
        assert_eq!(failure(&bytes[..len]), TRUNCATED, "{len}");
    }
    assert_eq!(failure(&bytes), "none");
    assert_eq!(failure(&with_u32(8, u32::MAX)), TRUNCATED);
    assert_eq!(failure(&with_u32(20, u32::MAX)), TRUNCATED);
}

#[test]
fn other_magic_words_are_refused() {
    let mut bytes = small_file();
    bytes[3] = b'7';
    assert_eq!(failure(&bytes), "indice IVF com magic invalido");
    assert_eq!(failure(b"IVF7"), "indice IVF com magic invalido");
}

#[test]
fn other_parameters_are_refused() {
    for (at, value) in [(8, 0), (12, 13), (12, 15), (16, 9_999), (16, 0)] {
        assert_eq!(failure(&with_u32(at, value)), "indice IVF incompativel");
        assert_eq!(failure(&with_u32(at, value)[..24]), "indice IVF incompativel");
    }
}

#[test]
fn offsets_span_the_blocks() {
    let start = 24 + 112 * 2;
    assert_eq!(failure(&with_u32(start, 1)), "offsets invalidos no indice IVF");
    assert_eq!(failure(&with_u32(start + 8, 0)), "offsets invalidos no indice IVF");
    assert_eq!(failure(&with_u32(start + 8, 2)), "offsets invalidos no indice IVF");
    assert_eq!(failure(&with_u32(start + 4, 900)), "none");
}
