//! The inverted-file index: its file format and the scans over its blocks.
//!
//! Rows are quantized to 16 bits in each dimension and stored in blocks of [`BLOCK_LANES`] rows,
//! dimension by dimension. A cluster is a run of blocks with a centroid and a bounding box.

use crate::bytes::{i16_at, read_bytes, read_i16_vec, read_f32_vec, read_u32, read_u32_vec};
use crate::bytes::{read_u8_vec, truncated, u32_at};
use crate::single::Single;
use vstd::prelude::*;

verus! {

/// How many dimensions a row has.
pub const DIMENSIONS: usize = 14;

/// How many rows a block holds.
pub const BLOCK_LANES: usize = 8;

/// The factor by which a row's dimensions were multiplied before they were rounded.
pub const QUANT_SCALE: u32 = 10_000;

/// The index. Row `lane` of block `b` has its label and id at `b * BLOCK_LANES + lane`; the id
/// `u32::MAX` marks a lane without a row. Cluster `c` holds the blocks from `offsets[c]` up to,
/// but without, `offsets[c + 1]`.
pub struct IvfIndex {
    pub n: u32,
    pub clusters: u32,
    pub centroids: Vec<Single>,
    pub bbox_min: Vec<i16>,
    pub bbox_max: Vec<i16>,
    pub offsets: Vec<u32>,
    pub labels: Vec<u8>,
    pub orig_ids: Vec<u32>,
    pub blocks: Vec<i16>,
}

/// What [`IvfIndex::load`] reports of bytes that start with something else than the magic word.
pub open spec fn bad_magic() -> Seq<char> {
    "indice IVF com magic invalido"@
}

/// What [`IvfIndex::load`] reports of an index built with other parameters, or of no clusters.
pub open spec fn incompatible() -> Seq<char> {
    "indice IVF incompativel"@
}

/// What [`IvfIndex::load`] reports of offsets that do not span all the blocks.
pub open spec fn bad_offsets() -> Seq<char> {
    "offsets invalidos no indice IVF"@
}

/// How many bytes an index takes: 24 of header, then the centroids, the two corners of the
/// boxes, the offsets, the labels, the ids and the blocks.
pub open spec fn file_size(clusters: int, blocks: int) -> int {
    24 + 56 * clusters + 28 * clusters + 28 * clusters + 4 * (clusters + 1) + 8 * blocks + 32
        * blocks + 224 * blocks
}

/// Where the offsets start.
pub open spec fn offsets_start(clusters: int) -> int {
    24 + 112 * clusters
}

/// Where the labels start.
pub open spec fn labels_start(clusters: int) -> int {
    28 + 116 * clusters
}

/// What is wrong with the bytes of an index, if anything is.
pub open spec fn load_failure(bytes: Seq<u8>) -> Option<Seq<char>> {
    let clusters = u32_at(bytes, 8) as int;
    let blocks = u32_at(bytes, 20);
    if bytes.len() < 4 {
        Some(truncated())
    } else if bytes.take(4) != seq![0x49u8, 0x56u8, 0x46u8, 0x38u8] {
        Some(bad_magic())
    } else if bytes.len() < 24 {
        Some(truncated())
    } else if u32_at(bytes, 12) != DIMENSIONS || u32_at(bytes, 16) != QUANT_SCALE || clusters == 0 {
        Some(incompatible())
    } else if bytes.len() < file_size(clusters, blocks as int) {
        Some(truncated())
    } else if u32_at(bytes, offsets_start(clusters)) != 0 || u32_at(
        bytes,
        offsets_start(clusters) + 4 * clusters,
    ) != blocks {
        Some(bad_offsets())
    } else {
        None
    }
}

impl IvfIndex {
    /// How many blocks there are.
    pub open spec fn block_count(&self) -> int {
        self.labels.len() as int / 8
    }

    /// The parts have the sizes that the numbers of clusters and of blocks call for.
    pub open spec fn wf(&self) -> bool {
        &&& self.centroids.len() == 14 * self.clusters
        &&& self.bbox_min.len() == 14 * self.clusters
        &&& self.bbox_max.len() == 14 * self.clusters
        &&& self.offsets.len() == self.clusters + 1
        &&& self.labels.len() == 8 * self.block_count()
        &&& self.orig_ids.len() == 8 * self.block_count()
        &&& self.blocks.len() == 112 * self.block_count()
    }

    /// The index is the one that the bytes hold.
    pub open spec fn decodes(&self, bytes: Seq<u8>) -> bool {
        let clusters = u32_at(bytes, 8) as int;
        let blocks = u32_at(bytes, 20) as int;
        let labels = labels_start(clusters);
        &&& self.n == u32_at(bytes, 4)
        &&& self.clusters == clusters
        &&& self.centroids@ == Seq::new(
            (14 * clusters) as nat,
            |i: int| Single { bits: u32_at(bytes, 24 + 4 * i) },
        )
        &&& self.bbox_min@ == Seq::new(
            (14 * clusters) as nat,
            |i: int| i16_at(bytes, 24 + 56 * clusters + 2 * i),
        )
        &&& self.bbox_max@ == Seq::new(
            (14 * clusters) as nat,
            |i: int| i16_at(bytes, 24 + 84 * clusters + 2 * i),
        )
        &&& self.offsets@ == Seq::new(
            (clusters + 1) as nat,
            |i: int| u32_at(bytes, offsets_start(clusters) + 4 * i),
        )
        &&& self.labels@ == bytes.subrange(labels, labels + 8 * blocks)
        &&& self.orig_ids@ == Seq::new(
            (8 * blocks) as nat,
            |i: int| u32_at(bytes, labels + 8 * blocks + 4 * i),
        )
        &&& self.blocks@ == Seq::new(
            (112 * blocks) as nat,
            |i: int| i16_at(bytes, labels + 40 * blocks + 2 * i),
        )
    }

    /// Decodes the bytes of an index file.
    pub fn load(bytes: &[u8]) -> (loaded: Result<Self, String>)
        ensures
            match loaded {
                Ok(index) => load_failure(bytes@) is None && index.wf() && index.decodes(bytes@)
                    && index.clusters > 0,
                Err(message) => load_failure(bytes@) == Some(message@),
            },
    {
        let mut cursor: usize = 0;
        let magic = read_bytes::<4>(bytes, &mut cursor)?;
        assert(magic@ =~= bytes@.take(4));
        if magic[0] != 0x49 || magic[1] != 0x56 || magic[2] != 0x46 || magic[3] != 0x38 {
            return Err("indice IVF com magic invalido".to_string());
        }
        assert(bytes@.take(4) =~= seq![0x49u8, 0x56u8, 0x46u8, 0x38u8]);
        let n: u32 = read_u32(bytes, &mut cursor)?;
        let clusters: u32 = read_u32(bytes, &mut cursor)?;
        let dim: u32 = read_u32(bytes, &mut cursor)?;
        let scale: u32 = read_u32(bytes, &mut cursor)?;
        let total_blocks: u32 = read_u32(bytes, &mut cursor)?;
        if dim != DIMENSIONS as u32 || scale != QUANT_SCALE || clusters == 0 {
            return Err("indice IVF incompativel".to_string());
        }
        // A size that does not fit `usize` is beyond the end of any slice.
        let box_items: u64 = clusters as u64 * DIMENSIONS as u64;
        let rows: u64 = total_blocks as u64 * BLOCK_LANES as u64;
        if box_items > usize::MAX as u64 || clusters as u64 + 1 > usize::MAX as u64 || rows
            * DIMENSIONS as u64 > usize::MAX as u64 {
            assert(bytes@.len() == bytes.len());
            return Err("indice IVF truncado".to_string());
        }
        let box_len: usize = box_items as usize;
        let padded_rows: usize = rows as usize;
        let block_len: usize = (rows * DIMENSIONS as u64) as usize;
        let centroids = read_f32_vec(bytes, &mut cursor, box_len)?;
        let bbox_min = read_i16_vec(bytes, &mut cursor, box_len)?;
        let bbox_max = read_i16_vec(bytes, &mut cursor, box_len)?;
        let offsets = read_u32_vec(bytes, &mut cursor, clusters as usize + 1)?;
        let labels = read_u8_vec(bytes, &mut cursor, padded_rows)?;
        let orig_ids = read_u32_vec(bytes, &mut cursor, padded_rows)?;
        let blocks = read_i16_vec(bytes, &mut cursor, block_len)?;
        if offsets[0] != 0 || offsets[clusters as usize] != total_blocks {
            return Err("offsets invalidos no indice IVF".to_string());
        }
        let index = IvfIndex {
            n,
            clusters,
            centroids,
            bbox_min,
            bbox_max,
            offsets,
            labels,
            orig_ids,
            blocks,
        };
        assert(index.decodes(bytes@));
        Ok(index)
    }
}

/// What follows the index in a file does not matter: the index is the same without it.
pub proof fn law_load_ignores_what_follows(bytes: Seq<u8>, more: Seq<u8>, index: &IvfIndex)
    requires
        load_failure(bytes) is None,
    ensures
        load_failure(bytes + more) is None,
        index.decodes(bytes + more) == index.decodes(bytes),
{
    let all = bytes + more;
    let clusters = u32_at(bytes, 8) as int;
    let blocks = u32_at(bytes, 20) as int;
    let labels = labels_start(clusters);
    assert(forall|i: int| 0 <= i < bytes.len() ==> all[i] == bytes[i]);
    assert(all.take(4) =~= bytes.take(4));
    assert(all.subrange(labels, labels + 8 * blocks) =~= bytes.subrange(
        labels,
        labels + 8 * blocks,
    ));
    assert(Seq::new(
        (14 * clusters) as nat,
        |i: int| Single { bits: u32_at(all, 24 + 4 * i) },
    ) =~= Seq::new((14 * clusters) as nat, |i: int| Single { bits: u32_at(bytes, 24 + 4 * i) }));
    assert(Seq::new((14 * clusters) as nat, |i: int| i16_at(all, 24 + 56 * clusters + 2 * i))
        =~= Seq::new((14 * clusters) as nat, |i: int| i16_at(bytes, 24 + 56 * clusters + 2 * i)));
    assert(Seq::new((14 * clusters) as nat, |i: int| i16_at(all, 24 + 84 * clusters + 2 * i))
        =~= Seq::new((14 * clusters) as nat, |i: int| i16_at(bytes, 24 + 84 * clusters + 2 * i)));
    assert(Seq::new(
        (clusters + 1) as nat,
        |i: int| u32_at(all, offsets_start(clusters) + 4 * i),
    ) =~= Seq::new(
        (clusters + 1) as nat,
        |i: int| u32_at(bytes, offsets_start(clusters) + 4 * i),
    ));
    assert(Seq::new((8 * blocks) as nat, |i: int| u32_at(all, labels + 8 * blocks + 4 * i))
        =~= Seq::new((8 * blocks) as nat, |i: int| u32_at(bytes, labels + 8 * blocks + 4 * i)));
    assert(Seq::new((112 * blocks) as nat, |i: int| i16_at(all, labels + 40 * blocks + 2 * i))
        =~= Seq::new((112 * blocks) as nat, |i: int| i16_at(bytes, labels + 40 * blocks + 2 * i)));
}

} // verus!
