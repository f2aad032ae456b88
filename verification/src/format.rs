//! The index file, written out, and that loading it gives back the index.

use crate::bytes::{i16_at, truncated, u32_at};
use crate::compact::lemma_split;
use crate::index::{
    bad_magic, bad_offsets, file_size, incompatible, labels_start, load_failure, offsets_start,
    IvfIndex,
};
use crate::json::word_is;
use crate::single::Single;
use vstd::prelude::*;

verus! {

/// Numbers of 32 bits in four bytes each, lowest byte first.
pub open spec fn words(numbers: Seq<u32>) -> Seq<u8> {
    Seq::new(
        4 * numbers.len(),
        |i: int|
            {
                let number = numbers[i / 4] as int;
                if i % 4 == 0 {
                    (number % 0x100) as u8
                } else if i % 4 == 1 {
                    (number / 0x100 % 0x100) as u8
                } else if i % 4 == 2 {
                    (number / 0x1_0000 % 0x100) as u8
                } else {
                    (number / 0x100_0000) as u8
                }
            },
    )
}

/// Signed numbers of 16 bits in two bytes each, lowest byte first, as their two's complement.
pub open spec fn halves(numbers: Seq<i16>) -> Seq<u8> {
    Seq::new(
        2 * numbers.len(),
        |i: int|
            {
                let number = numbers[i / 2] + if numbers[i / 2] < 0 {
                    0x1_0000int
                } else {
                    0
                };
                if i % 2 == 0 {
                    (number % 0x100) as u8
                } else {
                    (number / 0x100) as u8
                }
            },
    )
}

/// The header: `IVF8` and the numbers of rows, clusters and dimensions, the scale and the number of
/// blocks.
pub open spec fn header(n: u32, clusters: u32, dim: u32, scale: u32, blocks: u32) -> Seq<u8> {
    seq![0x49u8, 0x56, 0x46, 0x38] + words(seq![n, clusters, dim, scale, blocks])
}

/// An index, written out: the header, the centroids, the lower and the upper corners of the boxes,
/// the offsets, the labels, the ids and the blocks.
pub open spec fn file_of(index: &IvfIndex) -> Seq<u8> {
    header(index.n, index.clusters, 14, 10_000, index.block_count() as u32) + words(
        index.centroids@.map_values(|number: Single| number.bits),
    ) + halves(index.bbox_min@) + halves(index.bbox_max@) + words(index.offsets@) + index.labels@
        + words(index.orig_ids@) + halves(index.blocks@)
}

/// A number of 32 bits is read back from where it was written.
pub proof fn law_words_are_read_back(before: Seq<u8>, numbers: Seq<u32>, behind: Seq<u8>, i: int)
    requires
        0 <= i < numbers.len(),
    ensures
        u32_at(before + words(numbers) + behind, before.len() + 4 * i) == numbers[i],
{
    let all = before + words(numbers) + behind;
    let at = before.len() + 4 * i;
    let number = numbers[i] as int;
    assert(4 * i / 4 == i && (4 * i + 1) / 4 == i && (4 * i + 2) / 4 == i && (4 * i + 3) / 4 == i);
    assert(all[at] == number % 0x100);
    assert(all[at + 1] == number / 0x100 % 0x100);
    assert(all[at + 2] == number / 0x1_0000 % 0x100);
    assert(all[at + 3] == number / 0x100_0000);
    assert(number == number % 0x100 + 0x100 * (number / 0x100 % 0x100) + 0x1_0000 * (number
        / 0x1_0000 % 0x100) + 0x100_0000 * (number / 0x100_0000));
}

/// A signed number of 16 bits is read back from where it was written.
pub proof fn law_halves_are_read_back(before: Seq<u8>, numbers: Seq<i16>, behind: Seq<u8>, i: int)
    requires
        0 <= i < numbers.len(),
    ensures
        i16_at(before + halves(numbers) + behind, before.len() + 2 * i) == numbers[i],
{
    let all = before + halves(numbers) + behind;
    let at = before.len() + 2 * i;
    let number = numbers[i] + if numbers[i] < 0 {
        0x1_0000int
    } else {
        0
    };
    assert(2 * i / 2 == i && (2 * i + 1) / 2 == i);
    assert(all[at] == number % 0x100);
    assert(all[at + 1] == number / 0x100);
}

/// The header is read back.
proof fn lemma_header(
    n: u32,
    clusters: u32,
    dim: u32,
    scale: u32,
    blocks: u32,
    behind: Seq<u8>,
)
    ensures
        ({
            let bytes = header(n, clusters, dim, scale, blocks) + behind;
            &&& header(n, clusters, dim, scale, blocks).len() == 24
            &&& bytes.take(4) == seq![0x49u8, 0x56, 0x46, 0x38]
            &&& u32_at(bytes, 4) == n
            &&& u32_at(bytes, 8) == clusters
            &&& u32_at(bytes, 12) == dim
            &&& u32_at(bytes, 16) == scale
            &&& u32_at(bytes, 20) == blocks
        }),
{
    let magic = seq![0x49u8, 0x56, 0x46, 0x38];
    let numbers = seq![n, clusters, dim, scale, blocks];
    let bytes = header(n, clusters, dim, scale, blocks) + behind;
    assert(bytes =~= magic + words(numbers) + behind);
    assert(bytes.take(4) =~= magic);
    law_words_are_read_back(magic, numbers, behind, 0);
    law_words_are_read_back(magic, numbers, behind, 1);
    law_words_are_read_back(magic, numbers, behind, 2);
    law_words_are_read_back(magic, numbers, behind, 3);
    law_words_are_read_back(magic, numbers, behind, 4);
}

/// Bytes that do not start with `IVF8`, a header with other parameters than 14 dimensions and a
/// scale of 10000 or without clusters, and a header that is cut short are told as such, whatever
/// follows.
pub proof fn law_headers_are_told_apart(
    n: u32,
    clusters: u32,
    dim: u32,
    scale: u32,
    blocks: u32,
    behind: Seq<u8>,
    bytes: Seq<u8>,
    len: int,
)
    requires
        0 <= len < 24,
    ensures
        bytes.len() < 4 ==> load_failure(bytes) == Some(truncated()),
        bytes.len() >= 4 && !(bytes[0] == 0x49 && bytes[1] == 0x56 && bytes[2] == 0x46 && bytes[3]
            == 0x38) ==> load_failure(bytes) == Some(bad_magic()),
        load_failure(header(n, clusters, dim, scale, blocks).take(len)) == Some(truncated()),
        dim != 14 || scale != 10_000 || clusters == 0 ==> load_failure(
            header(n, clusters, dim, scale, blocks) + behind,
        ) == Some(incompatible()),
{
    let magic = seq![0x49u8, 0x56, 0x46, 0x38];
    if bytes.len() >= 4 && bytes.take(4) == magic {
        assert(bytes.take(4)[0] == bytes[0] && bytes.take(4)[1] == bytes[1] && bytes.take(4)[2]
            == bytes[2] && bytes.take(4)[3] == bytes[3]);
    }
    let whole = header(n, clusters, dim, scale, blocks);
    lemma_header(n, clusters, dim, scale, blocks, seq![]);
    lemma_header(n, clusters, dim, scale, blocks, behind);
    if len >= 4 {
        assert(whole.take(len).take(4) =~= magic);
    }
}

/// All the numbers of 32 bits are read back from where they stand.
proof fn lemma_words(bytes: Seq<u8>, at: int, numbers: Seq<u32>)
    requires
        word_is(bytes, at, words(numbers)),
    ensures
        forall|i: int|
            0 <= i < numbers.len() ==> #[trigger] numbers[i] == u32_at(bytes, at + 4 * i),
{
    let before = bytes.take(at);
    let behind = bytes.skip(at + words(numbers).len());
    assert(bytes =~= before + bytes.subrange(at, at + words(numbers).len()) + behind);
    assert forall|i: int| 0 <= i < numbers.len() implies #[trigger] numbers[i] == u32_at(
        bytes,
        at + 4 * i,
    ) by {
        law_words_are_read_back(before, numbers, behind, i);
    }
}

/// All the signed numbers of 16 bits are read back from where they stand.
proof fn lemma_halves(bytes: Seq<u8>, at: int, numbers: Seq<i16>)
    requires
        word_is(bytes, at, halves(numbers)),
    ensures
        forall|i: int|
            0 <= i < numbers.len() ==> #[trigger] numbers[i] == i16_at(bytes, at + 2 * i),
{
    let before = bytes.take(at);
    let behind = bytes.skip(at + halves(numbers).len());
    assert(bytes =~= before + bytes.subrange(at, at + halves(numbers).len()) + behind);
    assert forall|i: int| 0 <= i < numbers.len() implies #[trigger] numbers[i] == i16_at(
        bytes,
        at + 2 * i,
    ) by {
        law_halves_are_read_back(before, numbers, behind, i);
    }
}

/// The parts of a file stand one behind the other.
proof fn lemma_parts_stand(
    bytes: Seq<u8>,
    a: Seq<u8>,
    b: Seq<u8>,
    c: Seq<u8>,
    d: Seq<u8>,
    e: Seq<u8>,
    f: Seq<u8>,
    g: Seq<u8>,
    h: Seq<u8>,
    more: Seq<u8>,
)
    requires
        bytes == a + b + c + d + e + f + g + h + more,
    ensures
        ({
            let to_b = a.len() as int;
            let to_c = to_b + b.len();
            let to_d = to_c + c.len();
            let to_e = to_d + d.len();
            let to_f = to_e + e.len();
            let to_g = to_f + f.len();
            let to_h = to_g + g.len();
            &&& word_is(bytes, 0, a)
            &&& word_is(bytes, to_b, b)
            &&& word_is(bytes, to_c, c)
            &&& word_is(bytes, to_d, d)
            &&& word_is(bytes, to_e, e)
            &&& word_is(bytes, to_f, f)
            &&& word_is(bytes, to_g, g)
            &&& word_is(bytes, to_h, h)
        }),
{
    assert(bytes.subrange(0, bytes.len() as int) =~= bytes);
    lemma_split(bytes, 0, a + b + c + d + e + f + g + h, more);
    lemma_split(bytes, 0, a + b + c + d + e + f + g, h);
    lemma_split(bytes, 0, a + b + c + d + e + f, g);
    lemma_split(bytes, 0, a + b + c + d + e, f);
    lemma_split(bytes, 0, a + b + c + d, e);
    lemma_split(bytes, 0, a + b + c, d);
    lemma_split(bytes, 0, a + b, c);
    lemma_split(bytes, 0, a, b);
}

/// The bytes hold each part of the index at its place.
spec fn holds_parts(index: &IvfIndex, bytes: Seq<u8>) -> bool {
    let clusters = index.clusters as int;
    let blocks = index.block_count();
    let labels = labels_start(clusters);
    &&& u32_at(bytes, 4) == index.n
    &&& u32_at(bytes, 8) == clusters
    &&& u32_at(bytes, 20) == blocks
    &&& forall|i: int|
        0 <= i < 14 * clusters ==> #[trigger] index.centroids@[i] == (Single {
            bits: u32_at(bytes, 24 + 4 * i),
        })
    &&& forall|i: int|
        0 <= i < 14 * clusters ==> #[trigger] index.bbox_min@[i] == i16_at(
            bytes,
            24 + 56 * clusters + 2 * i,
        )
    &&& forall|i: int|
        0 <= i < 14 * clusters ==> #[trigger] index.bbox_max@[i] == i16_at(
            bytes,
            24 + 84 * clusters + 2 * i,
        )
    &&& forall|i: int|
        0 <= i < clusters + 1 ==> #[trigger] index.offsets@[i] == u32_at(
            bytes,
            offsets_start(clusters) + 4 * i,
        )
    &&& index.labels@ == bytes.subrange(labels, labels + 8 * blocks)
    &&& forall|i: int|
        0 <= i < 8 * blocks ==> #[trigger] index.orig_ids@[i] == u32_at(
            bytes,
            labels + 8 * blocks + 4 * i,
        )
    &&& forall|i: int|
        0 <= i < 112 * blocks ==> #[trigger] index.blocks@[i] == i16_at(
            bytes,
            labels + 40 * blocks + 2 * i,
        )
}

/// An index decodes from bytes that hold each of its parts at its place.
proof fn lemma_decodes(index: &IvfIndex, bytes: Seq<u8>)
    requires
        index.wf(),
        holds_parts(index, bytes),
    ensures
        index.decodes(bytes),
{
    let clusters = index.clusters as int;
    let blocks = index.block_count();
    let labels = labels_start(clusters);
    assert(index.centroids@ =~= Seq::new(
        (14 * clusters) as nat,
        |i: int| Single { bits: u32_at(bytes, 24 + 4 * i) },
    ));
    assert(index.bbox_min@ =~= Seq::new(
        (14 * clusters) as nat,
        |i: int| i16_at(bytes, 24 + 56 * clusters + 2 * i),
    ));
    assert(index.bbox_max@ =~= Seq::new(
        (14 * clusters) as nat,
        |i: int| i16_at(bytes, 24 + 84 * clusters + 2 * i),
    ));
    assert(index.offsets@ =~= Seq::new(
        (clusters + 1) as nat,
        |i: int| u32_at(bytes, offsets_start(clusters) + 4 * i),
    ));
    assert(index.orig_ids@ =~= Seq::new(
        (8 * blocks) as nat,
        |i: int| u32_at(bytes, labels + 8 * blocks + 4 * i),
    ));
    assert(index.blocks@ =~= Seq::new(
        (112 * blocks) as nat,
        |i: int| i16_at(bytes, labels + 40 * blocks + 2 * i),
    ));
}

/// The lengths of the parts.
proof fn lemma_lengths(index: &IvfIndex)
    requires
        index.wf(),
    ensures
        words(index.centroids@.map_values(|number: Single| number.bits)).len() == 56
            * index.clusters,
        halves(index.bbox_min@).len() == 28 * index.clusters,
        halves(index.bbox_max@).len() == 28 * index.clusters,
        words(index.offsets@).len() == 4 * (index.clusters + 1),
        index.labels@.len() == 8 * index.block_count(),
        words(index.orig_ids@).len() == 32 * index.block_count(),
        halves(index.blocks@).len() == 224 * index.block_count(),
{
}

/// Each part of an index stands at its place in its file.
proof fn lemma_file_stands(index: &IvfIndex, more: Seq<u8>)
    requires
        index.wf(),
        index.block_count() <= u32::MAX,
    ensures
        ({
            let bytes = file_of(index) + more;
            let clusters = index.clusters as int;
            let blocks = index.block_count();
            let labels = labels_start(clusters);
            let bits = index.centroids@.map_values(|number: Single| number.bits);
            &&& word_is(
                bytes,
                0,
                header(index.n, index.clusters, 14, 10_000, blocks as u32),
            )
            &&& word_is(bytes, 24, words(bits))
            &&& word_is(bytes, 24 + 56 * clusters, halves(index.bbox_min@))
            &&& word_is(bytes, 24 + 84 * clusters, halves(index.bbox_max@))
            &&& word_is(bytes, offsets_start(clusters), words(index.offsets@))
            &&& word_is(bytes, labels, index.labels@)
            &&& word_is(bytes, labels + 8 * blocks, words(index.orig_ids@))
            &&& word_is(bytes, labels + 40 * blocks, halves(index.blocks@))
        }),
{
    let bits = index.centroids@.map_values(|number: Single| number.bits);
    let blocks = index.block_count() as u32;
    lemma_lengths(index);
    lemma_header(index.n, index.clusters, 14, 10_000, blocks, seq![]);
    lemma_parts_stand(
        file_of(index) + more,
        header(index.n, index.clusters, 14, 10_000, blocks),
        words(bits),
        halves(index.bbox_min@),
        halves(index.bbox_max@),
        words(index.offsets@),
        index.labels@,
        words(index.orig_ids@),
        halves(index.blocks@),
        more,
    );
}

/// The header stands at the start of the file.
proof fn lemma_header_stands(index: &IvfIndex, bytes: Seq<u8>, blocks: u32)
    requires
        word_is(bytes, 0, header(index.n, index.clusters, 14, 10_000, blocks)),
    ensures
        bytes.len() >= 24,
        bytes.take(4) == seq![0x49u8, 0x56, 0x46, 0x38],
        u32_at(bytes, 4) == index.n,
        u32_at(bytes, 8) == index.clusters,
        u32_at(bytes, 12) == 14,
        u32_at(bytes, 16) == 10_000,
        u32_at(bytes, 20) == blocks,
{
    let whole = header(index.n, index.clusters, 14, 10_000, blocks);
    let behind = bytes.skip(whole.len() as int);
    assert(bytes =~= bytes.subrange(0, whole.len() as int) + behind);
    lemma_header(index.n, index.clusters, 14, 10_000, blocks, behind);
}

/// A file holds each part of its index at its place.
proof fn lemma_file_holds_parts(index: &IvfIndex, more: Seq<u8>)
    requires
        index.wf(),
        index.block_count() <= u32::MAX,
    ensures
        holds_parts(index, file_of(index) + more),
{
    let clusters = index.clusters as int;
    let blocks = index.block_count();
    let bits = index.centroids@.map_values(|number: Single| number.bits);
    let bytes = file_of(index) + more;
    let labels = labels_start(clusters);
    lemma_file_stands(index, more);
    lemma_header_stands(index, bytes, blocks as u32);
    lemma_words(bytes, 24, bits);
    assert forall|i: int| 0 <= i < 14 * clusters implies #[trigger] index.centroids@[i] == (Single {
        bits: u32_at(bytes, 24 + 4 * i),
    }) by {
        assert(bits[i] == u32_at(bytes, 24 + 4 * i));
    }
    lemma_halves(bytes, 24 + 56 * clusters, index.bbox_min@);
    lemma_halves(bytes, 24 + 84 * clusters, index.bbox_max@);
    lemma_words(bytes, offsets_start(clusters), index.offsets@);
    lemma_words(bytes, labels + 8 * blocks, index.orig_ids@);
    lemma_halves(bytes, labels + 40 * blocks, index.blocks@);
}

/// A file is as long as its index takes, or longer.
proof fn lemma_file_is_long(index: &IvfIndex, more: Seq<u8>)
    requires
        index.wf(),
        index.block_count() <= u32::MAX,
    ensures
        (file_of(index) + more).len() >= file_size(index.clusters as int, index.block_count()),
{
    lemma_lengths(index);
    lemma_header(index.n, index.clusters, 14, 10_000, index.block_count() as u32, seq![]);
}

/// An index decodes from its file.
proof fn lemma_file_decodes(index: &IvfIndex, more: Seq<u8>)
    requires
        index.wf(),
        index.block_count() <= u32::MAX,
    ensures
        index.decodes(file_of(index) + more),
{
    lemma_file_holds_parts(index, more);
    lemma_decodes(index, file_of(index) + more);
}

/// Bytes that are long enough, with the header and the offsets of an index at their places, fail to
/// load only for the offsets.
proof fn lemma_file_is_judged(index: &IvfIndex, bytes: Seq<u8>)
    requires
        index.clusters > 0,
        index.offsets.len() == index.clusters + 1,
        0 <= index.block_count() <= u32::MAX,
        word_is(
            bytes,
            0,
            header(index.n, index.clusters, 14, 10_000, index.block_count() as u32),
        ),
        word_is(bytes, offsets_start(index.clusters as int), words(index.offsets@)),
        bytes.len() >= file_size(index.clusters as int, index.block_count()),
    ensures
        ({
            let spans = index.offsets@[0] == 0 && index.offsets@[index.clusters as int]
                == index.block_count();
            &&& spans ==> load_failure(bytes) is None
            &&& !spans ==> load_failure(bytes) == Some(bad_offsets())
        }),
{
    let start = offsets_start(index.clusters as int);
    lemma_header_stands(index, bytes, index.block_count() as u32);
    lemma_words(bytes, start, index.offsets@);
    assert(index.offsets@[0] == u32_at(bytes, start + 4 * 0));
    assert(index.offsets@[index.clusters as int] == u32_at(bytes, start + 4 * index.clusters));
}

/// An index that was written out is loaded as it was, whatever follows in the file, where its
/// offsets run from the first block to the last; where they do not, that is told.
pub proof fn law_written_indexes_are_loaded(index: &IvfIndex, more: Seq<u8>)
    requires
        index.wf(),
        index.clusters > 0,
        index.block_count() <= u32::MAX,
    ensures
        ({
            let spans = index.offsets@[0] == 0 && index.offsets@[index.clusters as int]
                == index.block_count();
            &&& spans ==> load_failure(file_of(index) + more) is None
            &&& !spans ==> load_failure(file_of(index) + more) == Some(bad_offsets())
        }),
        index.decodes(file_of(index) + more),
{
    lemma_file_stands(index, more);
    lemma_file_is_long(index, more);
    lemma_file_is_judged(index, file_of(index) + more);
    lemma_file_decodes(index, more);
}

/// A file holds one index: any two that it decodes to are the same, part by part.
pub proof fn law_files_hold_one_index(one: &IvfIndex, other: &IvfIndex, bytes: Seq<u8>)
    requires
        one.decodes(bytes),
        other.decodes(bytes),
    ensures
        one.n == other.n,
        one.clusters == other.clusters,
        one.centroids@ == other.centroids@,
        one.bbox_min@ == other.bbox_min@,
        one.bbox_max@ == other.bbox_max@,
        one.offsets@ == other.offsets@,
        one.labels@ == other.labels@,
        one.orig_ids@ == other.orig_ids@,
        one.blocks@ == other.blocks@,
{
}

/// A file that is cut short anywhere is told as such.
pub proof fn law_cut_files_are_told(index: &IvfIndex, len: int)
    requires
        index.wf(),
        index.clusters > 0,
        index.block_count() <= u32::MAX,
        0 <= len < file_of(index).len(),
    ensures
        load_failure(file_of(index).take(len)) == Some(truncated()),
{
    let blocks = index.block_count() as u32;
    let whole = header(index.n, index.clusters, 14, 10_000, blocks);
    let cut = file_of(index).take(len);
    lemma_header(index.n, index.clusters, 14, 10_000, blocks, seq![]);
    if len < 24 {
        law_headers_are_told_apart(index.n, index.clusters, 14, 10_000, blocks, seq![], cut, len);
        assert(cut =~= whole.take(len));
    } else {
        let rest = cut.skip(24);
        assert(cut =~= whole + rest) by {
            assert(file_of(index).take(24) =~= whole);
            assert forall|i: int| 0 <= i < 24 implies cut[i] == whole[i] by {
                assert(file_of(index).take(24)[i] == cut[i]);
            }
        }
        lemma_header(index.n, index.clusters, 14, 10_000, blocks, rest);
    }
}

} // verus!
