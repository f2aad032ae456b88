//! Distances between a quantized query and what an index holds.

use crate::index::{IvfIndex, BLOCK_LANES, DIMENSIONS};
use crate::top5::{lemma_offered_all_concat, lemma_worst_is_unique, offered, offered_all};
use crate::top5::{Candidate, Top5};
use vstd::prelude::*;

verus! {

/// The square of the difference of two quantized coordinates.
pub open spec fn square_gap(left: i16, right: i16) -> int {
    (left - right) * (left - right)
}

/// The square of the difference of two quantized coordinates.
pub fn sqdiff_i16(left: i16, right: i16) -> (square: u64)
    ensures
        square == square_gap(left, right),
        square == (left - right) * (left - right),
        square <= 0xfffe_0001,
{
    let delta: i64 = left as i64 - right as i64;
    proof {
        lemma_square_gap_bounds(left, right);
    }
    (delta * delta) as u64
}

/// A square is never negative, and coordinates are at most 65535 apart.
pub proof fn lemma_square_gap_bounds(left: i16, right: i16)
    ensures
        0 <= square_gap(left, right) <= 0xfffe_0001,
{
    let delta = left - right;
    assert(-0xffff <= delta <= 0xffff);
    assert(0 <= delta * delta <= 0xffff * 0xffff) by (nonlinear_arith)
        requires
            -0xffff <= delta <= 0xffff,
    ;
}

/// How far a coordinate lies outside an interval, squared; 0 inside.
pub open spec fn outside(target: i16, low: i16, high: i16) -> int {
    if target < low {
        square_gap(target, low)
    } else if target > high {
        square_gap(target, high)
    } else {
        0
    }
}

/// An interval's nearest point is no farther away than any other of its points.
pub proof fn lemma_outside_is_nearest(target: i16, low: i16, high: i16, point: i16)
    requires
        low <= point <= high,
    ensures
        0 <= outside(target, low, high) <= square_gap(target, point),
{
    lemma_square_gap_bounds(target, low);
    lemma_square_gap_bounds(target, high);
    lemma_square_gap_bounds(target, point);
    if target < low {
        let near = low - target;
        let far = point - target;
        assert(near * near <= far * far) by (nonlinear_arith)
            requires
                0 <= near <= far,
        ;
        assert(square_gap(target, low) == near * near) by (nonlinear_arith)
            requires
                near == low - target,
                square_gap(target, low) == (target - low) * (target - low),
        ;
        assert(square_gap(target, point) == far * far) by (nonlinear_arith)
            requires
                far == point - target,
                square_gap(target, point) == (target - point) * (target - point),
        ;
    } else if target > high {
        let near = target - high;
        let far = target - point;
        assert(near * near <= far * far) by (nonlinear_arith)
            requires
                0 <= near <= far,
        ;
    }
}

impl IvfIndex {
    /// The coordinate of a row in one dimension.
    pub open spec fn coordinate(&self, block: int, lane: int, dim: int) -> i16 {
        self.blocks@[112 * block + 8 * dim + lane]
    }

    /// The squared distance between the query and a row over the first `dims` dimensions.
    pub open spec fn distance(&self, query: Seq<i16>, block: int, lane: int, dims: nat) -> int
        decreases dims,
    {
        if dims == 0 {
            0
        } else {
            self.distance(query, block, lane, (dims - 1) as nat) + square_gap(
                query[dims - 1],
                self.coordinate(block, lane, dims - 1),
            )
        }
    }

    /// The row in a lane, as a candidate for the query.
    pub open spec fn candidate(&self, query: Seq<i16>, block: int, lane: int) -> Candidate {
        Candidate {
            distance: self.distance(query, block, lane, 14) as u64,
            label: self.labels@[8 * block + lane],
            id: self.orig_ids@[8 * block + lane],
        }
    }

    /// The rows in the first `lanes` lanes of a block.
    pub open spec fn lane_candidates(&self, query: Seq<i16>, block: int, lanes: nat) -> Seq<
        Candidate,
    >
        decreases lanes,
    {
        if lanes == 0 {
            seq![]
        } else {
            let before = self.lane_candidates(query, block, (lanes - 1) as nat);
            if self.orig_ids@[8 * block + lanes - 1] == u32::MAX {
                before
            } else {
                before.push(self.candidate(query, block, lanes - 1))
            }
        }
    }

    /// The rows of the blocks from `start` up to, but without, `end`.
    pub open spec fn block_candidates(&self, query: Seq<i16>, start: int, end: int) -> Seq<
        Candidate,
    >
        decreases end - start,
    {
        if start >= end {
            seq![]
        } else {
            self.block_candidates(query, start, end - 1) + self.lane_candidates(query, end - 1, 8)
        }
    }

    /// A bound below the squared distance between the query and any point of a cluster's box,
    /// over the first `dims` dimensions.
    pub open spec fn box_distance(&self, query: Seq<i16>, cluster: int, dims: nat) -> int
        decreases dims,
    {
        if dims == 0 {
            0
        } else {
            self.box_distance(query, cluster, (dims - 1) as nat) + outside(
                query[dims - 1],
                self.bbox_min@[14 * cluster + dims - 1],
                self.bbox_max@[14 * cluster + dims - 1],
            )
        }
    }

    /// How many dimensions are summed up before the sum exceeds `stop_after`; all of them, if it
    /// never does.
    pub open spec fn box_stop(
        &self,
        query: Seq<i16>,
        cluster: int,
        stop_after: u64,
        dims: nat,
    ) -> nat
        decreases 14 - dims,
    {
        if dims >= 14 || (dims > 0 && self.box_distance(query, cluster, dims) > stop_after) {
            dims
        } else {
            self.box_stop(query, cluster, stop_after, dims + 1)
        }
    }

    /// Distances grow with the number of dimensions and stay far below the largest `u64`.
    pub proof fn lemma_distance_grows(
        &self,
        query: Seq<i16>,
        block: int,
        lane: int,
        fewer: nat,
        dims: nat,
    )
        requires
            fewer <= dims,
        ensures
            0 <= self.distance(query, block, lane, fewer) <= self.distance(
                query,
                block,
                lane,
                dims,
            ) <= 0xfffe_0001 * dims,
        decreases dims,
    {
        if dims > 0 {
            lemma_square_gap_bounds(query[dims - 1], self.coordinate(block, lane, dims - 1));
            if fewer < dims {
                self.lemma_distance_grows(query, block, lane, fewer, (dims - 1) as nat);
            } else {
                self.lemma_distance_grows(query, block, lane, (dims - 1) as nat, (dims - 1) as nat);
            }
        }
    }

    /// Box distances grow with the number of dimensions and stay far below the largest `u64`.
    pub proof fn lemma_box_distance_grows(
        &self,
        query: Seq<i16>,
        cluster: int,
        fewer: nat,
        dims: nat,
    )
        requires
            fewer <= dims,
        ensures
            0 <= self.box_distance(query, cluster, fewer) <= self.box_distance(
                query,
                cluster,
                dims,
            ) <= 0xfffe_0001 * dims,
        decreases dims,
    {
        if dims > 0 {
            lemma_square_gap_bounds(query[dims - 1], self.bbox_min@[14 * cluster + dims - 1]);
            lemma_square_gap_bounds(query[dims - 1], self.bbox_max@[14 * cluster + dims - 1]);
            if fewer < dims {
                self.lemma_box_distance_grows(query, cluster, fewer, (dims - 1) as nat);
            } else {
                self.lemma_box_distance_grows(
                    query,
                    cluster,
                    (dims - 1) as nat,
                    (dims - 1) as nat,
                );
            }
        }
    }

    /// A bound below the squared distance between the query and any point of a cluster's box.
    /// Stops early, with what it has summed up, once that exceeds `stop_after`.
    pub fn bbox_lower_bound(
        &self,
        cluster: u32,
        query: &[i16; DIMENSIONS],
        stop_after: u64,
    ) -> (bound: u64)
        requires
            self.wf(),
            cluster < self.clusters,
        ensures
            bound == self.box_distance(
                query@,
                cluster as int,
                self.box_stop(query@, cluster as int, stop_after, 0),
            ),
            bound <= stop_after <==> self.box_distance(query@, cluster as int, 14) <= stop_after,
    {
        let base: usize = cluster as usize * DIMENSIONS;
        let mut sum: u64 = 0;
        let mut dim: usize = 0;
        while dim < DIMENSIONS
            invariant
                self.wf(),
                cluster < self.clusters,
                base == 14 * cluster,
                dim <= 14,
                sum == self.box_distance(query@, cluster as int, dim as nat),
                sum <= 0xfffe_0001 * dim,
                dim > 0 ==> sum <= stop_after,
                self.box_stop(query@, cluster as int, stop_after, 0) == self.box_stop(
                    query@,
                    cluster as int,
                    stop_after,
                    dim as nat,
                ),
            decreases DIMENSIONS - dim,
        {
            proof {
                self.lemma_box_distance_grows(
                    query@,
                    cluster as int,
                    (dim + 1) as nat,
                    (dim + 1) as nat,
                );
                self.lemma_box_distance_grows(query@, cluster as int, (dim + 1) as nat, 14);
            }
            let target: i16 = query[dim];
            if target < self.bbox_min[base + dim] {
                sum = sum + sqdiff_i16(target, self.bbox_min[base + dim]);
            } else if target > self.bbox_max[base + dim] {
                sum = sum + sqdiff_i16(target, self.bbox_max[base + dim]);
            }
            dim = dim + 1;
            assert(self.box_stop(query@, cluster as int, stop_after, (dim - 1) as nat)
                == self.box_stop(query@, cluster as int, stop_after, dim as nat));
            if sum > stop_after {
                return sum;
            }
        }
        sum
    }

    /// Offers every row of the blocks from `start_block` up to, but without, `end_block`. A row
    /// is given up half-way once it is farther away than the worst candidate; the outcome is that
    /// of offering it with its whole distance.
    pub fn scan_blocks(
        &self,
        top: &mut Top5,
        start_block: u32,
        end_block: u32,
        query: &[i16; DIMENSIONS],
    )
        requires
            self.wf(),
            old(top).wf(),
            start_block < end_block ==> end_block <= self.block_count(),
        ensures
            final(top).wf(),
            final(top).entries() == offered_all(
                old(top).entries(),
                self.block_candidates(query@, start_block as int, end_block as int),
            ),
    {
        let ghost before = top.entries();
        let mut block: u32 = start_block;
        while block < end_block
            invariant
                self.wf(),
                top.wf(),
                start_block < end_block ==> end_block <= self.block_count(),
                start_block <= block,
                block <= end_block || block == start_block,
                top.entries() == offered_all(
                    before,
                    self.block_candidates(query@, start_block as int, block as int),
                ),
            decreases end_block - block,
        {
            let ghost at_block = top.entries();
            let mut lane: usize = 0;
            while lane < BLOCK_LANES
                invariant
                    self.wf(),
                    top.wf(),
                    block < end_block <= self.block_count(),
                    lane <= 8,
                    top.entries() == offered_all(
                        at_block,
                        self.lane_candidates(query@, block as int, lane as nat),
                    ),
                decreases BLOCK_LANES - lane,
            {
                self.scan_lane(top, block, lane, query);
                proof {
                    let seen = self.lane_candidates(query@, block as int, lane as nat);
                    let row = self.candidate(query@, block as int, lane as int);
                    assert(seen.push(row).drop_last() =~= seen);
                }
                lane = lane + 1;
            }
            proof {
                lemma_offered_all_concat(
                    before,
                    self.block_candidates(query@, start_block as int, block as int),
                    self.lane_candidates(query@, block as int, 8),
                );
            }
            block = block + 1;
        }
        assert(start_block >= end_block ==> self.block_candidates(
            query@,
            start_block as int,
            end_block as int,
        ) =~= self.block_candidates(query@, start_block as int, block as int));
    }

    /// Offers the row in a lane, if there is one.
    fn scan_lane(&self, top: &mut Top5, block: u32, lane: usize, query: &[i16; DIMENSIONS])
        requires
            self.wf(),
            old(top).wf(),
            block < self.block_count(),
            lane < 8,
        ensures
            final(top).wf(),
            self.orig_ids@[8 * block + lane] == u32::MAX ==> *final(top) == *old(top),
            self.orig_ids@[8 * block + lane] != u32::MAX ==> final(top).entries() == offered(
                old(top).entries(),
                self.candidate(query@, block as int, lane as int),
            ),
    {
        let block_base: usize = block as usize * DIMENSIONS * BLOCK_LANES;
        let label_base: usize = block as usize * BLOCK_LANES;
        let id: u32 = self.orig_ids[label_base + lane];
        if id == u32::MAX {
            return ;
        }
        let worst: u64 = top.worst_distance();
        let mut distance: u64 = 0;
        let mut dim: usize = 0;
        while dim < DIMENSIONS && distance <= worst
            invariant
                self.wf(),
                block < self.block_count(),
                block_base == 112 * block,
                lane < 8,
                dim <= 14,
                distance == self.distance(query@, block as int, lane as int, dim as nat),
            decreases DIMENSIONS - dim,
        {
            proof {
                self.lemma_distance_grows(
                    query@,
                    block as int,
                    lane as int,
                    (dim + 1) as nat,
                    (dim + 1) as nat,
                );
            }
            distance = distance + sqdiff_i16(
                query[dim],
                self.blocks[block_base + (dim * BLOCK_LANES) + lane],
            );
            dim = dim + 1;
        }
        proof {
            self.lemma_distance_grows(query@, block as int, lane as int, dim as nat, 14);
            lemma_worst_is_unique(top.entries(), top.worst as int);
        }
        top.insert(distance, self.labels[label_base + lane], id);
    }
}

impl IvfIndex {
    /// The coordinates of the row in a lane, as they lie in the blocks: one after the other, with
    /// the other lanes' between them.
    pub open spec fn row(&self, block: int, lane: int) -> Seq<i16> {
        Seq::new(14, |dim: int| self.blocks@[112 * block + 8 * dim + lane])
    }
}

/// Rows are ranked by the square of the Euclidean distance: the sum, over all 14 coordinates, of
/// the square of the difference between the query's and the row's.
pub proof fn law_rows_are_ranked_by_euclidean_distance(
    index: &IvfIndex,
    query: Seq<i16>,
    block: int,
    lane: int,
)
    ensures
        ({
            let row = index.row(block, lane);
            index.candidate(query, block, lane).distance == (query[0] - row[0]) * (query[0]
                - row[0]) + (query[1] - row[1]) * (query[1] - row[1]) + (query[2] - row[2]) * (
            query[2] - row[2]) + (query[3] - row[3]) * (query[3] - row[3]) + (query[4] - row[4]) * (
            query[4] - row[4]) + (query[5] - row[5]) * (query[5] - row[5]) + (query[6] - row[6]) * (
            query[6] - row[6]) + (query[7] - row[7]) * (query[7] - row[7]) + (query[8] - row[8]) * (
            query[8] - row[8]) + (query[9] - row[9]) * (query[9] - row[9]) + (query[10] - row[10])
                * (query[10] - row[10]) + (query[11] - row[11]) * (query[11] - row[11]) + (query[12]
                - row[12]) * (query[12] - row[12]) + (query[13] - row[13]) * (query[13] - row[13])
        }),
{
    reveal_with_fuel(IvfIndex::distance, 15);
    index.lemma_distance_grows(query, block, lane, 14, 14);
}

/// A difference counts by its square: the same either way round, the same for every pair that is
/// as far apart, more for a pair that is farther apart, and nothing only for equal coordinates.
pub proof fn law_squares_measure_the_gap(left: i16, right: i16, other: i16, another: i16)
    ensures
        square_gap(left, right) == square_gap(right, left),
        square_gap(left, right) == 0 <==> left == right,
        left - right == other - another ==> square_gap(left, right) == square_gap(other, another),
        0 <= left - right < other - another ==> square_gap(left, right) < square_gap(
            other,
            another,
        ),
        left - right == 1 ==> square_gap(left, right) == 1,
{
    let a = left - right;
    let b = right - left;
    let c = other - another;
    assert(a * a == b * b) by (nonlinear_arith)
        requires
            a == -b,
    ;
    assert(a * a == 0 <==> a == 0) by (nonlinear_arith);
    assert(a == 1 ==> a * a == 1) by (nonlinear_arith);
    if 0 <= a < c {
        assert(a * a < c * c) by (nonlinear_arith)
            requires
                0 <= a < c,
        ;
    }
}

/// A row is at distance 0 exactly where it agrees with the query in every coordinate, and query
/// and row may change places.
pub proof fn law_distance_is_symmetric_and_tells_rows_apart(
    index: &IvfIndex,
    query: Seq<i16>,
    block: int,
    lane: int,
    other_index: &IvfIndex,
    other_query: Seq<i16>,
    other_block: int,
    other_lane: int,
)
    requires
        query.len() == 14,
        other_query.len() == 14,
    ensures
        index.candidate(query, block, lane).distance == 0 <==> query == index.row(block, lane),
        query == other_index.row(other_block, other_lane) && other_query == index.row(block, lane)
            ==> index.candidate(query, block, lane).distance == other_index.candidate(
            other_query,
            other_block,
            other_lane,
        ).distance,
{
    let row = index.row(block, lane);
    let other_row = other_index.row(other_block, other_lane);
    lemma_distance_of_equals(index, query, block, lane, 14);
    index.lemma_distance_grows(query, block, lane, 14, 14);
    other_index.lemma_distance_grows(other_query, other_block, other_lane, 14, 14);
    if index.distance(query, block, lane, 14) == 0 {
        assert(query =~= row);
    }
    if query == other_row && other_query == row {
        lemma_distance_swaps(
            index,
            query,
            block,
            lane,
            other_index,
            other_query,
            other_block,
            other_lane,
            14,
        );
    }
}

/// Over some dimensions, the distance is 0 exactly where the coordinates agree.
proof fn lemma_distance_of_equals(
    index: &IvfIndex,
    query: Seq<i16>,
    block: int,
    lane: int,
    dims: nat,
)
    requires
        dims <= 14,
    ensures
        index.distance(query, block, lane, dims) == 0 <==> forall|dim: int|
            0 <= dim < dims ==> #[trigger] query[dim] == index.row(block, lane)[dim],
    decreases dims,
{
    if dims > 0 {
        let last = dims - 1;
        let row = index.row(block, lane);
        lemma_distance_of_equals(index, query, block, lane, last as nat);
        index.lemma_distance_grows(query, block, lane, last as nat, last as nat);
        lemma_square_gap_bounds(query[last], row[last]);
        law_squares_measure_the_gap(query[last], row[last], 0, 0);
        if index.distance(query, block, lane, dims) == 0 {
            assert forall|dim: int| 0 <= dim < dims implies #[trigger] query[dim] == row[dim] by {
                if dim < last {
                }
            }
        }
    }
}

/// Over some dimensions, query and row may change places.
proof fn lemma_distance_swaps(
    index: &IvfIndex,
    query: Seq<i16>,
    block: int,
    lane: int,
    other_index: &IvfIndex,
    other_query: Seq<i16>,
    other_block: int,
    other_lane: int,
    dims: nat,
)
    requires
        dims <= 14,
        query == other_index.row(other_block, other_lane),
        other_query == index.row(block, lane),
    ensures
        index.distance(query, block, lane, dims) == other_index.distance(
            other_query,
            other_block,
            other_lane,
            dims,
        ),
    decreases dims,
{
    if dims > 0 {
        let last = dims - 1;
        lemma_distance_swaps(
            index,
            query,
            block,
            lane,
            other_index,
            other_query,
            other_block,
            other_lane,
            last as nat,
        );
        law_squares_measure_the_gap(query[last], other_query[last], 0, 0);
    }
}

impl IvfIndex {
    /// What lies in `count` lanes from lane `start` on, counted over all the blocks: with the
    /// lanes that hold no row.
    pub open spec fn lanes(&self, query: Seq<i16>, start: int, count: nat) -> Seq<Candidate> {
        Seq::new(
            count,
            |i: int|
                Candidate {
                    distance: self.candidate(query, (start + i) / 8, (start + i) % 8).distance,
                    label: self.labels@[start + i],
                    id: self.orig_ids@[start + i],
                },
        )
    }

    /// The first lanes of a block hold its rows, and what is marked as none.
    proof fn lemma_lanes_of_block(&self, query: Seq<i16>, block: int, lanes: nat)
        requires
            0 <= block,
            lanes <= 8,
        ensures
            self.lane_candidates(query, block, lanes) == self.lanes(query, 8 * block, lanes).filter(
                |c: Candidate| c.id != u32::MAX,
            ),
        decreases lanes,
    {
        reveal_with_fuel(Seq::filter, 2);
        let is_row = |c: Candidate| c.id != u32::MAX;
        let all = self.lanes(query, 8 * block, lanes);
        if lanes == 0 {
            assert(all =~= seq![]);
        } else {
            let last = lanes - 1;
            self.lemma_lanes_of_block(query, block, last as nat);
            assert((8 * block + last) / 8 == block && (8 * block + last) % 8 == last);
            assert(all.drop_last() =~= self.lanes(query, 8 * block, last as nat));
            assert(all.last() == self.candidate(query, block, last));
        }
    }
}

/// The rows of a run of blocks are what lies in its lanes, in their order, each with its label and
/// its id, without the lanes whose id marks them as empty.
pub proof fn law_every_lane_with_an_id_is_a_row(
    index: &IvfIndex,
    query: Seq<i16>,
    start: int,
    end: int,
)
    requires
        0 <= start <= end,
    ensures
        index.block_candidates(query, start, end) == index.lanes(
            query,
            8 * start,
            (8 * (end - start)) as nat,
        ).filter(|c: Candidate| c.id != u32::MAX),
    decreases end - start,
{
    let is_row = |c: Candidate| c.id != u32::MAX;
    let all = index.lanes(query, 8 * start, (8 * (end - start)) as nat);
    if start == end {
        reveal_with_fuel(Seq::filter, 2);
        assert(all =~= seq![]);
    } else {
        let before = index.lanes(query, 8 * start, (8 * (end - 1 - start)) as nat);
        let last = index.lanes(query, 8 * (end - 1), 8);
        law_every_lane_with_an_id_is_a_row(index, query, start, end - 1);
        index.lemma_lanes_of_block(query, end - 1, 8);
        assert(all =~= before + last);
        Seq::filter_distributes_over_add(before, last, is_row);
    }
}

/// The bound of a cluster's box is the squared Euclidean distance between the query and the point
/// of the box that is nearest to it: the query's own coordinate in every dimension in which it lies
/// between the box's sides, and the side's where it lies beyond one.
pub proof fn law_box_bound_is_the_distance_to_the_box(
    index: &IvfIndex,
    query: Seq<i16>,
    cluster: int,
    point: Seq<i16>,
)
    requires
        forall|dim: int|
            #![trigger point[dim]]
            0 <= dim < 14 ==> {
                let low = index.bbox_min@[14 * cluster + dim];
                let high = index.bbox_max@[14 * cluster + dim];
                &&& low <= point[dim] <= high
                &&& query[dim] <= low ==> point[dim] == low
                &&& query[dim] >= high ==> point[dim] == high
                &&& low <= query[dim] <= high ==> point[dim] == query[dim]
            },
    ensures
        index.box_distance(query, cluster, 14) == (query[0] - point[0]) * (query[0] - point[0]) + (
        query[1] - point[1]) * (query[1] - point[1]) + (query[2] - point[2]) * (query[2] - point[2])
            + (query[3] - point[3]) * (query[3] - point[3]) + (query[4] - point[4]) * (query[4]
            - point[4]) + (query[5] - point[5]) * (query[5] - point[5]) + (query[6] - point[6]) * (
        query[6] - point[6]) + (query[7] - point[7]) * (query[7] - point[7]) + (query[8] - point[8])
            * (query[8] - point[8]) + (query[9] - point[9]) * (query[9] - point[9]) + (query[10]
            - point[10]) * (query[10] - point[10]) + (query[11] - point[11]) * (query[11]
            - point[11]) + (query[12] - point[12]) * (query[12] - point[12]) + (query[13]
            - point[13]) * (query[13] - point[13]),
{
    reveal_with_fuel(IvfIndex::box_distance, 15);
    assert forall|dim: int| 0 <= dim < 14 implies #[trigger] outside(
        query[dim],
        index.bbox_min@[14 * cluster + dim],
        index.bbox_max@[14 * cluster + dim],
    ) == (query[dim] - point[dim]) * (query[dim] - point[dim]) by {
        if query[dim] == point[dim] {
            assert((query[dim] - point[dim]) * (query[dim] - point[dim]) == 0) by (nonlinear_arith)
                requires
                    query[dim] == point[dim],
            ;
        }
    }
}

/// The sum of a box's bound is broken off with the first dimension in which it exceeds the limit,
/// and with no other but the last.
pub proof fn law_box_bounds_stop_once_they_exceed(
    index: &IvfIndex,
    query: Seq<i16>,
    cluster: int,
    stop_after: u64,
    from: nat,
)
    requires
        from < 14,
    ensures
        ({
            let stop = index.box_stop(query, cluster, stop_after, from);
            &&& from <= stop <= 14 && 1 <= stop
            &&& stop < 14 ==> index.box_distance(query, cluster, stop) > stop_after
            &&& forall|dims: nat|
                from <= dims < stop && dims > 0 ==> #[trigger] index.box_distance(
                    query,
                    cluster,
                    dims,
                ) <= stop_after
        }),
    decreases 14 - from,
{
    if !(from > 0 && index.box_distance(query, cluster, from) > stop_after) {
        if from + 1 < 14 {
            law_box_bounds_stop_once_they_exceed(index, query, cluster, stop_after, from + 1);
        }
    }
}

} // verus!
