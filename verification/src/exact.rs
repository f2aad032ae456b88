//! What a search finds, against all the rows of the index.

use crate::config::IvfConfig;
use crate::index::IvfIndex;
use crate::probe::{lemma_probes_in_range, probes};
use crate::scan::lemma_outside_is_nearest;
use crate::search::Query;
use crate::single::Single;
use crate::top5::{
    is_nearest, labelled, law_offering_all_keeps_the_nearest, law_the_nearest_are_unique,
    lemma_offered_all_len, lemma_offered_all_rejected, lemma_vacant_is_nearest,
    lemma_worst_exists, offered_all, vacancy, vacant, worst_of, Candidate,
};
use vstd::multiset::Multiset;
use vstd::prelude::*;

verus! {

impl IvfIndex {
    /// The blocks of every cluster are there.
    pub open spec fn blocks_fit(&self) -> bool {
        forall|c: int| 0 <= c < self.clusters ==> #[trigger] self.cluster_fits(c)
    }

    /// Every row lies in the box of each cluster that holds it.
    pub open spec fn boxes_enclose(&self) -> bool {
        forall|c: int, block: int, lane: int, dim: int|
            #![trigger self.box_encloses(c, block, lane, dim)]
            0 <= c < self.clusters && self.offsets@[c] <= block < self.offsets@[c + 1] && 0 <= lane
                < 8 && 0 <= dim < 14 && self.orig_ids@[8 * block + lane] != u32::MAX
                ==> self.box_encloses(c, block, lane, dim)
    }

    /// A row lies in a cluster's box as far as one dimension goes.
    pub open spec fn box_encloses(&self, cluster: int, block: int, lane: int, dim: int) -> bool {
        self.bbox_min@[14 * cluster + dim] <= self.coordinate(block, lane, dim)
            <= self.bbox_max@[14 * cluster + dim]
    }

    /// No two rows have the same id.
    pub open spec fn ids_are_unique(&self) -> bool {
        forall|i: int, j: int|
            #![trigger self.orig_ids@[i], self.orig_ids@[j]]
            0 <= i < self.orig_ids@.len() && 0 <= j < self.orig_ids@.len() && self.orig_ids@[i]
                == self.orig_ids@[j] && self.orig_ids@[i] != u32::MAX ==> i == j
    }

    /// The rows of the first `count` clusters.
    pub open spec fn rows(&self, query: Seq<i16>, count: nat) -> Multiset<Candidate>
        decreases count,
    {
        if count == 0 {
            Multiset::empty()
        } else {
            self.rows(query, (count - 1) as nat).add(
                self.cluster_candidates(query, count - 1).to_multiset(),
            )
        }
    }

    /// The rows of the first `count` of the clusters listed; of one listed twice, twice.
    pub open spec fn listed_rows(
        &self,
        query: Seq<i16>,
        listed: Seq<u32>,
        count: nat,
    ) -> Multiset<Candidate>
        decreases count,
    {
        if count == 0 {
            Multiset::empty()
        } else {
            self.listed_rows(query, listed, (count - 1) as nat).add(
                self.cluster_candidates(query, listed[count - 1] as int).to_multiset(),
            )
        }
    }

    /// The rows of those among the first `count` clusters that are not listed.
    spec fn other_rows(&self, query: Seq<i16>, listed: Seq<u32>, count: nat) -> Multiset<Candidate>
        decreases count,
    {
        if count == 0 {
            Multiset::empty()
        } else {
            let before = self.other_rows(query, listed, (count - 1) as nat);
            if listed.contains((count - 1) as u32) {
                before
            } else {
                before.add(self.cluster_candidates(query, count - 1).to_multiset())
            }
        }
    }

    /// The candidate stands for the row in a lane.
    pub open spec fn stands_for(
        &self,
        query: Seq<i16>,
        candidate: Candidate,
        block: int,
        lane: int,
    ) -> bool {
        &&& 0 <= block < self.block_count()
        &&& 0 <= lane < 8
        &&& self.orig_ids@[8 * block + lane] != u32::MAX
        &&& candidate == self.candidate(query, block, lane)
    }

    /// A row is at least as far away as the box around it.
    proof fn lemma_box_is_nearer(
        &self,
        query: Seq<i16>,
        cluster: int,
        block: int,
        lane: int,
        dims: nat,
    )
        requires
            dims <= 14,
            forall|dim: int|
                #![trigger self.box_encloses(cluster, block, lane, dim)]
                0 <= dim < dims ==> self.box_encloses(cluster, block, lane, dim),
        ensures
            self.box_distance(query, cluster, dims) <= self.distance(query, block, lane, dims),
        decreases dims,
    {
        if dims > 0 {
            let dim = dims - 1;
            self.lemma_box_is_nearer(query, cluster, block, lane, dim as nat);
            assert(self.box_encloses(cluster, block, lane, dim));
            lemma_outside_is_nearest(
                query[dim],
                self.bbox_min@[14 * cluster + dim],
                self.bbox_max@[14 * cluster + dim],
                self.coordinate(block, lane, dim),
            );
        }
    }

    /// The candidate stands for a row of the blocks from `start` up to, but without, `end`.
    pub open spec fn stands_among(
        &self,
        query: Seq<i16>,
        candidate: Candidate,
        start: int,
        end: int,
    ) -> bool {
        exists|block: int, lane: int|
            start <= block < end && #[trigger] self.stands_for(query, candidate, block, lane)
    }

    /// The candidates of a block's lanes stand for rows there.
    proof fn lemma_lane_candidates(&self, query: Seq<i16>, block: int, lanes: nat)
        requires
            0 <= block < self.block_count(),
            lanes <= 8,
        ensures
            forall|i: int|
                0 <= i < self.lane_candidates(query, block, lanes).len() ==> self.stands_among(
                    query,
                    #[trigger] self.lane_candidates(query, block, lanes)[i],
                    block,
                    block + 1,
                ),
        decreases lanes,
    {
        if lanes > 0 {
            let before = self.lane_candidates(query, block, (lanes - 1) as nat);
            let now = self.lane_candidates(query, block, lanes);
            self.lemma_lane_candidates(query, block, (lanes - 1) as nat);
            assert forall|i: int| 0 <= i < now.len() implies self.stands_among(
                query,
                #[trigger] now[i],
                block,
                block + 1,
            ) by {
                if i < before.len() {
                    assert(now[i] == before[i]);
                } else {
                    assert(self.stands_for(query, now[i], block, lanes - 1));
                }
            }
        }
    }

    /// The candidates of a run of blocks stand for rows there.
    proof fn lemma_block_candidates(&self, query: Seq<i16>, start: int, end: int)
        requires
            0 <= start,
            start < end ==> end <= self.block_count(),
        ensures
            forall|i: int|
                0 <= i < self.block_candidates(query, start, end).len() ==> self.stands_among(
                    query,
                    #[trigger] self.block_candidates(query, start, end)[i],
                    start,
                    end,
                ),
        decreases end - start,
    {
        if start < end {
            let before = self.block_candidates(query, start, end - 1);
            let last = self.lane_candidates(query, end - 1, 8);
            let now = self.block_candidates(query, start, end);
            self.lemma_block_candidates(query, start, end - 1);
            self.lemma_lane_candidates(query, end - 1, 8);
            assert forall|i: int| 0 <= i < now.len() implies self.stands_among(
                query,
                #[trigger] now[i],
                start,
                end,
            ) by {
                if i < before.len() {
                    assert(now[i] == before[i]);
                    assert(self.stands_among(query, before[i], start, end - 1));
                } else {
                    assert(now[i] == last[i - before.len()]);
                    assert(self.stands_among(query, last[i - before.len()], end - 1, end));
                }
            }
        }
    }

    /// Where a cluster's box is farther away than the worst entry, none of its rows gets in.
    proof fn lemma_far_cluster_changes_nothing(
        &self,
        query: Seq<i16>,
        entries: Seq<Candidate>,
        cluster: int,
    )
        requires
            self.boxes_enclose(),
            0 <= cluster < self.clusters,
            self.cluster_fits(cluster),
            entries.len() > 0,
            self.box_distance(query, cluster, 14) > entries[worst_of(entries)].distance,
        ensures
            offered_all(entries, self.cluster_candidates(query, cluster)) == entries,
    {
        let rows = self.cluster_candidates(query, cluster);
        let start = self.offsets@[cluster] as int;
        let end = self.offsets@[cluster + 1] as int;
        self.lemma_block_candidates(query, start, end);
        assert forall|i: int| 0 <= i < rows.len() implies !(#[trigger] rows[i]).precedes(
            entries[worst_of(entries)],
        ) by {
            assert(self.stands_among(query, rows[i], start, end));
            let (block, lane) = choose|block: int, lane: int|
                start <= block < end && #[trigger] self.stands_for(query, rows[i], block, lane);
            assert forall|dim: int|
                #![trigger self.box_encloses(cluster, block, lane, dim)]
                0 <= dim < 14 implies self.box_encloses(cluster, block, lane, dim) by {}
            self.lemma_box_is_nearer(query, cluster, block, lane, 14);
            self.lemma_distance_grows(query, block, lane, 14, 14);
        }
        lemma_offered_all_rejected(entries, rows);
    }

    /// The first look finds the nearest rows of the clusters listed.
    proof fn lemma_after_probes(&self, query: Seq<i16>, listed: Seq<u32>, count: nat)
        ensures
            self.after_probes(query, listed, count).len() == 5,
            is_nearest(
                self.after_probes(query, listed, count),
                vacant().to_multiset().add(self.listed_rows(query, listed, count)),
            ),
        decreases count,
    {
        let vacancies = vacant().to_multiset();
        if count == 0 {
            lemma_vacant_is_nearest();
            assert(vacancies.add(self.listed_rows(query, listed, count)) =~= vacancies);
        } else {
            self.lemma_after_probes(query, listed, (count - 1) as nat);
            let entries = self.after_probes(query, listed, (count - 1) as nat);
            let before = self.listed_rows(query, listed, (count - 1) as nat);
            let rows = self.cluster_candidates(query, listed[count - 1] as int);
            law_offering_all_keeps_the_nearest(entries, vacancies.add(before), rows);
            lemma_offered_all_len(entries, rows);
            assert(vacancies.add(before).add(rows.to_multiset()) =~= vacancies.add(
                self.listed_rows(query, listed, count),
            ));
        }
    }

    /// A search with repair finds the nearest rows of the clusters listed and of the others up to
    /// `count`.
    proof fn lemma_after_repair(&self, query: Seq<i16>, listed: Seq<u32>, count: nat)
        requires
            self.boxes_enclose(),
            self.blocks_fit(),
            count <= self.clusters,
        ensures
            self.after_repair(query, listed, count).len() == 5,
            is_nearest(
                self.after_repair(query, listed, count),
                vacant().to_multiset().add(self.listed_rows(query, listed, listed.len())).add(
                    self.other_rows(query, listed, count),
                ),
            ),
        decreases count,
    {
        broadcast use vstd::seq_lib::group_to_multiset_ensures;

        let searched = vacant().to_multiset().add(self.listed_rows(query, listed, listed.len()));
        if count == 0 {
            self.lemma_after_probes(query, listed, listed.len());
            assert(searched.add(self.other_rows(query, listed, count)) =~= searched);
        } else {
            let cluster = count - 1;
            self.lemma_after_repair(query, listed, cluster as nat);
            let entries = self.after_repair(query, listed, cluster as nat);
            let before = self.other_rows(query, listed, cluster as nat);
            let rows = self.cluster_candidates(query, cluster);
            assert(self.cluster_fits(cluster));
            if !listed.contains(cluster as u32) {
                law_offering_all_keeps_the_nearest(entries, searched.add(before), rows);
                lemma_offered_all_len(entries, rows);
                assert(searched.add(before).add(rows.to_multiset()) =~= searched.add(
                    self.other_rows(query, listed, count),
                ));
                if self.offsets@[cluster] == self.offsets@[cluster + 1] {
                    assert(rows.len() == 0);
                    assert(offered_all(entries, rows) == entries);
                } else if !self.is_reached(query, listed, entries, cluster) {
                    self.lemma_far_cluster_changes_nothing(query, entries, cluster);
                }
            }
        }
    }

    /// Not listing one more cluster takes its rows out of the others.
    proof fn lemma_listing_one_more(
        &self,
        query: Seq<i16>,
        listed: Seq<u32>,
        cluster: u32,
        count: nat,
    )
        requires
            !listed.contains(cluster),
            count <= u32::MAX,
        ensures
            self.other_rows(query, listed, count) == if cluster < count {
                self.other_rows(query, listed.push(cluster), count).add(
                    self.cluster_candidates(query, cluster as int).to_multiset(),
                )
            } else {
                self.other_rows(query, listed.push(cluster), count)
            },
        decreases count,
    {
        broadcast use vstd::seq_lib::group_seq_properties;

        if count > 0 {
            self.lemma_listing_one_more(query, listed, cluster, (count - 1) as nat);
            let before = self.other_rows(query, listed, (count - 1) as nat);
            let fewer = self.other_rows(query, listed.push(cluster), (count - 1) as nat);
            let rows = self.cluster_candidates(query, count - 1).to_multiset();
            let taken = self.cluster_candidates(query, cluster as int).to_multiset();
            assert(listed.push(cluster).contains((count - 1) as u32) <==> (listed.contains(
                (count - 1) as u32,
            ) || cluster == count - 1)) by {
                if listed.contains((count - 1) as u32) {
                    let i = choose|i: int|
                        0 <= i < listed.len() && listed[i] == (count - 1) as u32;
                    assert(listed.push(cluster)[i] == (count - 1) as u32);
                }
                if cluster == count - 1 {
                    assert(listed.push(cluster)[listed.len() as int] == cluster);
                }
            }
            assert(self.other_rows(query, listed, count) =~= if cluster < count {
                self.other_rows(query, listed.push(cluster), count).add(taken)
            } else {
                self.other_rows(query, listed.push(cluster), count)
            });
        }
    }

    /// The rows of different clusters listed and of those not listed are all the rows.
    proof fn lemma_listed_and_others(
        &self,
        query: Seq<i16>,
        listed: Seq<u32>,
        count: nat,
        total: nat,
    )
        requires
            listed.no_duplicates(),
            forall|i: int| 0 <= i < listed.len() ==> #[trigger] listed[i] < total,
            count <= listed.len(),
            total <= u32::MAX,
        ensures
            self.listed_rows(query, listed, count).add(
                self.other_rows(query, listed.take(count as int), total),
            ) == self.rows(query, total),
        decreases count,
    {
        if count == 0 {
            self.lemma_nothing_listed(query, listed.take(0), total);
            assert(self.listed_rows(query, listed, 0).add(self.rows(query, total)) =~= self.rows(
                query,
                total,
            ));
        } else {
            let fewer = listed.take(count - 1);
            let cluster = listed[count - 1];
            self.lemma_listed_and_others(query, listed, (count - 1) as nat, total);
            assert(!fewer.contains(cluster));
            self.lemma_listing_one_more(query, fewer, cluster, total);
            assert(fewer.push(cluster) =~= listed.take(count as int));
            assert(self.listed_rows(query, listed, count).add(
                self.other_rows(query, listed.take(count as int), total),
            ) =~= self.listed_rows(query, listed, (count - 1) as nat).add(
                self.other_rows(query, fewer, total),
            ));
        }
    }

    /// With nothing listed the others are all the rows.
    proof fn lemma_nothing_listed(&self, query: Seq<i16>, listed: Seq<u32>, count: nat)
        requires
            listed.len() == 0,
        ensures
            self.other_rows(query, listed, count) == self.rows(query, count),
        decreases count,
    {
        if count > 0 {
            self.lemma_nothing_listed(query, listed, (count - 1) as nat);
        }
    }
}

impl IvfIndex {
    /// Whether the blocks of every cluster are there.
    pub fn check_blocks(&self) -> (answer: bool)
        requires
            self.wf(),
        ensures
            answer == self.blocks_fit(),
    {
        let count: usize = self.labels.len() / 8;
        let mut cluster: u32 = 0;
        while cluster < self.clusters
            invariant
                self.wf(),
                count == self.block_count(),
                cluster <= self.clusters,
                forall|c: int| 0 <= c < cluster ==> #[trigger] self.cluster_fits(c),
            decreases self.clusters - cluster,
        {
            let start: u32 = self.offsets[cluster as usize];
            let end: u32 = self.offsets[cluster as usize + 1];
            if start < end && end as usize > count {
                assert(!self.cluster_fits(cluster as int));
                return false;
            }
            cluster = cluster + 1;
        }
        true
    }
}

/// A search with repair is exact: where every row lies in its cluster's box and no cluster is
/// probed twice, it finds the five nearest of all the rows, however few clusters it starts from.
/// A single cluster is never probed twice, nor are as many as there are or fewer where every
/// centroid's distance is below infinity.
pub proof fn law_repaired_search_is_exact(
    index: &IvfIndex,
    query: Seq<i16>,
    distances: Seq<Single>,
    nprobe: nat,
)
    requires
        index.wf(),
        index.blocks_fit(),
        index.boxes_enclose(),
        index.clusters > 0,
        distances.len() == index.clusters,
        nprobe > 0,
        probes(distances, nprobe).no_duplicates(),
    ensures
        index.found(query, distances, nprobe, true).len() == 5,
        is_nearest(
            index.found(query, distances, nprobe, true),
            vacant().to_multiset().add(index.rows(query, index.clusters as nat)),
        ),
{
    let listed = probes(distances, nprobe);
    let total = index.clusters as nat;
    lemma_probes_in_range(distances, nprobe);
    index.lemma_after_repair(query, listed, total);
    index.lemma_listed_and_others(query, listed, listed.len(), total);
    assert(listed.take(listed.len() as int) =~= listed);
    assert(vacant().to_multiset().add(index.listed_rows(query, listed, listed.len())).add(
        index.other_rows(query, listed, total),
    ) =~= vacant().to_multiset().add(index.rows(query, total)));
}

impl IvfIndex {
    /// All the rows of the first `count` clusters stand for rows of the index.
    proof fn lemma_rows_are_rows(&self, query: Seq<i16>, count: nat, candidate: Candidate)
        requires
            self.blocks_fit(),
            count <= self.clusters,
            self.rows(query, count).contains(candidate),
        ensures
            self.stands_among(query, candidate, 0, self.block_count()),
        decreases count,
    {
        broadcast use vstd::seq_lib::group_to_multiset_ensures;

        if count > 0 {
            let rows = self.cluster_candidates(query, count - 1);
            let start = self.offsets@[count - 1] as int;
            let end = self.offsets@[count as int] as int;
            assert(self.cluster_fits(count - 1));
            if self.rows(query, (count - 1) as nat).contains(candidate) {
                self.lemma_rows_are_rows(query, (count - 1) as nat, candidate);
            } else {
                assert(rows.to_multiset().contains(candidate));
                let i = choose|i: int| 0 <= i < rows.len() && rows[i] == candidate;
                self.lemma_block_candidates(query, start, end);
                assert(self.stands_among(query, rows[i], start, end));
            }
        }
    }

    /// With unique ids no two different candidates of the whole pool tie.
    proof fn lemma_no_ties(&self, query: Seq<i16>)
        requires
            self.wf(),
            self.blocks_fit(),
            self.ids_are_unique(),
        ensures
            ({
                let pool = vacant().to_multiset().add(self.rows(query, self.clusters as nat));
                forall|a: Candidate, b: Candidate|
                    #![trigger pool.contains(a), pool.contains(b)]
                    pool.contains(a) && pool.contains(b) && a.distance == b.distance && a.id == b.id
                        ==> a == b
            }),
    {
        broadcast use vstd::seq_lib::group_to_multiset_ensures;

        let total = self.clusters as nat;
        let pool = vacant().to_multiset().add(self.rows(query, total));
        assert forall|a: Candidate, b: Candidate|
            #![trigger pool.contains(a), pool.contains(b)]
            pool.contains(a) && pool.contains(b) && a.distance == b.distance && a.id
                == b.id implies a == b by {
            if self.rows(query, total).contains(a) {
                self.lemma_rows_are_rows(query, total, a);
            } else {
                assert(vacant().contains(a));
                assert(a == vacancy());
            }
            if self.rows(query, total).contains(b) {
                self.lemma_rows_are_rows(query, total, b);
            } else {
                assert(vacant().contains(b));
                assert(b == vacancy());
            }
        }
    }
}

/// Where ids are unique as well, what a search with repair counts depends on the rows alone: it
/// is the count among any five nearest of them, whatever clusters the search starts from.
pub proof fn law_repaired_count_is_exact(
    index: &IvfIndex,
    query: Seq<i16>,
    distances: Seq<Single>,
    nprobe: nat,
    nearest: Seq<Candidate>,
)
    requires
        index.wf(),
        index.blocks_fit(),
        index.boxes_enclose(),
        index.ids_are_unique(),
        index.is_searchable(),
        distances.len() == index.clusters,
        nprobe > 0,
        probes(distances, nprobe).no_duplicates(),
        nearest.len() == 5,
        is_nearest(
            nearest,
            vacant().to_multiset().add(index.rows(query, index.clusters as nat)),
        ),
    ensures
        index.frauds_once(query, distances, nprobe, true) == labelled(nearest),
{
    law_repaired_search_is_exact(index, query, distances, nprobe);
    index.lemma_no_ties(query);
    law_the_nearest_are_unique(
        index.found(query, distances, nprobe, true),
        nearest,
        vacant().to_multiset().add(index.rows(query, index.clusters as nat)),
    );
}

impl IvfIndex {
    /// How many clusters the look covers whose count is reported.
    pub open spec fn reported_nprobe(&self, query: &Query, config: &IvfConfig) -> nat {
        if self.looks_again(query, config) {
            self.full_nprobe(config)
        } else {
            self.fast_nprobe(config)
        }
    }

    /// The count that is reported comes from a search with repair that probes no cluster twice.
    pub open spec fn reports_exactly(&self, query: &Query, config: &IvfConfig) -> bool {
        &&& config.bbox_repair && (!config.boundary_full || self.looks_again(query, config))
        &&& probes(query.distances@, self.reported_nprobe(query, config)).no_duplicates()
    }
}

/// Where ids are unique, the boxes sound and repair is on, the settings for the number of
/// clusters make no difference to the count that is reported, as long as the first look
/// repairs or a second one is taken.
pub proof fn law_settings_do_not_change_an_exact_count(
    index: &IvfIndex,
    query: &Query,
    one: &IvfConfig,
    other: &IvfConfig,
)
    requires
        index.wf(),
        index.blocks_fit(),
        index.boxes_enclose(),
        index.ids_are_unique(),
        query.distances@.len() == index.clusters,
        index.reports_exactly(query, one),
        index.reports_exactly(query, other),
    ensures
        index.frauds(query, one) == index.frauds(query, other),
{
    if index.is_searchable() {
        let nprobe = index.reported_nprobe(query, other);
        let nearest = index.found(query.quantized@, query.distances@, nprobe, true);
        law_repaired_search_is_exact(index, query.quantized@, query.distances@, nprobe);
        law_repaired_count_is_exact(
            index,
            query.quantized@,
            query.distances@,
            index.reported_nprobe(query, one),
            nearest,
        );
    }
}

impl IvfIndex {
    /// Where all of the first `count` clusters are listed, there are no rows of others.
    proof fn lemma_all_listed(&self, query: Seq<i16>, listed: Seq<u32>, count: nat)
        requires
            forall|c: int| 0 <= c < count ==> #[trigger] listed.contains(c as u32),
        ensures
            self.other_rows(query, listed, count) == Multiset::<Candidate>::empty(),
        decreases count,
    {
        if count > 0 {
            assert(listed.contains((count - 1) as u32));
            self.lemma_all_listed(query, listed, (count - 1) as nat);
        }
    }

    /// The rows of two runs of blocks, one behind the other, are those of the whole run.
    proof fn lemma_runs_join(&self, query: Seq<i16>, start: int, middle: int, end: int)
        requires
            start <= middle <= end,
        ensures
            self.block_candidates(query, start, middle) + self.block_candidates(query, middle, end)
                == self.block_candidates(query, start, end),
        decreases end - middle,
    {
        if middle < end {
            self.lemma_runs_join(query, start, middle, end - 1);
        }
        assert(self.block_candidates(query, start, middle) + self.block_candidates(
            query,
            middle,
            end,
        ) =~= self.block_candidates(query, start, end));
    }

    /// The clusters' blocks follow each other without a gap, from the first block to the last.
    pub open spec fn clusters_span_blocks(&self) -> bool {
        &&& self.offsets@[0] == 0
        &&& self.offsets@[self.clusters as int] == self.block_count()
        &&& forall|c: int, d: int|
            0 <= c <= d <= self.clusters ==> #[trigger] self.offsets@[c]
                <= #[trigger] self.offsets@[d]
    }

    /// The rows of the first clusters are those of the blocks before the next cluster's.
    proof fn lemma_rows_fill_blocks(&self, query: Seq<i16>, count: nat)
        requires
            self.clusters_span_blocks(),
            count <= self.clusters,
        ensures
            self.rows(query, count) == self.block_candidates(
                query,
                0,
                self.offsets@[count as int] as int,
            ).to_multiset(),
        decreases count,
    {
        broadcast use vstd::seq_lib::group_to_multiset_ensures;

        if count == 0 {
            assert(self.block_candidates(query, 0, 0).to_multiset() =~= Multiset::empty());
        } else {
            let start = self.offsets@[count - 1] as int;
            let end = self.offsets@[count as int] as int;
            let before = self.block_candidates(query, 0, start);
            let last = self.block_candidates(query, start, end);
            self.lemma_rows_fill_blocks(query, (count - 1) as nat);
            self.lemma_runs_join(query, 0, start, end);
            vstd::seq_lib::lemma_multiset_commutative(before, last);
        }
    }
}

/// A list of as many different numbers as there are below a limit, all below it, holds each.
proof fn lemma_full_list(listed: Seq<u32>, number: int)
    requires
        listed.no_duplicates(),
        forall|i: int| 0 <= i < listed.len() ==> #[trigger] listed[i] < listed.len(),
        0 <= number < listed.len(),
    ensures
        listed.contains(number as u32),
{
    let numbers = listed.map_values(|n: u32| n as int);
    let all = vstd::set_lib::set_int_range(0, listed.len() as int);
    assert(numbers.no_duplicates());
    numbers.unique_seq_to_set();
    vstd::set_lib::lemma_int_range(0, listed.len() as int);
    assert(numbers.to_set().subset_of(all));
    vstd::set_lib::lemma_len_subset(numbers.to_set(), all);
    vstd::set_lib::lemma_subset_equality(numbers.to_set(), all);
    assert(numbers.to_set().contains(number));
    let i = choose|i: int| 0 <= i < numbers.len() && numbers[i] == number;
    assert(listed[i] == number);
}

/// Where the clusters' blocks follow each other without a gap, the rows of all the clusters are
/// the rows of all the blocks, each once.
pub proof fn law_clusters_hold_every_row_once(index: &IvfIndex, query: Seq<i16>)
    requires
        index.wf(),
        index.clusters_span_blocks(),
    ensures
        index.rows(query, index.clusters as nat) == index.block_candidates(
            query,
            0,
            index.block_count(),
        ).to_multiset(),
{
    index.lemma_rows_fill_blocks(query, index.clusters as nat);
}

/// A search without repair finds the five nearest rows of the clusters that it probes.
pub proof fn law_search_finds_the_nearest_of_the_probed(
    index: &IvfIndex,
    query: Seq<i16>,
    distances: Seq<Single>,
    nprobe: nat,
)
    ensures
        index.found(query, distances, nprobe, false).len() == 5,
        is_nearest(
            index.found(query, distances, nprobe, false),
            vacant().to_multiset().add(
                index.listed_rows(query, probes(distances, nprobe), nprobe),
            ),
        ),
{
    index.lemma_after_probes(query, probes(distances, nprobe), nprobe);
}

/// A search without repair that probes every cluster, and none twice, looks at all the rows: it
/// finds the five nearest of them.
pub proof fn law_search_of_every_cluster_is_exact(
    index: &IvfIndex,
    query: Seq<i16>,
    distances: Seq<Single>,
)
    requires
        index.clusters > 0,
        distances.len() == index.clusters,
        probes(distances, index.clusters as nat).no_duplicates(),
    ensures
        index.listed_rows(
            query,
            probes(distances, index.clusters as nat),
            index.clusters as nat,
        ) == index.rows(query, index.clusters as nat),
        is_nearest(
            index.found(query, distances, index.clusters as nat, false),
            vacant().to_multiset().add(index.rows(query, index.clusters as nat)),
        ),
{
    let total = index.clusters as nat;
    let listed = probes(distances, total);
    lemma_probes_in_range(distances, total);
    assert forall|c: int| 0 <= c < total implies #[trigger] listed.contains(c as u32) by {
        lemma_full_list(listed, c);
    }
    index.lemma_all_listed(query, listed, total);
    index.lemma_listed_and_others(query, listed, total, total);
    assert(listed.take(total as int) =~= listed);
    let rows = index.listed_rows(query, listed, total);
    assert(rows.add(Multiset::empty()) =~= rows);
    law_search_finds_the_nearest_of_the_probed(index, query, distances, total);
}

/// Where ids are unique as well, a search of every cluster counts what a search with repair does:
/// the frauds among any five nearest of the rows.
pub proof fn law_count_of_every_cluster_is_exact(
    index: &IvfIndex,
    query: Seq<i16>,
    distances: Seq<Single>,
    nearest: Seq<Candidate>,
)
    requires
        index.wf(),
        index.blocks_fit(),
        index.ids_are_unique(),
        index.is_searchable(),
        distances.len() == index.clusters,
        probes(distances, index.clusters as nat).no_duplicates(),
        nearest.len() == 5,
        is_nearest(
            nearest,
            vacant().to_multiset().add(index.rows(query, index.clusters as nat)),
        ),
    ensures
        index.frauds_once(query, distances, index.clusters as nat, false) == labelled(nearest),
{
    let total = index.clusters as nat;
    law_search_finds_the_nearest_of_the_probed(index, query, distances, total);
    law_search_of_every_cluster_is_exact(index, query, distances);
    index.lemma_no_ties(query);
    law_the_nearest_are_unique(
        index.found(query, distances, total, false),
        nearest,
        vacant().to_multiset().add(index.rows(query, total)),
    );
}

/// An index whose clusters all have their blocks can be searched for any query under any
/// settings.
pub proof fn law_fitting_index_can_be_searched(index: &IvfIndex, query: &Query, config: &IvfConfig)
    requires
        index.wf(),
        index.blocks_fit(),
        query.distances@.len() == index.clusters,
    ensures
        index.frauds_fit(query, config),
{
    if index.is_searchable() {
        lemma_probes_in_range(query.distances@, index.fast_nprobe(config));
        lemma_probes_in_range(query.distances@, index.full_nprobe(config));
    }
}

/// A cluster's blocks are there where it has none, or ends no later than the last of the rows.
pub proof fn law_clusters_fit_up_to_the_last_row(index: &IvfIndex, cluster: int)
    requires
        index.wf(),
    ensures
        index.offsets@[cluster] >= index.offsets@[cluster + 1] ==> index.cluster_fits(cluster),
        index.offsets@[cluster] < index.offsets@[cluster + 1] ==> (index.cluster_fits(cluster)
            <==> 8 * index.offsets@[cluster + 1] <= index.labels@.len()),
        index.labels@.len() == 8 * index.block_count(),
{
}

/// A cluster's rows are those of the blocks from its offset up to the next one's.
pub proof fn law_clusters_lie_between_offsets(index: &IvfIndex, query: Seq<i16>, cluster: int)
    ensures
        index.cluster_candidates(query, cluster) == index.block_candidates(
            query,
            index.offsets@[cluster] as int,
            index.offsets@[cluster + 1] as int,
        ),
{
}

impl IvfIndex {
    /// There are always five entries.
    proof fn lemma_after_repair_len(&self, query: Seq<i16>, listed: Seq<u32>, count: nat)
        ensures
            self.after_repair(query, listed, count).len() == 5,
        decreases count,
    {
        if count == 0 {
            self.lemma_after_probes(query, listed, listed.len());
        } else {
            self.lemma_after_repair_len(query, listed, (count - 1) as nat);
            lemma_offered_all_len(
                self.after_repair(query, listed, (count - 1) as nat),
                self.cluster_candidates(query, count - 1),
            );
        }
    }
}

/// Repair goes through all the clusters in their order, whatever the boxes are: one that was
/// probed, that has no blocks or whose box is farther away than the farthest of the five entries is
/// passed over, and every other one is looked into. It starts from what the probes found.
pub proof fn law_repair_looks_into_every_cluster_in_reach(
    index: &IvfIndex,
    query: Seq<i16>,
    listed: Seq<u32>,
    cluster: nat,
    farthest: u64,
)
    requires
        ({
            let entries = index.after_repair(query, listed, cluster);
            &&& forall|i: int| 0 <= i < 5 ==> (#[trigger] entries[i]).distance <= farthest
            &&& exists|i: int| 0 <= i < 5 && (#[trigger] entries[i]).distance == farthest
        }),
    ensures
        ({
            let entries = index.after_repair(query, listed, cluster);
            let start = index.offsets@[cluster as int];
            let end = index.offsets@[cluster as int + 1];
            let passed_over = listed.contains(cluster as u32) || start == end
                || index.box_distance(query, cluster as int, 14) > farthest;
            index.after_repair(query, listed, cluster + 1) == if passed_over {
                entries
            } else {
                offered_all(entries, index.cluster_candidates(query, cluster as int))
            }
        }),
        index.after_repair(query, listed, 0) == index.after_probes(query, listed, listed.len()),
{
    let entries = index.after_repair(query, listed, cluster);
    index.lemma_after_repair_len(query, listed, cluster);
    lemma_worst_exists(entries);
    let worst = worst_of(entries);
    let i = choose|i: int| 0 <= i < 5 && (#[trigger] entries[i]).distance == farthest;
    assert(!entries[worst].precedes(entries[i]));
    assert(entries[worst].distance <= farthest);
    assert(entries[worst].distance == farthest);
}

/// What a search finds: with repair, what is left after all the clusters; without, what the probes
/// found.
pub proof fn law_searches_end_with_the_last_cluster(
    index: &IvfIndex,
    query: Seq<i16>,
    distances: Seq<Single>,
    nprobe: nat,
)
    ensures
        index.found(query, distances, nprobe, true) == index.after_repair(
            query,
            probes(distances, nprobe),
            index.clusters as nat,
        ),
        index.found(query, distances, nprobe, false) == index.after_probes(
            query,
            probes(distances, nprobe),
            nprobe,
        ),
{
}

} // verus!
