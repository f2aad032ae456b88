//! The search for the five nearest rows, and the count of frauds among them.

use crate::config::IvfConfig;
use crate::extreme::{is_doubtful, should_repair_extreme};
use crate::index::{IvfIndex, BLOCK_LANES, DIMENSIONS};
use crate::probe::{choose_probes, lemma_probes_in_range, probes};
use crate::single::Single;
use crate::top5::{
    labelled, lemma_worst_is_unique, offered_all, vacant, worst_of, Candidate, Top5,
};
use vstd::math::{max, min};
use vstd::prelude::*;

verus! {

/// A transaction as the search needs it.
pub struct Query {
    /// The transaction's vector.
    pub exact: [Single; DIMENSIONS],
    /// The vector, quantized as the rows of the index are.
    pub quantized: [i16; DIMENSIONS],
    /// The squared distance from the vector to each cluster's centroid.
    pub distances: Vec<Single>,
}

impl IvfIndex {
    /// The rows of a cluster.
    pub open spec fn cluster_candidates(&self, query: Seq<i16>, cluster: int) -> Seq<Candidate> {
        self.block_candidates(
            query,
            self.offsets@[cluster] as int,
            self.offsets@[cluster + 1] as int,
        )
    }

    /// A cluster's blocks are there, or it has none.
    pub open spec fn cluster_fits(&self, cluster: int) -> bool {
        self.offsets@[cluster] < self.offsets@[cluster + 1] ==> self.offsets@[cluster + 1]
            <= self.block_count()
    }

    /// The five best rows of the first `count` of the clusters listed.
    pub open spec fn after_probes(&self, query: Seq<i16>, listed: Seq<u32>, count: nat) -> Seq<
        Candidate,
    >
        decreases count,
    {
        if count == 0 {
            vacant()
        } else {
            offered_all(
                self.after_probes(query, listed, (count - 1) as nat),
                self.cluster_candidates(query, listed[count - 1] as int),
            )
        }
    }

    /// Whether a cluster is to be searched although it is not listed: it has blocks, and its box
    /// is no farther away than the worst of the entries.
    pub open spec fn is_reached(
        &self,
        query: Seq<i16>,
        listed: Seq<u32>,
        entries: Seq<Candidate>,
        cluster: int,
    ) -> bool {
        &&& self.offsets@[cluster] != self.offsets@[cluster + 1]
        &&& !listed.contains(cluster as u32)
        &&& self.box_distance(query, cluster, 14) <= entries[worst_of(entries)].distance
    }

    /// The five best rows after the first `count` clusters were searched as far as they are
    /// reached.
    pub open spec fn after_repair(&self, query: Seq<i16>, listed: Seq<u32>, count: nat) -> Seq<
        Candidate,
    >
        decreases count,
    {
        if count == 0 {
            self.after_probes(query, listed, listed.len())
        } else {
            let entries = self.after_repair(query, listed, (count - 1) as nat);
            if self.is_reached(query, listed, entries, count - 1) {
                offered_all(entries, self.cluster_candidates(query, count - 1))
            } else {
                entries
            }
        }
    }

    /// What a search finds.
    pub open spec fn found(
        &self,
        query: Seq<i16>,
        distances: Seq<Single>,
        nprobe: nat,
        repair: bool,
    ) -> Seq<Candidate> {
        let listed = probes(distances, nprobe);
        if repair {
            self.after_repair(query, listed, self.clusters as nat)
        } else {
            self.after_probes(query, listed, nprobe)
        }
    }

    /// The blocks of all the clusters that a search looks into are there.
    pub open spec fn search_fits(
        &self,
        query: Seq<i16>,
        distances: Seq<Single>,
        nprobe: nat,
        repair: bool,
    ) -> bool {
        let listed = probes(distances, nprobe);
        &&& forall|i: int| 0 <= i < nprobe ==> self.cluster_fits(#[trigger] listed[i] as int)
        &&& repair ==> forall|c: int|
            #![trigger self.cluster_fits(c)]
            0 <= c < self.clusters && self.is_reached(
                query,
                listed,
                self.after_repair(query, listed, c as nat),
                c,
            ) ==> self.cluster_fits(c)
    }

    /// Whether there is anything to search: five rows and a cluster.
    pub open spec fn is_searchable(&self) -> bool {
        self.n >= 5 && self.clusters > 0
    }

    /// The number of frauds that one search counts.
    pub open spec fn frauds_once(
        &self,
        query: Seq<i16>,
        distances: Seq<Single>,
        nprobe: nat,
        repair: bool,
    ) -> nat {
        if self.is_searchable() {
            labelled(self.found(query, distances, nprobe, repair))
        } else {
            0
        }
    }

    /// How many clusters the first look covers: at least one, and no more than there are.
    pub open spec fn fast_nprobe(&self, config: &IvfConfig) -> nat {
        let wanted = if config.fast_nprobe == 0 { 1 } else { config.fast_nprobe };
        if wanted < self.clusters {
            wanted as nat
        } else {
            self.clusters as nat
        }
    }

    /// How many clusters the second look covers: at least as many as the first, and no more than
    /// there are.
    pub open spec fn full_nprobe(&self, config: &IvfConfig) -> nat {
        let fast = self.fast_nprobe(config);
        let wanted = if config.full_nprobe < fast { fast } else { config.full_nprobe as nat };
        if wanted < self.clusters {
            wanted
        } else {
            self.clusters as nat
        }
    }

    /// The number of frauds that the first look counts.
    pub open spec fn first_look(&self, query: &Query, config: &IvfConfig) -> nat {
        self.frauds_once(
            query.quantized@,
            query.distances@,
            self.fast_nprobe(config),
            config.bbox_repair && !config.boundary_full,
        )
    }

    /// Whether a second look is taken: the first one's count is in the middle, or is doubtful.
    pub open spec fn looks_again(&self, query: &Query, config: &IvfConfig) -> bool {
        let frauds = self.first_look(query, config);
        config.boundary_full && (config.repair_min <= frauds <= config.repair_max || is_doubtful(
            frauds as u8,
            query.exact@,
        ))
    }

    /// The number of frauds that is reported.
    pub open spec fn frauds(&self, query: &Query, config: &IvfConfig) -> nat {
        if self.looks_again(query, config) {
            self.frauds_once(
                query.quantized@,
                query.distances@,
                self.full_nprobe(config),
                config.bbox_repair,
            )
        } else {
            self.first_look(query, config)
        }
    }

    /// The blocks of all the clusters that are looked into are there.
    pub open spec fn frauds_fit(&self, query: &Query, config: &IvfConfig) -> bool {
        self.is_searchable() ==> {
            &&& self.search_fits(
                query.quantized@,
                query.distances@,
                self.fast_nprobe(config),
                config.bbox_repair && !config.boundary_full,
            )
            &&& self.looks_again(query, config) ==> self.search_fits(
                query.quantized@,
                query.distances@,
                self.full_nprobe(config),
                config.bbox_repair,
            )
        }
    }

    /// Counts the frauds that one search finds, unless it comes to blocks that are not there.
    fn count_once(
        &self,
        query: &[i16; DIMENSIONS],
        distances: &[Single],
        nprobe: u32,
        repair: bool,
    ) -> (counted: Option<u8>)
        requires
            self.wf(),
            distances@.len() == self.clusters,
            self.is_searchable() ==> nprobe > 0,
        ensures
            counted is Some <==> (self.is_searchable() ==> self.search_fits(
                query@,
                distances@,
                nprobe as nat,
                repair,
            )),
            counted matches Some(count) ==> count <= 5 && count == self.frauds_once(
                query@,
                distances@,
                nprobe as nat,
                repair,
            ),
    {
        if self.n < 5 || self.clusters == 0 {
            return Some(0);
        }
        let blocks: usize = self.labels.len() / BLOCK_LANES;
        let best_clusters: Vec<u32> = choose_probes(distances, nprobe);
        proof {
            lemma_probes_in_range(distances@, nprobe as nat);
        }
        let mut top = Top5::new();
        let mut next: usize = 0;
        while next < best_clusters.len()
            invariant
                self.wf(),
                self.is_searchable(),
                top.wf(),
                blocks == self.block_count(),
                next <= best_clusters.len(),
                best_clusters.len() == nprobe,
                best_clusters@ == probes(distances@, nprobe as nat),
                forall|i: int|
                    0 <= i < best_clusters@.len() ==> #[trigger] best_clusters@[i] < self.clusters,
                forall|i: int|
                    0 <= i < next ==> self.cluster_fits(#[trigger] best_clusters@[i] as int),
                top.entries() == self.after_probes(query@, best_clusters@, next as nat),
            decreases best_clusters.len() - next,
        {
            let cluster: usize = best_clusters[next] as usize;
            let start: u32 = self.offsets[cluster];
            let end: u32 = self.offsets[cluster + 1];
            if start < end && end as usize > blocks {
                assert(!self.cluster_fits(best_clusters@[next as int] as int));
                return None;
            }
            self.scan_blocks(&mut top, start, end, query);
            next = next + 1;
        }
        if repair {
            let mut cluster: u32 = 0;
            while cluster < self.clusters
                invariant
                    self.wf(),
                    self.is_searchable(),
                    top.wf(),
                    repair,
                    blocks == self.block_count(),
                    cluster <= self.clusters,
                    best_clusters@ == probes(distances@, nprobe as nat),
                    forall|c: int|
                        #![trigger self.cluster_fits(c)]
                        0 <= c < cluster && self.is_reached(
                            query@,
                            best_clusters@,
                            self.after_repair(query@, best_clusters@, c as nat),
                            c,
                        ) ==> self.cluster_fits(c),
                    top.entries() == self.after_repair(query@, best_clusters@, cluster as nat),
                decreases self.clusters - cluster,
            {
                let start: u32 = self.offsets[cluster as usize];
                let end: u32 = self.offsets[cluster as usize + 1];
                if start != end && !lists(&best_clusters, cluster) {
                    let worst: u64 = top.worst_distance();
                    proof {
                        lemma_worst_is_unique(top.entries(), top.worst as int);
                    }
                    if self.bbox_lower_bound(cluster, query, worst) <= worst {
                        if start < end && end as usize > blocks {
                            assert(!self.cluster_fits(cluster as int));
                            return None;
                        }
                        self.scan_blocks(&mut top, start, end, query);
                    }
                }
                cluster = cluster + 1;
            }
        }
        Some(top.frauds())
    }

    /// Counts the frauds among the five nearest rows of the `nprobe` nearest clusters; with
    /// `repair`, also of every other cluster whose box is near enough to hold a nearer row.
    pub fn fraud_count_once(
        &self,
        query: &[i16; DIMENSIONS],
        distances: &[Single],
        nprobe: u32,
        repair: bool,
    ) -> (count: u8)
        requires
            self.wf(),
            distances@.len() == self.clusters,
            self.is_searchable() ==> nprobe > 0 && self.search_fits(
                query@,
                distances@,
                nprobe as nat,
                repair,
            ),
        ensures
            count == self.frauds_once(query@, distances@, nprobe as nat, repair),
            count <= 5,
    {
        match self.count_once(query, distances, nprobe, repair) {
            Some(count) => count,
            None => 0,
        }
    }

    /// Counts the frauds among the nearest rows, unless the search comes to blocks that are not
    /// there.
    fn count(&self, query: &Query, config: &IvfConfig) -> (counted: Option<u8>)
        requires
            self.wf(),
            query.distances@.len() == self.clusters,
        ensures
            counted is Some <==> self.frauds_fit(query, config),
            counted matches Some(count) ==> count <= 5 && count == self.frauds(query, config),
    {
        let wanted: u32 = if config.fast_nprobe == 0 {
            1
        } else {
            config.fast_nprobe
        };
        let fast_nprobe: u32 = if wanted < self.clusters {
            wanted
        } else {
            self.clusters
        };
        let fast_repair: bool = config.bbox_repair && !config.boundary_full;
        let frauds: u8 = self.count_once(
            &query.quantized,
            query.distances.as_slice(),
            fast_nprobe,
            fast_repair,
        )?;
        if config.boundary_full && ((frauds >= config.repair_min && frauds <= config.repair_max)
            || should_repair_extreme(frauds, &query.exact)) {
            let wider: u32 = if config.full_nprobe < fast_nprobe {
                fast_nprobe
            } else {
                config.full_nprobe
            };
            let full_nprobe: u32 = if wider < self.clusters {
                wider
            } else {
                self.clusters
            };
            self.count_once(
                &query.quantized,
                query.distances.as_slice(),
                full_nprobe,
                config.bbox_repair,
            )
        } else {
            Some(frauds)
        }
    }

    /// Whether the blocks of all the clusters that are looked into are there.
    pub fn check_search(&self, query: &Query, config: &IvfConfig) -> (answer: bool)
        requires
            self.wf(),
            query.distances@.len() == self.clusters,
        ensures
            answer == self.frauds_fit(query, config),
    {
        self.count(query, config).is_some()
    }

    /// Counts the frauds among the nearest rows: first in a few clusters, then, where the settings
    /// ask for it and the count is in the middle or doubtful, in more of them.
    pub fn fraud_count(&self, query: &Query, config: &IvfConfig) -> (count: u8)
        requires
            self.wf(),
            query.distances@.len() == self.clusters,
            self.frauds_fit(query, config),
        ensures
            count == self.frauds(query, config),
            count <= 5,
    {
        match self.count(query, config) {
            Some(count) => count,
            None => 0,
        }
    }
}

/// Whether the list holds the cluster.
fn lists(listed: &Vec<u32>, cluster: u32) -> (answer: bool)
    ensures
        answer == listed@.contains(cluster),
{
    let mut next: usize = 0;
    while next < listed.len()
        invariant
            next <= listed.len(),
            forall|i: int| 0 <= i < next ==> #[trigger] listed@[i] != cluster,
        decreases listed.len() - next,
    {
        if listed[next] == cluster {
            return true;
        }
        next = next + 1;
    }
    false
}

/// The count that is reported, by the settings. The first look covers as many clusters as asked
/// for, at least one and at most all, and repairs only where there is no second look. Where there
/// is one, every first count from the lower to the upper limit, both included, is replaced by the
/// count of a look at as many clusters as asked for, at least as many as the first time and at most
/// all; so is a doubtful one. Every other count stands.
pub proof fn law_settings_say_when_to_look_again(
    index: &IvfIndex,
    query: &Query,
    config: &IvfConfig,
)
    ensures
        ({
            let clusters = index.clusters as int;
            let fast = min(max(config.fast_nprobe as int, 1), clusters);
            let full = min(max(config.full_nprobe as int, fast), clusters);
            let first = index.frauds_once(
                query.quantized@,
                query.distances@,
                fast as nat,
                config.bbox_repair && !config.boundary_full,
            );
            let second = index.frauds_once(
                query.quantized@,
                query.distances@,
                full as nat,
                config.bbox_repair,
            );
            let reported = index.frauds(query, config);
            &&& !config.boundary_full ==> reported == first
            &&& config.boundary_full && config.repair_min <= first && first <= config.repair_max
                ==> reported == second
            &&& config.boundary_full && is_doubtful(first as u8, query.exact@) ==> reported
                == second
            &&& !(config.repair_min <= first && first <= config.repair_max) && !is_doubtful(
                first as u8,
                query.exact@,
            ) ==> reported == first
        }),
{
}

/// An index of fewer than five rows, or of no clusters, counts nothing; any other one counts the
/// frauds among what it finds.
pub proof fn law_few_rows_count_nothing(
    index: &IvfIndex,
    query: Seq<i16>,
    distances: Seq<Single>,
    nprobe: nat,
    repair: bool,
)
    ensures
        index.n < 5 || index.clusters == 0 ==> index.frauds_once(query, distances, nprobe, repair)
            == 0,
        index.n >= 5 && index.clusters > 0 ==> index.frauds_once(query, distances, nprobe, repair)
            == labelled(index.found(query, distances, nprobe, repair)),
{
}

} // verus!
