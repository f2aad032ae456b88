//! Which clusters to look into first: those whose centroids are nearest to the query.
//!
//! The distance to each centroid is given, one for each cluster.

use crate::single::{Single, INFINITY_BITS};
use vstd::prelude::*;

verus! {

/// Positive infinity.
pub open spec fn infinity() -> Single {
    Single { bits: INFINITY_BITS }
}

/// `cluster` is the first of those at the smallest distance; 0 where no distance is below
/// infinity.
pub open spec fn is_nearest_cluster(distances: Seq<Single>, cluster: int) -> bool {
    if exists|i: int| 0 <= i < distances.len() && (#[trigger] distances[i]).lt(infinity()) {
        &&& 0 <= cluster < distances.len()
        &&& distances[cluster].lt(infinity())
        &&& forall|i: int|
            0 <= i < distances.len() ==> !(#[trigger] distances[i]).lt(distances[cluster])
        &&& forall|i: int|
            0 <= i < cluster && (#[trigger] distances[i]).lt(infinity()) ==> distances[cluster].lt(
                distances[i],
            )
    } else {
        cluster == 0
    }
}

/// The cluster for which [`is_nearest_cluster`] holds.
pub open spec fn nearest_cluster(distances: Seq<Single>) -> int {
    choose|cluster: int| is_nearest_cluster(distances, cluster)
}

/// There is one nearest cluster.
pub proof fn lemma_nearest_cluster_is_unique(distances: Seq<Single>, cluster: int)
    requires
        is_nearest_cluster(distances, cluster),
    ensures
        nearest_cluster(distances) == cluster,
{
    let other = nearest_cluster(distances);
    assert(is_nearest_cluster(distances, other));
}

/// The nearest cluster.
pub fn nearest_centroid(distances: &[Single]) -> (cluster: u32)
    requires
        distances@.len() <= u32::MAX,
    ensures
        is_nearest_cluster(distances@, cluster as int),
        cluster == nearest_cluster(distances@),
{
    let mut best_cluster: u32 = 0;
    let mut best_distance: Single = Single::from_bits(INFINITY_BITS);
    let mut cluster: usize = 0;
    while cluster < distances.len()
        invariant
            distances.len() <= u32::MAX,
            cluster <= distances.len(),
            is_nearest_cluster(distances@.take(cluster as int), best_cluster as int),
            best_distance == infinity() && best_cluster == 0 || (best_cluster < cluster
                && best_distance == distances@[best_cluster as int] && best_distance.lt(
                infinity(),
            )),
            best_distance == infinity() ==> forall|i: int|
                0 <= i < cluster ==> !(#[trigger] distances@[i]).lt(infinity()),
        decreases distances.len() - cluster,
    {
        let ghost seen = distances@.take(cluster as int);
        let ghost was = best_cluster as int;
        let distance: Single = distances[cluster];
        if distance.less_than(best_distance) {
            best_distance = distance;
            best_cluster = cluster as u32;
        }
        proof {
            let now = distances@.take(cluster + 1);
            assert(forall|i: int| 0 <= i < cluster ==> #[trigger] now[i] == seen[i]);
            assert(now[cluster as int] == distance);
            assert(forall|i: int| 0 <= i < cluster ==> #[trigger] seen[i] == distances@[i]);
            assert(is_nearest_cluster(now, best_cluster as int));
        }
        cluster = cluster + 1;
    }
    assert(distances@.take(cluster as int) =~= distances@);
    proof {
        lemma_nearest_cluster_is_unique(distances@, best_cluster as int);
    }
    best_cluster
}

/// How far to the front a new distance moves among the first `slots` of a list: past every
/// distance that it is below.
pub open spec fn place(distances: Seq<Single>, distance: Single, slots: int) -> int
    decreases slots,
{
    if slots > 0 && distance.lt(distances[slots - 1]) {
        place(distances, distance, slots - 1)
    } else {
        slots
    }
}

/// The list with `value` put at `at` and the items from there on moved back by one; the item at
/// `last` drops out, and what comes after it stays.
pub open spec fn moved_back<T>(list: Seq<T>, at: int, last: int, value: T) -> Seq<T> {
    Seq::new(
        list.len(),
        |i: int|
            if i < at || i > last {
                list[i]
            } else if i == at {
                value
            } else {
                list[i - 1]
            },
    )
}

/// Puts a cluster at its place in a list of the nearest clusters, which is sorted by distance,
/// unless it is no nearer than the last one.
pub fn insert_probe(
    cluster: u32,
    distance: Single,
    best_clusters: &mut [u32],
    best_distances: &mut [Single],
)
    requires
        0 < old(best_distances)@.len() <= old(best_clusters)@.len(),
    ensures
        ({
            let last = old(best_distances)@.len() - 1;
            let at = place(old(best_distances)@, distance, last);
            if distance.ge(old(best_distances)@[last]) {
                &&& final(best_clusters)@ == old(best_clusters)@
                &&& final(best_distances)@ == old(best_distances)@
            } else {
                &&& final(best_clusters)@ == moved_back(old(best_clusters)@, at, last, cluster)
                &&& final(best_distances)@ == moved_back(old(best_distances)@, at, last, distance)
            }
        }),
{
    let last: usize = best_distances.len() - 1;
    if distance.at_least(best_distances[last]) {
        return ;
    }
    let ghost clusters = best_clusters@;
    let ghost distances = best_distances@;
    let mut pos: usize = last;
    while pos > 0 && distance.less_than(best_distances[pos - 1])
        invariant
            pos <= last < distances.len() <= clusters.len(),
            best_distances@.len() == distances.len(),
            best_clusters@.len() == clusters.len(),
            place(distances, distance, last as int) == place(distances, distance, pos as int),
            forall|i: int|
                #![trigger best_distances@[i]]
                #![trigger best_clusters@[i]]
                pos < i <= last ==> best_distances@[i] == distances[i - 1] && best_clusters@[i]
                    == clusters[i - 1],
            forall|i: int|
                0 <= i <= pos || last < i < distances.len() ==> #[trigger] best_distances@[i]
                    == distances[i],
            forall|i: int|
                0 <= i <= pos || last < i < clusters.len() ==> #[trigger] best_clusters@[i]
                    == clusters[i],
        decreases pos,
    {
        best_distances[pos] = best_distances[pos - 1];
        best_clusters[pos] = best_clusters[pos - 1];
        pos = pos - 1;
    }
    best_distances[pos] = distance;
    best_clusters[pos] = cluster;
    assert(best_clusters@ =~= moved_back(clusters, pos as int, last as int, cluster));
    assert(best_distances@ =~= moved_back(distances, pos as int, last as int, distance));
}

/// The list of the `slots` nearest among the first `seen` clusters, with their distances. Slots
/// that nothing was put in hold cluster 0 at an infinite distance.
pub open spec fn ranked(distances: Seq<Single>, slots: nat, seen: nat) -> (Seq<u32>, Seq<Single>)
    decreases seen,
{
    if seen == 0 {
        (Seq::new(slots, |i: int| 0u32), Seq::new(slots, |i: int| infinity()))
    } else {
        let (clusters, best) = ranked(distances, slots, (seen - 1) as nat);
        let distance = distances[seen - 1];
        let last = slots - 1;
        if distance.ge(best[last]) {
            (clusters, best)
        } else {
            let at = place(best, distance, last);
            (
                moved_back(clusters, at, last, (seen - 1) as u32),
                moved_back(best, at, last, distance),
            )
        }
    }
}

/// The clusters to look into first. One alone is picked directly, more are ranked.
pub open spec fn probes(distances: Seq<Single>, slots: nat) -> Seq<u32> {
    if slots == 1 {
        seq![nearest_cluster(distances) as u32]
    } else {
        ranked(distances, slots, distances.len()).0
    }
}

/// The clusters to look into first.
pub fn choose_probes(distances: &[Single], nprobe: u32) -> (chosen: Vec<u32>)
    requires
        nprobe > 0,
        distances@.len() <= u32::MAX,
    ensures
        chosen@ == probes(distances@, nprobe as nat),
        chosen@.len() == nprobe,
{
    let slots: usize = nprobe as usize;
    let mut best_clusters: Vec<u32> = vec![0u32; slots];
    let mut best_distances: Vec<Single> = Vec::new();
    let mut filled: usize = 0;
    while filled < slots
        invariant
            filled <= slots,
            best_distances@ == Seq::new(filled as nat, |i: int| infinity()),
        decreases slots - filled,
    {
        best_distances.push(Single::from_bits(INFINITY_BITS));
        filled = filled + 1;
    }
    if nprobe == 1 {
        best_clusters[0] = nearest_centroid(distances);
        assert(best_clusters@ =~= probes(distances@, 1));
    } else {
        assert(best_clusters@ =~= ranked(distances@, slots as nat, 0).0);
        let mut cluster: usize = 0;
        while cluster < distances.len()
            invariant
                nprobe > 0,
                slots == nprobe,
                distances.len() <= u32::MAX,
                cluster <= distances.len(),
                best_clusters@.len() == slots,
                best_distances@.len() == slots,
                (best_clusters@, best_distances@) == ranked(
                    distances@,
                    slots as nat,
                    cluster as nat,
                ),
            decreases distances.len() - cluster,
        {
            insert_probe(
                cluster as u32,
                distances[cluster],
                best_clusters.as_mut_slice(),
                best_distances.as_mut_slice(),
            );
            cluster = cluster + 1;
        }
    }
    best_clusters
}

/// One cluster is nearer than the other, or equally near and has the lower number.
pub open spec fn comes_before(distances: Seq<Single>, one: int, other: int) -> bool {
    distances[one].lt(distances[other]) || (distances[one].rank() == distances[other].rank() && one
        < other)
}

/// Whether one of the first `filled` slots holds the cluster.
pub open spec fn is_listed(clusters: Seq<u32>, filled: int, cluster: int) -> bool {
    exists|i: int| 0 <= i < filled && #[trigger] clusters[i] == cluster
}

/// The first `filled` slots hold different clusters below `seen` with their distances, sorted by
/// distance and, among equals, by cluster; the other slots are free. What is not in the list comes
/// after its last cluster in that order.
pub open spec fn lists_nearest(
    distances: Seq<Single>,
    clusters: Seq<u32>,
    best: Seq<Single>,
    filled: int,
    seen: int,
) -> bool {
    &&& 0 <= filled <= clusters.len() == best.len()
    &&& forall|i: int|
        #![trigger clusters[i]]
        #![trigger best[i]]
        0 <= i < filled ==> clusters[i] < seen && best[i] == distances[clusters[i] as int]
    &&& forall|i: int, j: int|
        #![trigger best[i], best[j]]
        0 <= i < j < filled ==> best[i].rank() < best[j].rank() || (best[i].rank()
            == best[j].rank() && clusters[i] < clusters[j])
    &&& forall|i: int| filled <= i < best.len() ==> #[trigger] best[i] == infinity()
    &&& forall|c: int|
        #![trigger is_listed(clusters, filled, c)]
        0 <= c < seen && !is_listed(clusters, filled, c) ==> filled == best.len() && comes_before(
            distances,
            clusters[filled - 1] as int,
            c,
        )
}

/// Putting the next cluster at its place keeps the list one of the nearest.
proof fn lemma_insertion_lists_nearest(
    distances: Seq<Single>,
    clusters: Seq<u32>,
    best: Seq<Single>,
    filled: int,
    new: int,
)
    requires
        best.len() > 0,
        filled == if new < best.len() { new } else { best.len() as int },
        0 <= new < distances.len() <= u32::MAX,
        forall|i: int| 0 <= i < distances.len() ==> (#[trigger] distances[i]).lt(infinity()),
        lists_nearest(distances, clusters, best, filled, new),
        !distances[new].ge(best[best.len() - 1]),
    ensures
        ({
            let last = best.len() - 1;
            let at = place(best, distances[new], last);
            lists_nearest(
                distances,
                moved_back(clusters, at, last, new as u32),
                moved_back(best, at, last, distances[new]),
                if filled < best.len() { filled + 1 } else { filled },
                new + 1,
            )
        }),
{
    let last = best.len() - 1;
    let distance = distances[new];
    let at = place(best, distance, last);
    let clusters1 = moved_back(clusters, at, last, new as u32);
    let best1 = moved_back(best, at, last, distance);
    let filled1 = if filled < best.len() { filled + 1 } else { filled };
    assert forall|i: int| 0 <= i < best.len() implies !(#[trigger] best[i]).is_nan() by {
        if i < filled {
            assert(distances[clusters[i] as int].lt(infinity()));
        }
    }
    assert(distance.lt(infinity()));
    assert(distance.rank() < best[last].rank());
    lemma_place(best, distance, last);
    assert(at <= filled) by {
        if at > filled {
            assert(best[at - 1] == infinity());
        }
    }
    assert forall|i: int| 0 <= i < at implies (#[trigger] best[i]).rank() <= distance.rank() by {
        assert(best[at - 1].rank() <= distance.rank());
        if i < at - 1 {
            assert(best[i].rank() <= best[at - 1].rank());
        }
    }
    assert forall|i: int, j: int|
        #![trigger best1[i], best1[j]]
        0 <= i < j < filled1 implies best1[i].rank() < best1[j].rank() || (best1[i].rank()
        == best1[j].rank() && clusters1[i] < clusters1[j]) by {
        if j == at {
            assert(best1[i] == best[i] && clusters1[i] == clusters[i]);
        } else if i == at {
            assert(best1[j] == best[j - 1]);
            assert(distance.lt(best[j - 1]));
        } else {
            let i0 = if i < at { i } else { i - 1 };
            let j0 = if j < at { j } else { j - 1 };
            assert(best1[i] == best[i0] && best1[j] == best[j0]);
            assert(clusters1[i] == clusters[i0] && clusters1[j] == clusters[j0]);
        }
    }
    assert forall|c: int|
        #![trigger is_listed(clusters1, filled1, c)]
        0 <= c < new + 1 && !is_listed(clusters1, filled1, c) implies filled1 == best1.len()
        && comes_before(distances, clusters1[filled1 - 1] as int, c) by {
        assert(clusters1[at] == new);
        assert(distances[c].lt(infinity()));
        assert(last <= filled ==> best1[last].rank() < best[last].rank() || (last < filled
            && best1[last].rank() == best[last].rank() && clusters1[last] < clusters[last])) by {
            if at < last && last <= filled {
                assert(best1[last] == best[last - 1]);
                assert(clusters1[last] == clusters[last - 1]);
                assert(distances[clusters[last - 1] as int].lt(infinity()));
            }
        }
        if is_listed(clusters, filled, c) {
            let i = choose|i: int| 0 <= i < filled && #[trigger] clusters[i] == c;
            if i < at {
                assert(clusters1[i] == c);
            } else if i < last {
                assert(clusters1[i + 1] == c);
            } else {
                assert(best[i] == distances[c]);
            }
        }
    }
}

/// Where every distance is below infinity, ranking lists the nearest clusters.
proof fn lemma_ranked_lists_nearest(distances: Seq<Single>, slots: nat, seen: nat)
    requires
        slots > 0,
        seen <= distances.len() <= u32::MAX,
        forall|i: int| 0 <= i < distances.len() ==> (#[trigger] distances[i]).lt(infinity()),
    ensures
        ({
            let (clusters, best) = ranked(distances, slots, seen);
            let filled = if seen < slots { seen as int } else { slots as int };
            clusters.len() == slots && lists_nearest(distances, clusters, best, filled, seen as int)
        }),
    decreases seen,
{
    if seen > 0 {
        let new = seen - 1;
        lemma_ranked_lists_nearest(distances, slots, new as nat);
        let (clusters, best) = ranked(distances, slots, new as nat);
        let filled = if new < slots { new } else { slots as int };
        if distances[new].ge(best[slots - 1]) {
            assert(distances[new].lt(infinity()));
            assert(filled == slots);
            assert forall|c: int|
                #![trigger is_listed(clusters, filled, c)]
                0 <= c < seen && !is_listed(clusters, filled, c) implies comes_before(
                distances,
                clusters[filled - 1] as int,
                c,
            ) by {
                assert(clusters[filled - 1] < new);
                assert(distances[clusters[filled - 1] as int].lt(infinity()));
            }
        } else {
            lemma_insertion_lists_nearest(distances, clusters, best, filled, new);
        }
    }
}

/// What a distance moves past is above it, and what it stops behind is not.
proof fn lemma_place(distances: Seq<Single>, distance: Single, slots: int)
    requires
        0 <= slots,
    ensures
        0 <= place(distances, distance, slots) <= slots,
        forall|i: int|
            place(distances, distance, slots) <= i < slots ==> distance.lt(#[trigger] distances[i]),
        place(distances, distance, slots) > 0 ==> !distance.lt(
            distances[place(distances, distance, slots) - 1],
        ),
    decreases slots,
{
    if slots > 0 && distance.lt(distances[slots - 1]) {
        lemma_place(distances, distance, slots - 1);
    }
}

/// Where every centroid's distance is below infinity and there are at least as many clusters as
/// probes, the probes are different clusters, ordered by distance and, among equals, by number,
/// and every other cluster comes after each of them in that order.
pub proof fn law_probes_are_the_nearest_clusters(distances: Seq<Single>, slots: nat)
    requires
        0 < slots <= distances.len() <= u32::MAX,
        forall|i: int| 0 <= i < distances.len() ==> (#[trigger] distances[i]).lt(infinity()),
    ensures
        probes(distances, slots).len() == slots,
        probes(distances, slots).no_duplicates(),
        forall|i: int|
            0 <= i < slots ==> (#[trigger] probes(distances, slots)[i]) < distances.len(),
        forall|i: int, j: int|
            0 <= i < j < slots ==> {
                let a = #[trigger] probes(distances, slots)[i];
                let b = #[trigger] probes(distances, slots)[j];
                comes_before(distances, a as int, b as int)
            },
        forall|c: int, i: int|
            #![trigger distances[c], probes(distances, slots)[i]]
            0 <= c < distances.len() && !probes(distances, slots).contains(c as u32) && 0 <= i
                < slots ==> comes_before(distances, probes(distances, slots)[i] as int, c),
{
    let chosen = probes(distances, slots);
    if slots == 1 {
        lemma_nearest_exists(distances);
        assert(distances[0].lt(infinity()));
    } else {
        lemma_ranked_lists_nearest(distances, slots, distances.len());
        let (clusters, best) = ranked(distances, slots, distances.len());
        assert forall|c: int, i: int|
            #![trigger distances[c], chosen[i]]
            0 <= c < distances.len() && !chosen.contains(c as u32) && 0 <= i
                < slots implies comes_before(distances, chosen[i] as int, c) by {
            assert(distances[c].lt(infinity()));
            assert(distances[chosen[i] as int].lt(infinity()));
            assert(distances[chosen[slots - 1] as int].lt(infinity()));
            assert(best[i] == distances[chosen[i] as int]);
            if is_listed(clusters, slots as int, c) {
                let k = choose|k: int| 0 <= k < slots && #[trigger] clusters[k] == c;
                assert(chosen.contains(clusters[k]));
            }
            assert(best[i].rank() <= best[slots - 1].rank());
        }
    }
}

/// Some cluster is the nearest one.
proof fn lemma_nearest_exists(distances: Seq<Single>)
    ensures
        is_nearest_cluster(distances, nearest_cluster(distances)),
    decreases distances.len(),
{
    if distances.len() == 0 {
        assert(is_nearest_cluster(distances, 0));
    } else {
        let front = distances.drop_last();
        lemma_nearest_exists(front);
        let was = nearest_cluster(front);
        let last = distances.len() - 1;
        assert(forall|i: int|
            #![trigger front[i]]
            #![trigger distances[i]]
            0 <= i < last ==> front[i] == distances[i]);
        if exists|i: int| 0 <= i < last && (#[trigger] front[i]).lt(infinity()) {
            let witness = choose|i: int| 0 <= i < last && (#[trigger] front[i]).lt(infinity());
            assert(distances[witness].lt(infinity()));
            assert(front[was].lt(infinity()));
            if distances[last].lt(distances[was]) {
                assert(is_nearest_cluster(distances, last));
            } else {
                assert(distances[was].lt(infinity()));
                assert(is_nearest_cluster(distances, was));
            }
        } else if distances[last].lt(infinity()) {
            assert(is_nearest_cluster(distances, last));
        } else {
            assert(is_nearest_cluster(distances, 0));
        }
    }
}

/// Every probe is one of the clusters.
pub proof fn lemma_probes_in_range(distances: Seq<Single>, slots: nat)
    requires
        slots > 0,
        0 < distances.len() <= u32::MAX,
    ensures
        probes(distances, slots).len() == slots,
        forall|i: int| 0 <= i < slots ==> #[trigger] probes(distances, slots)[i] < distances.len(),
{
    if slots == 1 {
        lemma_nearest_exists(distances);
    } else {
        lemma_ranked_in_range(distances, slots, distances.len());
    }
}

/// A ranking of the first clusters holds only these, or cluster 0.
proof fn lemma_ranked_in_range(distances: Seq<Single>, slots: nat, seen: nat)
    requires
        slots > 0,
        seen <= distances.len() <= u32::MAX,
    ensures
        ranked(distances, slots, seen).0.len() == slots,
        forall|i: int|
            0 <= i < slots ==> #[trigger] ranked(distances, slots, seen).0[i] < seen || ranked(
                distances,
                slots,
                seen,
            ).0[i] == 0,
    decreases seen,
{
    if seen > 0 {
        lemma_ranked_in_range(distances, slots, (seen - 1) as nat);
        lemma_place(
            ranked(distances, slots, (seen - 1) as nat).1,
            distances[seen - 1],
            slots - 1,
        );
    }
}

/// A distance is put behind all that it is not below and in front of all that it is below, in a
/// list that is sorted; what was in front stays, what was behind moves back by one, and the last
/// drops out. One that is no number takes the last place.
pub proof fn law_distances_are_put_at_their_place(
    clusters: Seq<u32>,
    distances: Seq<Single>,
    cluster: u32,
    distance: Single,
    i: int,
)
    requires
        0 < distances.len() == clusters.len(),
        forall|j: int, k: int|
            0 <= j < k < distances.len() ==> !(#[trigger] distances[k]).lt(#[trigger] distances[j]),
        0 <= i < distances.len(),
    ensures
        ({
            let last = distances.len() - 1;
            let at = place(distances, distance, last);
            let after = moved_back(distances, at, last, distance);
            let listed = moved_back(clusters, at, last, cluster);
            &&& 0 <= at <= last
            &&& after.len() == distances.len() && listed.len() == clusters.len()
            &&& after[at] == distance && listed[at] == cluster
            &&& i < at ==> after[i] == distances[i] && listed[i] == clusters[i]
            &&& i > at ==> after[i] == distances[i - 1] && listed[i] == clusters[i - 1]
                && distance.lt(after[i])
            &&& at > 0 ==> !distance.lt(after[at - 1])
            &&& distance.bits % 0x8000_0000 > 0x7f80_0000 ==> at == last
        }),
{
    lemma_place(distances, distance, distances.len() - 1);
}

/// The one cluster to look into is the first of the nearest among those at a distance below
/// infinity, and the first of all where there is none.
pub proof fn law_the_nearest_cluster_comes_first(distances: Seq<Single>, cluster: int)
    requires
        0 <= cluster < distances.len(),
    ensures
        ({
            let nearest = nearest_cluster(distances);
            &&& distances[cluster].lt(Single { bits: 0x7f80_0000 }) ==> {
                &&& 0 <= nearest < distances.len()
                &&& nearest == cluster || distances[nearest].lt(distances[cluster]) || (
                distances[nearest].rank() == distances[cluster].rank() && nearest < cluster)
            }
            &&& (forall|i: int|
                0 <= i < distances.len() ==> !(#[trigger] distances[i]).lt(
                    Single { bits: 0x7f80_0000 },
                )) ==> nearest == 0
        }),
{
    lemma_nearest_exists(distances);
}

} // verus!
