//! The five nearest candidates seen so far.

use vstd::multiset::Multiset;
use vstd::prelude::*;

verus! {

/// A labelled row offered to a [`Top5`].
#[derive(Clone, Copy, Debug, PartialEq, Eq, Structural)]
pub struct Candidate {
    pub distance: u64,
    pub label: u8,
    pub id: u32,
}

impl Candidate {
    /// Nearer first; among equally near candidates, the lower id first.
    pub open spec fn precedes(self, other: Candidate) -> bool {
        self.distance < other.distance || (self.distance == other.distance && self.id < other.id)
    }
}

/// The candidate that fills a slot nothing has been put in yet. No candidate comes after it.
pub open spec fn vacancy() -> Candidate {
    Candidate { distance: u64::MAX, label: 0, id: u32::MAX }
}

/// `at` is the first of the entries that no other entry comes after.
pub open spec fn is_worst(entries: Seq<Candidate>, at: int) -> bool {
    &&& 0 <= at < entries.len()
    &&& forall|i: int| 0 <= i < entries.len() ==> !entries[at].precedes(#[trigger] entries[i])
    &&& forall|i: int| 0 <= i < at ==> (#[trigger] entries[i]).precedes(entries[at])
}

/// The position for which [`is_worst`] holds.
pub open spec fn worst_of(entries: Seq<Candidate>) -> int {
    choose|at: int| is_worst(entries, at)
}

/// The entries after a candidate was offered: it takes the place of the worst entry if it
/// precedes it.
pub open spec fn offered(entries: Seq<Candidate>, candidate: Candidate) -> Seq<Candidate> {
    let worst = worst_of(entries);
    if candidate.precedes(entries[worst]) {
        entries.update(worst, candidate)
    } else {
        entries
    }
}

/// The entries after all the candidates were offered, in their order.
pub open spec fn offered_all(entries: Seq<Candidate>, candidates: Seq<Candidate>) -> Seq<Candidate>
    decreases candidates.len(),
{
    if candidates.len() == 0 {
        entries
    } else {
        offered(offered_all(entries, candidates.drop_last()), candidates.last())
    }
}

/// Five vacant slots.
pub open spec fn vacant() -> Seq<Candidate> {
    Seq::new(5, |i: int| vacancy())
}

/// How many of the entries carry a label other than 0.
pub open spec fn labelled(entries: Seq<Candidate>) -> nat {
    entries.filter(|c: Candidate| c.label != 0).len()
}

/// The five best candidates: their distances, labels and ids, slot by slot, and the slot whose
/// candidate is the next to go.
pub struct Top5 {
    pub distances: [u64; 5],
    pub labels: [u8; 5],
    pub ids: [u32; 5],
    pub worst: usize,
}

impl Top5 {
    /// The candidate in each slot.
    pub open spec fn entries(&self) -> Seq<Candidate> {
        Seq::new(
            5,
            |i: int|
                Candidate {
                    distance: self.distances[i],
                    label: self.labels[i],
                    id: self.ids[i],
                },
        )
    }

    /// `worst` marks the slot that [`is_worst`] describes.
    pub open spec fn wf(&self) -> bool {
        is_worst(self.entries(), self.worst as int)
    }

    /// Five vacant slots.
    pub fn new() -> (top: Self)
        ensures
            top.wf(),
            top.entries() == vacant(),
            top.worst == 0,
    {
        let top = Top5 {
            distances: [u64::MAX;5],
            labels: [0;5],
            ids: [u32::MAX;5],
            worst: 0,
        };
        assert(top.entries() =~= vacant());
        top
    }

    /// Whether a candidate at this distance with this id precedes the one in slot `pos`.
    pub fn better(&self, distance: u64, id: u32, pos: usize) -> (answer: bool)
        requires
            pos < 5,
        ensures
            answer == (Candidate { distance, label: 0, id }).precedes(self.entries()[pos as int]),
    {
        distance < self.distances[pos] || (distance == self.distances[pos] && id < self.ids[pos])
    }

    /// Marks the worst slot; the slots themselves stay as they are.
    pub fn refresh_worst(&mut self)
        ensures
            final(self).wf(),
            final(self).distances == old(self).distances,
            final(self).labels == old(self).labels,
            final(self).ids == old(self).ids,
    {
        self.worst = 0;
        let mut pos: usize = 1;
        while pos < 5
            invariant
                1 <= pos <= 5,
                self.worst < pos,
                self.distances == old(self).distances,
                self.labels == old(self).labels,
                self.ids == old(self).ids,
                is_worst(self.entries().take(pos as int), self.worst as int),
            decreases 5 - pos,
        {
            let ghost seen = self.entries().take(pos as int);
            let ghost was = self.worst as int;
            if self.distances[pos] > self.distances[self.worst] || (self.distances[pos]
                == self.distances[self.worst] && self.ids[pos] > self.ids[self.worst]) {
                self.worst = pos;
            }
            proof {
                let now = self.entries().take(pos + 1);
                assert(forall|i: int| 0 <= i < pos ==> #[trigger] now[i] == seen[i]);
                assert(now[pos as int] == self.entries()[pos as int]);
                assert(!seen[was].precedes(seen[was]));
                assert(is_worst(now, self.worst as int));
            }
            pos = pos + 1;
        }
        assert(self.entries().take(5) =~= self.entries());
    }

    /// Offers a candidate: it replaces the worst one if it precedes it.
    pub fn insert(&mut self, distance: u64, label: u8, id: u32)
        requires
            old(self).wf(),
        ensures
            final(self).wf(),
            final(self).entries() == offered(
                old(self).entries(),
                Candidate { distance, label, id },
            ),
            (Candidate { distance, label, id }).precedes(
                old(self).entries()[old(self).worst as int],
            ) ==> final(self).entries() == old(self).entries().update(
                old(self).worst as int,
                Candidate { distance, label, id },
            ),
            !(Candidate { distance, label, id }).precedes(
                old(self).entries()[old(self).worst as int],
            ) ==> *final(self) == *old(self),
    {
        proof {
            lemma_worst_is_unique(self.entries(), self.worst as int);
        }
        if !self.better(distance, id, self.worst) {
            return ;
        }
        let ghost before = self.entries();
        let ghost slot = self.worst as int;
        self.distances[self.worst] = distance;
        self.labels[self.worst] = label;
        self.ids[self.worst] = id;
        assert(self.entries() =~= before.update(slot, Candidate { distance, label, id }));
        self.refresh_worst();
        assert(self.entries() =~= before.update(slot, Candidate { distance, label, id }));
    }

    /// The distance of the worst candidate.
    pub fn worst_distance(&self) -> (distance: u64)
        requires
            self.wf(),
        ensures
            distance == self.entries()[self.worst as int].distance,
            forall|i: int| 0 <= i < 5 ==> (#[trigger] self.entries()[i]).distance <= distance,
    {
        self.distances[self.worst]
    }

    /// How many of the five carry a label other than 0.
    pub fn frauds(&self) -> (count: u8)
        ensures
            count == labelled(self.entries()),
            count <= 5,
    {
        let mut count: u8 = 0;
        let mut pos: usize = 0;
        while pos < 5
            invariant
                pos <= 5,
                count <= pos,
                count == labelled(self.entries().take(pos as int)),
            decreases 5 - pos,
        {
            proof {
                let next = self.entries().take(pos + 1);
                assert(next.drop_last() =~= self.entries().take(pos as int));
                assert(next.last() == self.entries()[pos as int]);
                reveal_with_fuel(Seq::filter, 2);
            }
            if self.labels[pos] != 0 {
                count = count + 1;
            }
            pos = pos + 1;
        }
        assert(self.entries().take(5) =~= self.entries());
        count
    }
}

/// There is one worst position.
pub proof fn lemma_worst_is_unique(entries: Seq<Candidate>, at: int)
    requires
        is_worst(entries, at),
    ensures
        worst_of(entries) == at,
{
    let other = worst_of(entries);
    assert(is_worst(entries, other));
    if other < at {
        assert(entries[other].precedes(entries[at]));
    } else if at < other {
        assert(entries[at].precedes(entries[other]));
    }
}

/// Some position is the worst one.
pub proof fn lemma_worst_exists(entries: Seq<Candidate>)
    requires
        entries.len() > 0,
    ensures
        is_worst(entries, worst_of(entries)),
    decreases entries.len(),
{
    let last = entries.len() - 1;
    if last == 0 {
        assert(is_worst(entries, 0));
    } else {
        let front = entries.drop_last();
        lemma_worst_exists(front);
        let at = worst_of(front);
        assert(forall|i: int| 0 <= i < last ==> #[trigger] entries[i] == front[i]);
        if front[at].precedes(entries[last]) {
            assert forall|i: int| 0 <= i < last implies (#[trigger] entries[i]).precedes(
                entries[last],
            ) by {
                assert(!front[at].precedes(front[i]));
            }
            assert(is_worst(entries, last));
        } else {
            assert(is_worst(entries, at));
        }
    }
}

/// Offering does not change the number of entries.
pub proof fn lemma_offered_all_len(entries: Seq<Candidate>, candidates: Seq<Candidate>)
    requires
        entries.len() > 0,
    ensures
        offered_all(entries, candidates).len() == entries.len(),
    decreases candidates.len(),
{
    if candidates.len() > 0 {
        lemma_offered_all_len(entries, candidates.drop_last());
        lemma_worst_exists(offered_all(entries, candidates.drop_last()));
    }
}

/// Offering one sequence and then another is offering their concatenation.
pub proof fn lemma_offered_all_concat(
    entries: Seq<Candidate>,
    first: Seq<Candidate>,
    second: Seq<Candidate>,
)
    ensures
        offered_all(entries, first + second) == offered_all(offered_all(entries, first), second),
    decreases second.len(),
{
    if second.len() == 0 {
        assert(first + second =~= first);
    } else {
        lemma_offered_all_concat(entries, first, second.drop_last());
        assert((first + second).drop_last() =~= first + second.drop_last());
        assert((first + second).last() == second.last());
    }
}

/// Candidates that do not precede the worst entry change nothing.
pub proof fn lemma_offered_all_rejected(entries: Seq<Candidate>, candidates: Seq<Candidate>)
    requires
        forall|i: int|
            0 <= i < candidates.len() ==> !(#[trigger] candidates[i]).precedes(
                entries[worst_of(entries)],
            ),
    ensures
        offered_all(entries, candidates) == entries,
    decreases candidates.len(),
{
    if candidates.len() > 0 {
        let front = candidates.drop_last();
        assert(forall|i: int| 0 <= i < front.len() ==> #[trigger] front[i] == candidates[i]);
        lemma_offered_all_rejected(entries, front);
        assert(candidates.last() == candidates[candidates.len() - 1]);
    }
}

/// The entries are drawn from the pool, and nothing left in the pool precedes any of them.
pub open spec fn is_nearest(entries: Seq<Candidate>, pool: Multiset<Candidate>) -> bool {
    &&& entries.to_multiset().subset_of(pool)
    &&& forall|entry: Candidate, left: Candidate|
        #![trigger entries.contains(entry), pool.sub(entries.to_multiset()).contains(left)]
        entries.contains(entry) && pool.sub(entries.to_multiset()).contains(left)
            ==> !left.precedes(entry)
}

/// Entries that are the nearest of a pool are, after one more candidate was offered, the nearest
/// of the pool with that candidate.
pub proof fn law_offering_keeps_the_nearest(
    entries: Seq<Candidate>,
    pool: Multiset<Candidate>,
    candidate: Candidate,
)
    requires
        entries.len() > 0,
        is_nearest(entries, pool),
    ensures
        is_nearest(offered(entries, candidate), pool.insert(candidate)),
{
    broadcast use vstd::seq_lib::group_to_multiset_ensures;

    lemma_worst_exists(entries);
    let worst = worst_of(entries);
    let after = offered(entries, candidate);
    let grown = pool.insert(candidate);
    let had = entries.to_multiset();
    let has = after.to_multiset();
    let left = pool.sub(had);
    let now_left = grown.sub(has);
    assert(entries.contains(entries[worst]));
    if candidate.precedes(entries[worst]) {
        assert(has =~= had.insert(candidate).remove(entries[worst]));
        assert(has.subset_of(grown));
        assert(now_left =~= left.insert(entries[worst]));
        assert forall|entry: Candidate, rest: Candidate|
            #[trigger] after.contains(entry) && #[trigger] now_left.contains(
                rest,
            ) implies !rest.precedes(entry) by {
            let i = choose|i: int| 0 <= i < after.len() && after[i] == entry;
            assert(!entries[worst].precedes(entries[i]));
            assert(entries.contains(entries[i]));
            if rest != entries[worst] {
                assert(left.contains(rest));
                assert(!rest.precedes(entries[i]));
                assert(!rest.precedes(entries[worst]));
            }
        }
    } else {
        assert(now_left =~= left.insert(candidate));
        assert forall|entry: Candidate, rest: Candidate|
            #[trigger] after.contains(entry) && #[trigger] now_left.contains(
                rest,
            ) implies !rest.precedes(entry) by {
            let i = choose|i: int| 0 <= i < after.len() && after[i] == entry;
            assert(!entries[worst].precedes(entries[i]));
            if rest != candidate {
                assert(left.contains(rest));
            }
        }
    }
}

/// Offering a sequence of candidates keeps the nearest of everything offered.
pub proof fn law_offering_all_keeps_the_nearest(
    entries: Seq<Candidate>,
    pool: Multiset<Candidate>,
    candidates: Seq<Candidate>,
)
    requires
        entries.len() > 0,
        is_nearest(entries, pool),
    ensures
        is_nearest(offered_all(entries, candidates), pool.add(candidates.to_multiset())),
    decreases candidates.len(),
{
    broadcast use vstd::seq_lib::group_to_multiset_ensures;

    if candidates.len() == 0 {
        assert(pool.add(candidates.to_multiset()) =~= pool);
    } else {
        let front = candidates.drop_last();
        law_offering_all_keeps_the_nearest(entries, pool, front);
        lemma_offered_all_len(entries, front);
        law_offering_keeps_the_nearest(
            offered_all(entries, front),
            pool.add(front.to_multiset()),
            candidates.last(),
        );
        assert(front.push(candidates.last()) =~= candidates);
        assert(pool.add(front.to_multiset()).insert(candidates.last()) =~= pool.add(
            candidates.to_multiset(),
        ));
    }
}

/// A fresh [`Top5`] that was offered a sequence of candidates holds the five nearest of them;
/// where fewer than five were offered, vacancies fill the rest.
pub proof fn law_top5_holds_the_five_nearest(candidates: Seq<Candidate>)
    ensures
        offered_all(vacant(), candidates).len() == 5,
        is_nearest(
            offered_all(vacant(), candidates),
            vacant().to_multiset().add(candidates.to_multiset()),
        ),
{
    lemma_offered_all_len(vacant(), candidates);
    lemma_vacant_is_nearest();
    law_offering_all_keeps_the_nearest(vacant(), vacant().to_multiset(), candidates);
}

/// Vacant slots are the nearest of themselves.
pub proof fn lemma_vacant_is_nearest()
    ensures
        is_nearest(vacant(), vacant().to_multiset()),
{
}

/// Where no two different candidates of the pool tie, the nearest are the same whatever the
/// order in which they were offered.
pub proof fn law_the_nearest_are_unique(
    one: Seq<Candidate>,
    other: Seq<Candidate>,
    pool: Multiset<Candidate>,
)
    requires
        is_nearest(one, pool),
        is_nearest(other, pool),
        one.len() == other.len(),
        forall|a: Candidate, b: Candidate|
            #![trigger pool.contains(a), pool.contains(b)]
            pool.contains(a) && pool.contains(b) && a.distance == b.distance && a.id == b.id
                ==> a == b,
    ensures
        one.to_multiset() == other.to_multiset(),
        labelled(one) == labelled(other),
{
    broadcast use vstd::seq_lib::group_to_multiset_ensures;

    let a = one.to_multiset();
    let b = other.to_multiset();
    if !a.subset_of(b) {
        if b.subset_of(a) {
            lemma_subset_of_equal_len(b, a);
        } else {
            let x = choose|x: Candidate| a.count(x) > b.count(x);
            let y = choose|y: Candidate| b.count(y) > a.count(y);
            assert(one.contains(x) && other.contains(y));
            assert(pool.sub(a).contains(y) && pool.sub(b).contains(x));
            assert(!y.precedes(x) && !x.precedes(y));
            assert(pool.contains(x) && pool.contains(y));
            assert(x == y);
        }
    }
    lemma_subset_of_equal_len(a, b);
    lemma_labelled_by_multiset(one);
    lemma_labelled_by_multiset(other);
}

/// A part as large as the whole is the whole.
proof fn lemma_subset_of_equal_len(part: Multiset<Candidate>, whole: Multiset<Candidate>)
    requires
        part.subset_of(whole),
        part.len() == whole.len(),
    ensures
        part == whole,
{
    let rest = whole.sub(part);
    assert(rest.len() == 0);
    assert(rest =~= Multiset::empty());
    assert forall|x: Candidate| part.count(x) == whole.count(x) by {
        assert(rest.count(x) == 0);
    }
    assert(part =~= whole);
}

/// The number of labelled entries does not depend on their order.
proof fn lemma_labelled_by_multiset(entries: Seq<Candidate>)
    ensures
        labelled(entries) == entries.to_multiset().filter(|c: Candidate| c.label != 0).len(),
    decreases entries.len(),
{
    broadcast use vstd::seq_lib::group_to_multiset_ensures;

    let is_fraud = |c: Candidate| c.label != 0;
    if entries.len() == 0 {
        assert(entries.to_multiset().filter(is_fraud) =~= Multiset::empty());
    } else {
        let front = entries.drop_last();
        let last = entries.last();
        lemma_labelled_by_multiset(front);
        reveal_with_fuel(Seq::filter, 2);
        assert(front.push(last) =~= entries);
        assert(entries.to_multiset() =~= front.to_multiset().insert(last));
        if is_fraud(last) {
            assert(entries.to_multiset().filter(is_fraud) =~= front.to_multiset().filter(
                is_fraud,
            ).insert(last));
        } else {
            assert(entries.to_multiset().filter(is_fraud) =~= front.to_multiset().filter(
                is_fraud,
            ));
        }
    }
}

/// The five nearest, by their numbers: whatever was offered and is not kept is farther away than
/// each of the five, or as far and has no lower id.
pub proof fn law_kept_candidates_are_nearer_or_have_lower_ids(
    entries: Seq<Candidate>,
    pool: Multiset<Candidate>,
    kept: Candidate,
    left: Candidate,
)
    requires
        is_nearest(entries, pool),
        entries.contains(kept),
        pool.sub(entries.to_multiset()).contains(left),
    ensures
        kept.distance < left.distance || (kept.distance == left.distance && kept.id <= left.id),
{
}

/// Every label but 0 counts, and counts once.
pub proof fn law_every_label_but_zero_counts(entries: Seq<Candidate>, more: Candidate)
    ensures
        labelled(Seq::<Candidate>::empty()) == 0,
        labelled(entries.push(more)) == labelled(entries) + if more.label == 0 {
            0int
        } else {
            1
        },
{
    reveal_with_fuel(Seq::filter, 2);
    assert(entries.push(more).drop_last() =~= entries);
}

/// A slot that nothing was put in is given up for any candidate, and its label does not count.
pub proof fn law_free_slots_give_way(candidate: Candidate)
    requires
        candidate.distance < u64::MAX || candidate.id < u32::MAX,
    ensures
        candidate.precedes(vacancy()),
        vacancy().label == 0,
        vacant() == seq![vacancy(), vacancy(), vacancy(), vacancy(), vacancy()],
{
    assert(vacant() =~= seq![vacancy(), vacancy(), vacancy(), vacancy(), vacancy()]);
}

} // verus!
