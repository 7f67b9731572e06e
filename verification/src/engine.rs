use crate::chunk::{lemma_index_complete, members, spatial_index};
use crate::grid::{
    class_of, in_footprint, is_partition, lemma_partition_covers, lemma_same_class_apart, point_of,
    within, Chunk, CLASS_COUNT,
};
use crate::kernel::{
    foreign_particles, lemma_foreign_particles, lemma_planned_task_fits, picked, updated, ChunkTask,
};
use vstd::prelude::*;

verus! {

/// The store after the entries of `batch` have been written to it, one after
/// the other: each entry puts its particle at its index.
pub open spec fn committed<P>(store: Seq<P>, batch: Seq<(usize, P)>) -> Seq<P>
    decreases batch.len(),
{
    if batch.len() == 0 {
        store
    } else {
        committed(store, batch.drop_last()).update(batch.last().0 as int, batch.last().1)
    }
}

/// `i` is the index of one of the entries.
pub open spec fn writes_to<P>(batch: Seq<(usize, P)>, i: int) -> bool {
    exists|k: int| 0 <= k < batch.len() && #[trigger] batch[k].0 == i
}

/// No two entries have the same index.
pub open spec fn distinct_indices<P>(batch: Seq<(usize, P)>) -> bool {
    forall|j: int, k: int|
        0 <= j < k < batch.len() ==> (#[trigger] batch[j]).0 != (#[trigger] batch[k]).0
}

/// Writes a batch of updates to the store: each entry overwrites the particle
/// at its index, and no other particle changes.
pub fn commit<P>(store: &mut Vec<P>, batch: Vec<(usize, P)>)
    requires
        forall|k: int| 0 <= k < batch@.len() ==> (#[trigger] batch@[k]).0 < old(store)@.len(),
    ensures
        final(store)@ == committed(old(store)@, batch@),
{
    let ghost entries = batch@;
    let ghost mut done: int = 0;
    for entry in it: batch
        invariant
            it.seq() == entries,
            it.index() == done,
            store@.len() == old(store)@.len(),
            forall|k: int| 0 <= k < entries.len() ==> (#[trigger] entries[k]).0 < old(store)@.len(),
            store@ == committed(old(store)@, entries.take(done)),
    {
        let (i, particle) = entry;
        store[i] = particle;
        proof {
            assert(entries.take(done + 1).drop_last() =~= entries.take(done));
            done = done + 1;
        }
    }
    assert(entries.take(done) =~= entries);
}

/// A commit keeps the number of particles and changes none that the batch
/// does not write to.
pub proof fn lemma_committed_elsewhere<P>(store: Seq<P>, batch: Seq<(usize, P)>)
    requires
        forall|k: int| 0 <= k < batch.len() ==> (#[trigger] batch[k]).0 < store.len(),
    ensures
        committed(store, batch).len() == store.len(),
        forall|i: int|
            0 <= i < store.len() && !writes_to(batch, i) ==> #[trigger] committed(store, batch)[i]
                == store[i],
    decreases batch.len(),
{
    if batch.len() > 0 {
        let earlier = batch.drop_last();
        lemma_committed_elsewhere(store, earlier);
        assert forall|i: int| 0 <= i < store.len() && !writes_to(batch, i) implies #[trigger] committed(
            store,
            batch,
        )[i] == store[i] by {
            assert(batch[batch.len() - 1].0 != i);
            if writes_to(earlier, i) {
                let k = choose|k: int| 0 <= k < earlier.len() && #[trigger] earlier[k].0 == i;
                assert(batch[k].0 == i);
            }
        }
    }
}

/// Where no two entries have the same index, a commit leaves at the index of
/// each entry the particle of that entry.
pub proof fn lemma_committed_entries<P>(store: Seq<P>, batch: Seq<(usize, P)>)
    requires
        forall|k: int| 0 <= k < batch.len() ==> (#[trigger] batch[k]).0 < store.len(),
        distinct_indices(batch),
    ensures
        forall|k: int|
            0 <= k < batch.len() ==> committed(store, batch)[(#[trigger] batch[k]).0 as int]
                == batch[k].1,
    decreases batch.len(),
{
    if batch.len() > 0 {
        let earlier = batch.drop_last();
        lemma_committed_entries(store, earlier);
        lemma_committed_elsewhere(store, earlier);
        assert forall|k: int| 0 <= k < batch.len() implies committed(store, batch)[(
        #[trigger] batch[k]).0 as int] == batch[k].1 by {
            if k < batch.len() - 1 {
                assert(earlier[k] == batch[k]);
                assert(batch[k].0 != batch[batch.len() - 1].0);
            }
        }
    }
}

/// Two batches that write to different particles can be committed in either
/// order.
pub proof fn lemma_commits_commute<P>(store: Seq<P>, a: Seq<(usize, P)>, b: Seq<(usize, P)>)
    requires
        forall|k: int| 0 <= k < a.len() ==> (#[trigger] a[k]).0 < store.len(),
        forall|k: int| 0 <= k < b.len() ==> (#[trigger] b[k]).0 < store.len(),
        forall|j: int, k: int|
            0 <= j < a.len() && 0 <= k < b.len() ==> (#[trigger] a[j]).0 != (#[trigger] b[k]).0,
    ensures
        committed(committed(store, a), b) == committed(committed(store, b), a),
    decreases b.len(),
{
    lemma_committed_elsewhere(store, a);
    if b.len() > 0 {
        let earlier = b.drop_last();
        let at = b.last().0 as int;
        lemma_commits_commute(store, a, earlier);
        lemma_committed_elsewhere(store, earlier);
        lemma_update_then_commit(committed(store, earlier), a, at, b.last().1);
    }
}

/// Writing one particle and then committing a batch that does not write to
/// it gives the same store as committing first and writing then.
proof fn lemma_update_then_commit<P>(store: Seq<P>, batch: Seq<(usize, P)>, i: int, particle: P)
    requires
        0 <= i < store.len(),
        forall|k: int| 0 <= k < batch.len() ==> (#[trigger] batch[k]).0 < store.len(),
        !writes_to(batch, i),
    ensures
        committed(store.update(i, particle), batch) == committed(store, batch).update(i, particle),
    decreases batch.len(),
{
    if batch.len() > 0 {
        let earlier = batch.drop_last();
        let at = batch.last().0 as int;
        assert(batch[batch.len() - 1].0 != i);
        assert(!writes_to(earlier, i)) by {
            if writes_to(earlier, i) {
                let k = choose|k: int| 0 <= k < earlier.len() && #[trigger] earlier[k].0 == i;
                assert(batch[k].0 == i);
            }
        }
        lemma_update_then_commit(store, earlier, i, particle);
        lemma_committed_elsewhere(store, earlier);
        assert(committed(store, earlier).update(i, particle).update(at, batch.last().1)
            =~= committed(store, earlier).update(at, batch.last().1).update(i, particle));
    }
}

/// Two different chunks of one colour class can be worked on at the same
/// time: a particle that one of them updates is neither updated nor read by
/// the other.
pub proof fn lemma_siblings_do_not_conflict(chunks: Seq<Chunk>, a: Chunk, b: Chunk, p: usize)
    requires
        chunks.len() <= usize::MAX,
        a != b,
        class_of(a) == class_of(b),
        members(spatial_index(chunks), b).contains(p),
    ensures
        !members(spatial_index(chunks), a).contains(p),
        !foreign_particles(spatial_index(chunks), a).contains(p),
{
    let index = spatial_index(chunks);
    lemma_index_complete(chunks);
    lemma_same_class_apart(a, b);
    lemma_foreign_particles(index, a, p);
    if foreign_particles(index, a).contains(p) {
        let c = choose|c: Chunk|
            c != a && in_footprint(a, point_of(c)) && #[trigger] members(index, c).contains(p);
        assert(chunks[p as int] == c);
    }
}

/// What a task commits is not seen by a task on another chunk of the same
/// colour class: the particles that the other task reads stand in the store
/// as before, so it computes the same updates whether it runs before the
/// commit or after it.
pub proof fn lemma_sibling_commit_unseen<P: Clone, C: Fn(P, &P) -> P, M: Fn(P) -> P>(
    chunks: Seq<Chunk>,
    store: Seq<P>,
    committing: ChunkTask,
    batch: Seq<(usize, P)>,
    reading: ChunkTask,
    collide: C,
    advance: M,
)
    requires
        chunks.len() == store.len(),
        chunks.len() <= usize::MAX,
        committing.planned_from(spatial_index(chunks)),
        reading.planned_from(spatial_index(chunks)),
        committing.chunk != reading.chunk,
        class_of(committing.chunk) == class_of(reading.chunk),
        batch.len() == committing.home@.len(),
        forall|k: int| 0 <= k < batch.len() ==> (#[trigger] batch[k]).0 == committing.home@[k],
    ensures
        forall|k: int|
            0 <= k < reading.home@.len() ==> committed(store, batch)[(
            #[trigger] reading.home@[k]) as int] == store[reading.home@[k] as int],
        picked(committed(store, batch), reading.foreign@) == picked(store, reading.foreign@),
        forall|k: int, end: P|
            0 <= k < reading.home@.len() ==> (updated(
                collide,
                advance,
                committed(store, batch),
                reading.foreign@,
                reading.home@[k],
                end,
            ) <==> #[trigger] updated(
                collide,
                advance,
                store,
                reading.foreign@,
                reading.home@[k],
                end,
            )),
{
    let index = spatial_index(chunks);
    let after = committed(store, batch);
    lemma_planned_task_fits(chunks, committing);
    lemma_planned_task_fits(chunks, reading);
    lemma_committed_elsewhere(store, batch);
    assert forall|p: usize|
        members(index, reading.chunk).contains(p) || foreign_particles(
            index,
            reading.chunk,
        ).contains(p) implies !writes_to(batch, p as int) by {
        if writes_to(batch, p as int) {
            let k = choose|k: int| 0 <= k < batch.len() && #[trigger] batch[k].0 == p as int;
            assert(members(index, committing.chunk).contains(committing.home@[k]));
            lemma_siblings_do_not_conflict(chunks, reading.chunk, committing.chunk, p);
        }
    }
    assert forall|k: int| 0 <= k < reading.home@.len() implies after[(
    #[trigger] reading.home@[k]) as int] == store[reading.home@[k] as int] by {
        assert(members(index, reading.chunk).contains(reading.home@[k]));
    }
    assert(picked(after, reading.foreign@) =~= picked(store, reading.foreign@)) by {
        assert forall|k: int| 0 <= k < reading.foreign@.len() implies after[reading.foreign@[k] as int]
            == store[reading.foreign@[k] as int] by {
            assert(foreign_particles(index, reading.chunk).contains(reading.foreign@[k]));
        }
    }
}

/// Over the 27 classes of a partition each particle of the grid is updated
/// exactly once: its chunk stands in the list of one class, and only the
/// bucket of that chunk holds the particle.
pub proof fn lemma_each_particle_updated_once(
    chunks: Seq<Chunk>,
    groups: Seq<Seq<Chunk>>,
    last: Chunk,
    p: usize,
)
    requires
        chunks.len() <= usize::MAX,
        is_partition(groups, last),
        p < chunks.len(),
        within(chunks[p as int], last),
    ensures
        forall|class: int, c: Chunk|
            0 <= class < CLASS_COUNT && #[trigger] groups[class].contains(c) && #[trigger] members(
                spatial_index(chunks),
                c,
            ).contains(p) <==> class == class_of(chunks[p as int]) && c == chunks[p as int],
{
    let home = chunks[p as int];
    lemma_index_complete(chunks);
    lemma_partition_covers(groups, last, home);
    assert(members(spatial_index(chunks), chunks[p as int]).contains(p));
}

} // verus!
