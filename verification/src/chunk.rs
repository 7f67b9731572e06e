use crate::grid::Chunk;
use std::collections::HashMap;
use vstd::prelude::*;
use vstd::std_specs::hash::spec_hash_map_iter;
use vstd::std_specs::iter::IteratorSpec;

verus! {

/// The particles of a chunk in a bucket map, nothing where the chunk has no
/// bucket.
pub open spec fn members(buckets: Map<Chunk, Seq<usize>>, c: Chunk) -> Seq<usize> {
    if buckets.contains_key(c) {
        buckets[c]
    } else {
        Seq::empty()
    }
}

/// The particle indices from `lo` up to `hi`, `hi` left out, in increasing
/// order.
pub open spec fn particle_range(lo: int, hi: int) -> Seq<usize> {
    Seq::new((hi - lo) as nat, |k: int| (lo + k) as usize)
}

/// The particles with an index from `lo` up to `hi`, `hi` left out, that lie
/// in chunk `c`, in increasing order. `chunks[i]` is the chunk of particle `i`.
pub open spec fn occupants(chunks: Seq<Chunk>, c: Chunk, lo: int, hi: int) -> Seq<usize> {
    particle_range(lo, hi).filter(lies_in(chunks, c))
}

/// The test whether a particle lies in chunk `c`.
pub open spec fn lies_in(chunks: Seq<Chunk>, c: Chunk) -> spec_fn(usize) -> bool {
    |i: usize| chunks[i as int] == c
}

/// The index of the particles from `lo` up to `hi`, `hi` left out: a bucket
/// for each chunk that holds one of them, with the chunk's occupants.
pub open spec fn index_between(chunks: Seq<Chunk>, lo: int, hi: int) -> Map<Chunk, Seq<usize>> {
    Map::new(
        |c: Chunk| occupants(chunks, c, lo, hi).len() > 0,
        |c: Chunk| occupants(chunks, c, lo, hi),
    )
}

/// The index of all particles.
pub open spec fn spatial_index(chunks: Seq<Chunk>) -> Map<Chunk, Seq<usize>> {
    index_between(chunks, 0, chunks.len() as int)
}

/// Two bucket maps joined: a chunk of either has a bucket, which holds its
/// particles in `a` followed by its particles in `b`.
pub open spec fn merged_index(a: Map<Chunk, Seq<usize>>, b: Map<Chunk, Seq<usize>>) -> Map<
    Chunk,
    Seq<usize>,
> {
    Map::new(
        |c: Chunk| a.contains_key(c) || b.contains_key(c),
        |c: Chunk| members(a, c) + members(b, c),
    )
}

/// The indices of the runs between one cut and the next, merged from the
/// first run to the last.
pub open spec fn merged_runs(chunks: Seq<Chunk>, cuts: Seq<int>) -> Map<Chunk, Seq<usize>>
    decreases cuts.len(),
{
    if cuts.len() < 2 {
        Map::empty()
    } else {
        merged_index(
            merged_runs(chunks, cuts.drop_last()),
            index_between(chunks, cuts[cuts.len() - 2], cuts.last()),
        )
    }
}

/// A spatial index: for each occupied chunk the indices of the particles in
/// it. Its view maps each occupied chunk to its bucket.
///
/// An index can be built in parts: [`ChunkMap::insert`] takes the particles
/// of a run in, one after the other, and [`ChunkMap::merge`] joins the index
/// of a run with the index of the run that follows it.
#[derive(Debug)]
pub struct ChunkMap {
    buckets: HashMap<u128, Vec<usize>>,
}

/// The key under which a chunk's bucket is stored: the three coordinates as
/// the digits of a number in base 2^32.
spec fn key_of(c: Chunk) -> u128 {
    (c.0 * 0x1_0000_0000_0000_0000 + c.1 * 0x1_0000_0000 + c.2) as u128
}

proof fn lemma_key_of_injective(a: Chunk, b: Chunk)
    ensures
        key_of(a) == key_of(b) <==> a == b,
{
}

fn key(c: Chunk) -> (k: u128)
    ensures
        k == key_of(c),
{
    (c.0 as u128) * 0x1_0000_0000_0000_0000 + (c.1 as u128) * 0x1_0000_0000 + (c.2 as u128)
}

impl View for ChunkMap {
    type V = Map<Chunk, Seq<usize>>;

    closed spec fn view(&self) -> Map<Chunk, Seq<usize>> {
        Map::new(
            |c: Chunk| self.buckets@.contains_key(key_of(c)),
            |c: Chunk| self.buckets@[key_of(c)]@,
        )
    }
}

impl ChunkMap {
    /// No bucket is empty: a chunk has a bucket only while it holds a particle.
    #[verifier::type_invariant]
    spec fn occupied(&self) -> bool {
        forall|k: u128| #[trigger] self.buckets@.contains_key(k) ==> self.buckets@[k]@.len() > 0
    }

    /// An index without particles.
    pub fn new() -> (index: ChunkMap)
        ensures
            index@ == Map::<Chunk, Seq<usize>>::empty(),
    {
        ChunkMap { buckets: HashMap::new() }
    }

    /// The bucket of `chunk`, if it has one.
    pub fn get(&self, chunk: Chunk) -> (bucket: Option<&Vec<usize>>)
        ensures
            match bucket {
                Some(b) => self@.contains_key(chunk) && b@ == self@[chunk] && b@.len() > 0,
                None => !self@.contains_key(chunk),
            },
    {
        proof {
            use_type_invariant(self);
        }
        let k = key(chunk);
        self.buckets.get(&k)
    }

    /// Appends `particle` to the bucket of `chunk`, which is created if the
    /// chunk had none.
    pub fn insert(&mut self, chunk: Chunk, particle: usize)
        ensures
            final(self)@ == old(self)@.insert(chunk, members(old(self)@, chunk).push(particle)),
    {
        proof {
            use_type_invariant(&*self);
        }
        let k = key(chunk);
        // The map is taken out for the update: a bucket that is new is empty
        // until the particle is in it.
        let mut buckets = HashMap::new();
        std::mem::swap(&mut self.buckets, &mut buckets);
        buckets.entry(k).or_insert(Vec::new()).push(particle);
        self.buckets = buckets;
        proof {
            assert forall|c: Chunk| key_of(c) == k implies c == chunk by {
                lemma_key_of_injective(c, chunk);
            }
        }
    }

    /// The union of two indices: every chunk of either has a bucket, made of
    /// its particles in `self` followed by its particles in `other`.
    pub fn merge(self, other: ChunkMap) -> (merged: ChunkMap)
        ensures
            merged@ == merged_index(self@, other@),
    {
        proof {
            use_type_invariant(&self);
            use_type_invariant(&other);
        }
        let ChunkMap { buckets: mut joined } = self;
        let ghost ours = self.buckets@;
        let ghost theirs = other.buckets@;
        let ghost mut done: int = 0;
        for entry in it: other.buckets.iter()
            invariant
                theirs == other.buckets@,
                it.seq() == spec_hash_map_iter(&other.buckets).remaining(),
                it.index() == done,
                it.seq().no_duplicates(),
                merge_progress(ours, theirs, it.seq(), done, joined@),
        {
            let (k, bucket) = entry;
            let ghost before = joined@;
            assert(theirs.contains_key(*k) && theirs[*k] == *bucket && !visited(it.seq(), done, *k))
                by {
                let entries = it.seq();
                if visited(entries, done, *k) {
                    let j = choose|j: int| 0 <= j < done && *entries[j].0 == *k;
                    assert(theirs.contains_key(*entries[j].0) && theirs[*entries[j].0]
                        == *entries[j].1);
                }
            }
            extend_bucket(&mut joined, *k, bucket);
            assert(merge_progress(ours, theirs, it.seq(), done + 1, joined@)) by {
                let entries = it.seq();
                assert forall|j: u128| visited(entries, done + 1, j) <==> j == *k || visited(
                    entries,
                    done,
                    j,
                ) by {
                    if visited(entries, done + 1, j) {
                        let i = choose|i: int| 0 <= i < done + 1 && *entries[i].0 == j;
                        assert(i < done || j == *k);
                    }
                }
            }
            proof {
                done = done + 1;
            }
        }
        let merged = ChunkMap { buckets: joined };
        assert(merged@ =~= merged_index(self@, other@)) by {
            let entries = spec_hash_map_iter(&other.buckets).remaining();
            assert forall|k: u128| visited(entries, done, k) <==> theirs.contains_key(k) by {
                if theirs.contains_key(k) {
                    assert(entries.contains((&k, &theirs[k])));
                }
            }
            assert forall|c: Chunk| #[trigger]
                merged@.contains_key(c) <==> merged_index(self@, other@).contains_key(c) by {
                assert(joined@.contains_key(key_of(c)) <==> ours.contains_key(key_of(c))
                    || visited(entries, done, key_of(c)));
            }
        }
        merged
    }
}

/// How far a merge has come after the first `n` of `entries`, the buckets of
/// `theirs`, have been added to `ours`: `now` holds every key of `ours` and
/// every key met so far, each with what `ours` had followed by what `theirs`
/// had, if it was met.
spec fn merge_progress(
    ours: Map<u128, Vec<usize>>,
    theirs: Map<u128, Vec<usize>>,
    entries: Seq<(&u128, &Vec<usize>)>,
    n: int,
    now: Map<u128, Vec<usize>>,
) -> bool {
    &&& forall|k: u128| #[trigger]
        now.contains_key(k) <==> ours.contains_key(k) || visited(entries, n, k)
    &&& forall|k: u128| #[trigger]
        now.contains_key(k) ==> stored(now, k) == stored(ours, k) + (if visited(entries, n, k) {
            stored(theirs, k)
        } else {
            Seq::empty()
        })
}

/// The particles stored under a key, nothing where the key is absent.
spec fn stored(buckets: Map<u128, Vec<usize>>, k: u128) -> Seq<usize> {
    if buckets.contains_key(k) {
        buckets[k]@
    } else {
        Seq::empty()
    }
}

/// One of the first `n` entries of `entries` has the key `k`.
spec fn visited(entries: Seq<(&u128, &Vec<usize>)>, n: int, k: u128) -> bool {
    exists|j: int| 0 <= j < n && *entries[j].0 == k
}

/// Appends `items` to the bucket stored under `k`, which is created if the key
/// had none.
fn extend_bucket(buckets: &mut HashMap<u128, Vec<usize>>, k: u128, items: &Vec<usize>)
    ensures
        final(buckets)@.dom() == old(buckets)@.dom().insert(k),
        final(buckets)@[k]@ == stored(old(buckets)@, k) + items@,
        forall|j: u128|
            j != k && old(buckets)@.contains_key(j) ==> #[trigger] final(buckets)@[j] == old(
                buckets,
            )@[j],
{
    buckets.entry(k).or_insert(Vec::new()).extend_from_slice(items.as_slice());
}

/// Builds the spatial index of a snapshot: `chunks[i]` is the chunk in which
/// particle `i` lies.
pub fn initialize_chunkmap(chunks: &[Chunk]) -> (index: ChunkMap)
    ensures
        index@ == spatial_index(chunks@),
{
    let mut index = ChunkMap::new();
    let mut i: usize = 0;
    while i < chunks.len()
        invariant
            i <= chunks.len(),
            index@ == index_between(chunks@, 0, i as int),
        decreases chunks.len() - i,
    {
        index.insert(chunks[i], i);
        proof {
            lemma_index_step(chunks@, 0, i as int);
        }
        i += 1;
    }
    index
}

/// Taking one more particle into account appends it to the occupants of its
/// own chunk and leaves those of every other chunk as they were.
pub proof fn lemma_occupants_step(chunks: Seq<Chunk>, c: Chunk, lo: int, hi: int)
    requires
        0 <= lo <= hi < chunks.len(),
        hi <= usize::MAX,
    ensures
        occupants(chunks, c, lo, hi + 1) == if chunks[hi] == c {
            occupants(chunks, c, lo, hi).push(hi as usize)
        } else {
            occupants(chunks, c, lo, hi)
        },
{
    assert(particle_range(lo, hi + 1) =~= particle_range(lo, hi).push(hi as usize));
    particle_range(lo, hi).lemma_filter_push(hi as usize, lies_in(chunks, c));
}

/// Taking one more particle into an index appends it to the bucket of its
/// chunk: what [`ChunkMap::insert`] does to an index of the particles before
/// it.
pub proof fn lemma_index_step(chunks: Seq<Chunk>, lo: int, hi: int)
    requires
        0 <= lo <= hi < chunks.len(),
        hi <= usize::MAX,
    ensures
        index_between(chunks, lo, hi + 1) == index_between(chunks, lo, hi).insert(
            chunks[hi],
            members(index_between(chunks, lo, hi), chunks[hi]).push(hi as usize),
        ),
{
    let before = index_between(chunks, lo, hi);
    let stepped = before.insert(chunks[hi], members(before, chunks[hi]).push(hi as usize));
    let after = index_between(chunks, lo, hi + 1);
    assert forall|c: Chunk|
        #![trigger stepped.dom().contains(c)]
        #![trigger after.dom().contains(c)]
        stepped.dom().contains(c) == after.dom().contains(c) && (stepped.dom().contains(c)
            ==> stepped[c] == after[c]) by {
        lemma_occupants_step(chunks, c, lo, hi);
    }
}

/// What the occupants of a chunk are: particles of the range that lie in the
/// chunk, in strictly increasing order, none of them left out.
pub proof fn lemma_occupants(chunks: Seq<Chunk>, c: Chunk, lo: int, hi: int)
    requires
        0 <= lo <= hi <= chunks.len(),
        hi <= usize::MAX + 1,
    ensures
        forall|k: int|
            0 <= k < occupants(chunks, c, lo, hi).len() ==> {
                let p = #[trigger] occupants(chunks, c, lo, hi)[k];
                lo <= p < hi && chunks[p as int] == c
            },
        forall|j: int, k: int|
            0 <= j < k < occupants(chunks, c, lo, hi).len() ==> occupants(chunks, c, lo, hi)[j]
                < occupants(chunks, c, lo, hi)[k],
        forall|i: int|
            lo <= i < hi && chunks[i] == c ==> occupants(chunks, c, lo, hi).contains(i as usize),
    decreases hi - lo,
{
    if lo < hi {
        let last = hi - 1;
        let shorter = occupants(chunks, c, lo, last);
        lemma_occupants(chunks, c, lo, last);
        lemma_occupants_step(chunks, c, lo, last);
        let longer = occupants(chunks, c, lo, hi);
        assert forall|i: int| lo <= i < hi && chunks[i] == c implies longer.contains(
            i as usize,
        ) by {
            if i < last {
                let k = choose|k: int| 0 <= k < shorter.len() && shorter[k] == i as usize;
                assert(longer[k] == i as usize);
            } else {
                assert(longer[longer.len() - 1] == i as usize);
            }
        }
    }
}

/// Every particle stands in the bucket of its own chunk, a bucket holds
/// particles of its chunk only, and none of them twice: over all buckets each
/// particle index occurs exactly once.
pub proof fn lemma_index_complete(chunks: Seq<Chunk>)
    requires
        chunks.len() <= usize::MAX,
    ensures
        forall|i: int|
            0 <= i < chunks.len() ==> members(spatial_index(chunks), #[trigger] chunks[i]).contains(
                i as usize,
            ),
        forall|c: Chunk, p: usize| #[trigger]
            members(spatial_index(chunks), c).contains(p) ==> p < chunks.len() && chunks[p as int]
                == c,
        forall|c: Chunk| #[trigger] members(spatial_index(chunks), c).no_duplicates(),
{
    let n = chunks.len() as int;
    assert forall|i: int| 0 <= i < n implies members(
        spatial_index(chunks),
        #[trigger] chunks[i],
    ).contains(i as usize) by {
        lemma_occupants(chunks, chunks[i], 0, n);
    }
    assert forall|c: Chunk, p: usize| #[trigger]
        members(spatial_index(chunks), c).contains(p) implies p < n && chunks[p as int] == c by {
        lemma_occupants(chunks, c, 0, n);
    }
    assert forall|c: Chunk| #[trigger] members(spatial_index(chunks), c).no_duplicates() by {
        lemma_occupants(chunks, c, 0, n);
    }
}

/// The index of a range is the merge of the indices of its two parts,
/// wherever the range is cut: an index put together from parts does not
/// depend on where the parts end.
pub proof fn lemma_merge_adjacent(chunks: Seq<Chunk>, lo: int, mid: int, hi: int)
    requires
        lo <= mid <= hi,
    ensures
        merged_index(index_between(chunks, lo, mid), index_between(chunks, mid, hi))
            == index_between(chunks, lo, hi),
{
    let whole = index_between(chunks, lo, hi);
    let joined = merged_index(index_between(chunks, lo, mid), index_between(chunks, mid, hi));
    assert(particle_range(lo, hi) =~= particle_range(lo, mid) + particle_range(mid, hi));
    assert forall|c: Chunk|
        #![trigger whole.dom().contains(c)]
        #![trigger joined.dom().contains(c)]
        whole.dom().contains(c) == joined.dom().contains(c) && (whole.dom().contains(c)
            ==> whole[c] == joined[c]) by {
        Seq::filter_distributes_over_add(
            particle_range(lo, mid),
            particle_range(mid, hi),
            lies_in(chunks, c),
        );
    }
}

/// However a range is cut into runs, the indices of the runs merge into the
/// index of the range: the index does not depend on the number of parts nor
/// on where they end.
pub proof fn lemma_merge_runs(chunks: Seq<Chunk>, cuts: Seq<int>)
    requires
        cuts.len() >= 1,
        forall|m: int, n: int| 0 <= m <= n < cuts.len() ==> cuts[m] <= cuts[n],
    ensures
        merged_runs(chunks, cuts) == index_between(chunks, cuts.first(), cuts.last()),
    decreases cuts.len(),
{
    if cuts.len() == 1 {
        assert(particle_range(cuts[0], cuts[0]) =~= Seq::<usize>::empty());
        assert(index_between(chunks, cuts[0], cuts[0]) =~= Map::<Chunk, Seq<usize>>::empty());
    } else {
        let earlier = cuts.drop_last();
        lemma_merge_runs(chunks, earlier);
        lemma_merge_adjacent(chunks, cuts.first(), earlier.last(), cuts.last());
    }
}

/// Merging is associative, so the parts of an index can be joined in any
/// grouping.
pub proof fn lemma_merge_associative(
    a: Map<Chunk, Seq<usize>>,
    b: Map<Chunk, Seq<usize>>,
    c: Map<Chunk, Seq<usize>>,
)
    ensures
        merged_index(merged_index(a, b), c) == merged_index(a, merged_index(b, c)),
{
    let left = merged_index(merged_index(a, b), c);
    let right = merged_index(a, merged_index(b, c));
    assert forall|k: Chunk|
        #![trigger left.dom().contains(k)]
        #![trigger right.dom().contains(k)]
        left.dom().contains(k) == right.dom().contains(k) && (left.dom().contains(k) ==> left[k]
            == right[k]) by {
        assert((members(a, k) + members(b, k)) + members(c, k) =~= members(a, k) + (members(b, k)
            + members(c, k)));
    }
}

/// The empty index is neutral for merging on either side.
pub proof fn lemma_merge_empty(a: Map<Chunk, Seq<usize>>)
    ensures
        merged_index(a, Map::empty()) == a,
        merged_index(Map::empty(), a) == a,
{
    let none = Map::<Chunk, Seq<usize>>::empty();
    assert forall|k: Chunk| a.contains_key(k) implies members(a, k) + members(none, k) == a[k]
        && members(none, k) + members(a, k) == a[k] by {}
}

} // verus!
