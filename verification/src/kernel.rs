use crate::chunk::{lemma_index_complete, members, spatial_index, ChunkMap};
use crate::grid::{in_footprint, point_of, Chunk};
use vstd::prelude::*;

verus! {

/// The number of positions in the block of 3 x 3 x 3 chunks around a chunk.
pub const BLOCK: usize = 27;

/// The place of a chunk itself among the positions around it.
pub const CENTRE: usize = 13;

/// The `n`-th position around `h`: the positions are numbered by their
/// offset from `h`, from -1 to 1 on each axis, x first, then y, then z.
pub open spec fn position_at(h: Chunk, n: int) -> (int, int, int) {
    (h.0 + n / 9 - 1, h.1 + (n / 3) % 3 - 1, h.2 + n % 3 - 1)
}

/// The position is a chunk coordinate.
pub open spec fn is_chunk(p: (int, int, int)) -> bool {
    &&& 0 <= p.0 <= u32::MAX
    &&& 0 <= p.1 <= u32::MAX
    &&& 0 <= p.2 <= u32::MAX
}

/// The particles that the `n`-th position around `h` adds to the foreign
/// particles of `h`: those of the chunk there, and none for `h` itself or
/// for a position that is no chunk coordinate.
pub open spec fn foreign_at(index: Map<Chunk, Seq<usize>>, h: Chunk, n: int) -> Seq<usize> {
    let p = position_at(h, n);
    if n != CENTRE && is_chunk(p) {
        members(index, (p.0 as u32, p.1 as u32, p.2 as u32))
    } else {
        Seq::empty()
    }
}

/// The foreign particles of `h` that the first `n` positions around it add.
pub open spec fn foreign_upto(index: Map<Chunk, Seq<usize>>, h: Chunk, n: int) -> Seq<usize> {
    Seq::new(n as nat, |m: int| foreign_at(index, h, m)).flatten()
}

/// The foreign particles of `h`: the particles of the chunks next to it, in
/// the order of the positions and, within a chunk, of its bucket.
pub open spec fn foreign_particles(index: Map<Chunk, Seq<usize>>, h: Chunk) -> Seq<usize> {
    foreign_upto(index, h, BLOCK as int)
}

/// The work on one chunk: the particles that it updates and those that it
/// only reads.
#[derive(Debug, PartialEq, Eq)]
pub struct ChunkTask {
    /// The chunk whose particles are updated.
    pub chunk: Chunk,
    /// The particles of `chunk`.
    pub home: Vec<usize>,
    /// The particles of the chunks next to `chunk`.
    pub foreign: Vec<usize>,
}

impl ChunkTask {
    /// The task is the one that `index` gives for its chunk.
    pub open spec fn planned_from(&self, index: Map<Chunk, Seq<usize>>) -> bool {
        &&& index.contains_key(self.chunk)
        &&& self.home@ == index[self.chunk]
        &&& self.foreign@ == foreign_particles(index, self.chunk)
    }
}

/// What the next position around `h` adds comes after what the positions
/// before it have added.
proof fn lemma_foreign_step(index: Map<Chunk, Seq<usize>>, h: Chunk, n: int)
    requires
        0 <= n,
    ensures
        foreign_upto(index, h, n + 1) == foreign_upto(index, h, n) + foreign_at(index, h, n),
{
    let shorter = Seq::new(n as nat, |m: int| foreign_at(index, h, m));
    let longer = Seq::new((n + 1) as nat, |m: int| foreign_at(index, h, m));
    assert(longer =~= shorter.push(foreign_at(index, h, n)));
    shorter.lemma_flatten_push(foreign_at(index, h, n));
}

/// The coordinate one step of `d - 1` from `a`, where there is one.
fn shifted(a: u32, d: u8) -> (r: Option<u32>)
    requires
        d < 3,
    ensures
        match r {
            Some(b) => b == a + d - 1,
            None => a + d - 1 < 0 || a + d - 1 > u32::MAX,
        },
{
    if d == 0 {
        a.checked_sub(1)
    } else if d == 1 {
        Some(a)
    } else {
        a.checked_add(1)
    }
}

/// Plans the work on chunk `h`: its own particles and, from the chunks
/// around it, the foreign ones. There is no work where `h` has no bucket.
pub fn plan_task(index: &ChunkMap, h: Chunk) -> (task: Option<ChunkTask>)
    ensures
        match task {
            Some(t) => t.chunk == h && t.planned_from(index@) && t.home@.len() > 0,
            None => !index@.contains_key(h),
        },
{
    let home = match index.get(h) {
        Some(bucket) => bucket.clone(),
        None => { return None; },
    };
    let mut foreign: Vec<usize> = Vec::new();
    let mut dx: u8 = 0;
    while dx < 3
        invariant
            dx <= 3,
            foreign@ == foreign_upto(index@, h, 9 * dx),
        decreases 3 - dx,
    {
        let mut dy: u8 = 0;
        while dy < 3
            invariant
                dx < 3,
                dy <= 3,
                foreign@ == foreign_upto(index@, h, 9 * dx + 3 * dy),
            decreases 3 - dy,
        {
            let mut dz: u8 = 0;
            while dz < 3
                invariant
                    dx < 3,
                    dy < 3,
                    dz <= 3,
                    foreign@ == foreign_upto(index@, h, 9 * dx + 3 * dy + dz),
                decreases 3 - dz,
            {
                proof {
                    lemma_foreign_step(index@, h, 9 * dx + 3 * dy + dz);
                }
                if !(dx == 1 && dy == 1 && dz == 1) {
                    match (shifted(h.0, dx), shifted(h.1, dy), shifted(h.2, dz)) {
                        (Some(x), Some(y), Some(z)) => {
                            match index.get((x, y, z)) {
                                Some(bucket) => {
                                    foreign.extend_from_slice(bucket.as_slice());
                                },
                                None => {},
                            }
                        },
                        _ => {},
                    }
                }
                dz += 1;
            }
            dy += 1;
        }
        dx += 1;
    }
    Some(ChunkTask { chunk: h, home, foreign })
}

/// A foreign particle that the first `n` positions around `h` add comes from
/// one of those positions.
proof fn lemma_foreign_source(index: Map<Chunk, Seq<usize>>, h: Chunk, n: int, p: usize) -> (m: int)
    requires
        0 <= n,
        foreign_upto(index, h, n).contains(p),
    ensures
        0 <= m < n,
        foreign_at(index, h, m).contains(p),
    decreases n,
{
    if n == 0 {
        assert(foreign_upto(index, h, 0) =~= Seq::<usize>::empty());
        0
    } else {
        lemma_foreign_step(index, h, n - 1);
        let earlier = foreign_upto(index, h, n - 1);
        let latest = foreign_at(index, h, n - 1);
        let k = choose|k: int| 0 <= k < (earlier + latest).len() && (earlier + latest)[k] == p;
        if k < earlier.len() {
            lemma_foreign_source(index, h, n - 1, p)
        } else {
            n - 1
        }
    }
}

/// What a position around `h` adds is among the foreign particles that the
/// positions up to a later one add.
proof fn lemma_foreign_kept(index: Map<Chunk, Seq<usize>>, h: Chunk, m: int, n: int, p: usize)
    requires
        0 <= m < n,
        foreign_at(index, h, m).contains(p),
    ensures
        foreign_upto(index, h, n).contains(p),
    decreases n,
{
    lemma_foreign_step(index, h, n - 1);
    let earlier = foreign_upto(index, h, n - 1);
    let latest = foreign_at(index, h, n - 1);
    if m < n - 1 {
        lemma_foreign_kept(index, h, m, n - 1, p);
        let k = choose|k: int| 0 <= k < earlier.len() && earlier[k] == p;
        assert((earlier + latest)[k] == p);
    } else {
        let k = choose|k: int| 0 <= k < latest.len() && latest[k] == p;
        assert((earlier + latest)[earlier.len() + k] == p);
    }
}

/// The foreign particles of `h` are the particles of the other chunks in the
/// block around `h`.
pub proof fn lemma_foreign_particles(index: Map<Chunk, Seq<usize>>, h: Chunk, p: usize)
    ensures
        foreign_particles(index, h).contains(p) <==> exists|c: Chunk|
            c != h && in_footprint(h, point_of(c)) && #[trigger] members(index, c).contains(p),
{
    if foreign_particles(index, h).contains(p) {
        let m = lemma_foreign_source(index, h, BLOCK as int, p);
        let at = position_at(h, m);
        let c: Chunk = (at.0 as u32, at.1 as u32, at.2 as u32);
        assert(c != h && in_footprint(h, point_of(c)) && members(index, c).contains(p));
    }
    if exists|c: Chunk|
        c != h && in_footprint(h, point_of(c)) && #[trigger] members(index, c).contains(p) {
        let c = choose|c: Chunk|
            c != h && in_footprint(h, point_of(c)) && #[trigger] members(index, c).contains(p);
        let m = 9 * (c.0 - h.0 + 1) + 3 * (c.1 - h.1 + 1) + (c.2 - h.2 + 1);
        assert(foreign_at(index, h, m) == members(index, c));
        lemma_foreign_kept(index, h, m, BLOCK as int, p);
    }
}

/// A task planned from the index of a snapshot names particles of that
/// snapshot only.
pub proof fn lemma_planned_task_fits(chunks: Seq<Chunk>, task: ChunkTask)
    requires
        chunks.len() <= usize::MAX,
        task.planned_from(spatial_index(chunks)),
    ensures
        task.fits(chunks.len()),
{
    let index = spatial_index(chunks);
    lemma_index_complete(chunks);
    assert forall|k: int| 0 <= k < task.home@.len() implies #[trigger] task.home@[k]
        < chunks.len() by {
        assert(members(index, task.chunk).contains(task.home@[k]));
    }
    assert forall|k: int| 0 <= k < task.foreign@.len() implies #[trigger] task.foreign@[k]
        < chunks.len() by {
        let p = task.foreign@[k];
        lemma_foreign_particles(index, task.chunk, p);
    }
}

/// The particles at the given indices, as they stand in the store.
pub open spec fn picked<P>(store: Seq<P>, indices: Seq<usize>) -> Seq<P> {
    Seq::new(indices.len(), |k: int| store[indices[k] as int])
}

/// `end` can come out when a particle that starts as `start` meets the
/// particles of `others` one after the other.
pub open spec fn collided<P, C: Fn(P, &P) -> P>(collide: C, others: Seq<P>, start: P, end: P) -> bool
    decreases others.len(),
{
    if others.len() == 0 {
        end == start
    } else {
        exists|mid: P|
            collided(collide, others.drop_last(), start, mid) && #[trigger] call_ensures(
                collide,
                (mid, &others.last()),
                end,
            )
    }
}

/// `end` can be the new state of the home particle `i`: a copy of the
/// particle as it stands in the store meets every foreign particle in turn
/// and is then moved on.
pub open spec fn updated<P: Clone, C: Fn(P, &P) -> P, M: Fn(P) -> P>(
    collide: C,
    advance: M,
    store: Seq<P>,
    foreign: Seq<usize>,
    i: usize,
    end: P,
) -> bool {
    exists|copy: P, hit: P|
        cloned::<P>(store[i as int], copy) && #[trigger] collided(
            collide,
            picked(store, foreign),
            copy,
            hit,
        ) && call_ensures(advance, (hit,), end)
}

impl ChunkTask {
    /// Every particle of the task is one of the first `count` particles.
    pub open spec fn fits(&self, count: nat) -> bool {
        &&& forall|k: int| 0 <= k < self.home@.len() ==> #[trigger] self.home@[k] < count
        &&& forall|k: int| 0 <= k < self.foreign@.len() ==> #[trigger] self.foreign@[k] < count
    }
}

/// Runs the work on one chunk against the store as it stands. Each home
/// particle is copied, meets every foreign particle in turn through
/// `collide` and is moved on through `advance`; the foreign particles are only
/// read. The batch holds the new state of each home particle under its index,
/// in the order of `task.home`; the store itself is not changed.
pub fn run_task<P: Clone, C: Fn(P, &P) -> P, M: Fn(P) -> P>(
    store: &Vec<P>,
    task: &ChunkTask,
    collide: C,
    advance: M,
) -> (batch: Vec<(usize, P)>)
    requires
        task.fits(store@.len()),
        forall|a: P, b: &P| call_requires(collide, (a, b)),
        forall|a: P| call_requires(advance, (a,)),
    ensures
        batch@.len() == task.home@.len(),
        forall|k: int|
            0 <= k < batch@.len() ==> (#[trigger] batch@[k]).0 == task.home@[k] && updated(
                collide,
                advance,
                store@,
                task.foreign@,
                task.home@[k],
                batch@[k].1,
            ),
{
    let mut batch: Vec<(usize, P)> = Vec::new();
    let mut m: usize = 0;
    while m < task.home.len()
        invariant
            m <= task.home@.len(),
            task.fits(store@.len()),
            forall|a: P, b: &P| call_requires(collide, (a, b)),
            forall|a: P| call_requires(advance, (a,)),
            batch@.len() == m,
            forall|k: int|
                0 <= k < m ==> (#[trigger] batch@[k]).0 == task.home@[k] && updated(
                    collide,
                    advance,
                    store@,
                    task.foreign@,
                    task.home@[k],
                    batch@[k].1,
                ),
        decreases task.home@.len() - m,
    {
        let i = task.home[m];
        let copy = store[i].clone();
        let ghost first = copy;
        let mut particle = copy;
        let mut n: usize = 0;
        while n < task.foreign.len()
            invariant
                n <= task.foreign@.len(),
                task.fits(store@.len()),
                forall|a: P, b: &P| call_requires(collide, (a, b)),
                collided(collide, picked(store@, task.foreign@).take(n as int), first, particle),
            decreases task.foreign@.len() - n,
        {
            let j = task.foreign[n];
            let ghost mid = particle;
            particle = collide(particle, &store[j]);
            assert(collided(collide, picked(store@, task.foreign@).take(n + 1), first, particle))
                by {
                let others = picked(store@, task.foreign@).take(n + 1);
                assert(others.drop_last() =~= picked(store@, task.foreign@).take(n as int));
                assert(collided(collide, others.drop_last(), first, mid) && call_ensures(
                    collide,
                    (mid, &others.last()),
                    particle,
                ));
            }
            n += 1;
        }
        let ghost hit = particle;
        let moved = advance(particle);
        assert(updated(collide, advance, store@, task.foreign@, i, moved)) by {
            let others = picked(store@, task.foreign@);
            assert(others.take(task.foreign@.len() as int) =~= others);
            assert(cloned::<P>(store@[i as int], first) && collided(collide, others, first, hit)
                && call_ensures(advance, (hit,), moved));
        }
        batch.push((i, moved));
        m += 1;
    }
    batch
}

} // verus!
