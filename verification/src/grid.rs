use vstd::prelude::*;
use vstd::seq_lib::lemma_seq_contains_after_push;

verus! {

/// A chunk coordinate: the chunk's position along x, y and z.
pub type Chunk = (u32, u32, u32);

/// The number of colour classes: one per residue of a coordinate modulo 3 on
/// each axis.
pub const CLASS_COUNT: usize = 27;

/// The colour class of a chunk, a number below [`CLASS_COUNT`].
pub open spec fn class_of(c: Chunk) -> int {
    9 * (c.0 % 3) + 3 * (c.1 % 3) + (c.2 % 3)
}

/// `c` lies in the grid whose last chunk on each axis is given by `last`.
pub open spec fn within(c: Chunk, last: Chunk) -> bool {
    c.0 <= last.0 && c.1 <= last.1 && c.2 <= last.2
}

/// `a` comes before `b` in the order by x, then y, then z.
pub open spec fn precedes(a: Chunk, b: Chunk) -> bool {
    a.0 < b.0 || (a.0 == b.0 && (a.1 < b.1 || (a.1 == b.1 && a.2 < b.2)))
}

/// Each chunk of the list comes before the ones listed after it.
pub open spec fn ascending(list: Seq<Chunk>) -> bool {
    forall|m: int, n: int| 0 <= m < n < list.len() ==> precedes(list[m], list[n])
}

/// `list` holds the chunks of the grid that have the colour `class`, each
/// once, in ascending order.
pub open spec fn is_class_list(list: Seq<Chunk>, last: Chunk, class: int) -> bool {
    &&& ascending(list)
    &&& forall|c: Chunk| #[trigger] list.contains(c) <==> within(c, last) && class_of(c) == class
}

/// `groups` is the colour-class partition of the grid: one list per class.
pub open spec fn is_partition(groups: Seq<Seq<Chunk>>, last: Chunk) -> bool {
    &&& groups.len() == CLASS_COUNT
    &&& forall|class: int|
        0 <= class < CLASS_COUNT ==> is_class_list(#[trigger] groups[class], last, class)
}

/// The class lists of a partition as sequences.
pub open spec fn lists_of(groups: Seq<Vec<Chunk>>) -> Seq<Seq<Chunk>> {
    Seq::new(groups.len(), |class: int| groups[class]@)
}

/// The point `p` lies in the block of 3 x 3 x 3 chunks around `h`: no
/// further than one chunk from `h` on any axis.
pub open spec fn in_footprint(h: Chunk, p: (int, int, int)) -> bool {
    &&& h.0 - 1 <= p.0 <= h.0 + 1
    &&& h.1 - 1 <= p.1 <= h.1 + 1
    &&& h.2 - 1 <= p.2 <= h.2 + 1
}

/// The chunk `c` as a point.
pub open spec fn point_of(c: Chunk) -> (int, int, int) {
    (c.0 as int, c.1 as int, c.2 as int)
}

/// The colour class of a chunk.
pub fn class_index(c: Chunk) -> (class: usize)
    ensures
        class == class_of(c),
        class < CLASS_COUNT,
{
    ((c.0 % 3) * 9 + (c.1 % 3) * 3 + (c.2 % 3)) as usize
}

/// `c` comes before the position `(i, j, k)` of a walk through the grid by
/// x, then y, then z.
spec fn passed(c: Chunk, i: int, j: int, k: int) -> bool {
    c.0 < i || (c.0 == i && (c.1 < j || (c.1 == j && c.2 < k)))
}

/// The lists hold what a walk through the grid has passed on its way to
/// `(i, j, k)`, each chunk in the list of its class.
spec fn filled(groups: Seq<Vec<Chunk>>, last: Chunk, i: int, j: int, k: int) -> bool {
    &&& groups.len() == CLASS_COUNT
    &&& forall|class: int|
        0 <= class < CLASS_COUNT ==> ascending((#[trigger] groups[class])@)
    &&& forall|class: int, c: Chunk|
        0 <= class < CLASS_COUNT ==> (#[trigger] groups[class]@.contains(c) <==> within(c, last)
            && class_of(c) == class && passed(c, i, j, k))
}

/// Sorts the chunks of the grid `[0, last_chunk[0]] x [0, last_chunk[1]] x
/// [0, last_chunk[2]]` into the 27 colour classes. The list of a class holds
/// its chunks in ascending order. The lists hold every chunk of the grid, so
/// the number of chunks has to fit into a `usize`.
pub fn initialise_groups(last_chunk: [u32; 3]) -> (groups: Vec<Vec<Chunk>>)
    requires
        (last_chunk[0] + 1) * (last_chunk[1] + 1) * (last_chunk[2] + 1) <= usize::MAX,
    ensures
        groups@.len() == CLASS_COUNT,
        is_partition(lists_of(groups@), (last_chunk[0], last_chunk[1], last_chunk[2])),
{
    let ghost last: Chunk = (last_chunk[0], last_chunk[1], last_chunk[2]);
    let mut chunk_groups: Vec<Vec<Chunk>> = Vec::new();
    while chunk_groups.len() < CLASS_COUNT
        invariant
            chunk_groups.len() <= CLASS_COUNT,
            forall|class: int|
                0 <= class < chunk_groups.len() ==> (#[trigger] chunk_groups[class])@.len() == 0,
        decreases CLASS_COUNT - chunk_groups.len(),
    {
        chunk_groups.push(Vec::new());
    }
    let end_x: u64 = last_chunk[0] as u64 + 1;
    let end_y: u64 = last_chunk[1] as u64 + 1;
    let end_z: u64 = last_chunk[2] as u64 + 1;
    let mut i: u64 = 0;
    while i < end_x
        invariant
            end_x == last.0 + 1,
            end_y == last.1 + 1,
            end_z == last.2 + 1,
            i <= end_x,
            filled(chunk_groups@, last, i as int, 0, 0),
        decreases end_x - i,
    {
        let mut j: u64 = 0;
        while j < end_y
            invariant
                end_x == last.0 + 1,
                end_y == last.1 + 1,
                end_z == last.2 + 1,
                i < end_x,
                j <= end_y,
                filled(chunk_groups@, last, i as int, j as int, 0),
            decreases end_y - j,
        {
            let mut k: u64 = 0;
            while k < end_z
                invariant
                    end_x == last.0 + 1,
                    end_y == last.1 + 1,
                    end_z == last.2 + 1,
                    i < end_x,
                    j < end_y,
                    k <= end_z,
                    filled(chunk_groups@, last, i as int, j as int, k as int),
                decreases end_z - k,
            {
                let c: Chunk = (i as u32, j as u32, k as u32);
                let index = class_index(c);
                let ghost before = chunk_groups@;
                chunk_groups[index].push(c);
                proof {
                    let old_list = before[index as int]@;
                    let new_list = chunk_groups@[index as int]@;
                    assert forall|x: Chunk| new_list.contains(x) <==> old_list.contains(x) || x
                        == c by {
                        lemma_seq_contains_after_push(old_list, c, x);
                    }
                    assert forall|m: int, n: int| 0 <= m < n < new_list.len() implies precedes(
                        new_list[m],
                        new_list[n],
                    ) by {
                        if n == old_list.len() {
                            assert(old_list.contains(old_list[m]));
                        }
                    }
                }
                k += 1;
            }
            j += 1;
        }
        i += 1;
    }
    chunk_groups
}

/// Two different chunks of one colour class lie three chunks or more apart
/// on some axis.
pub proof fn lemma_same_class_apart(a: Chunk, b: Chunk)
    requires
        a != b,
        class_of(a) == class_of(b),
    ensures
        a.0 - b.0 >= 3 || b.0 - a.0 >= 3 || a.1 - b.1 >= 3 || b.1 - a.1 >= 3 || a.2 - b.2 >= 3
            || b.2 - a.2 >= 3,
{
    assert(a.0 % 3 == b.0 % 3 && a.1 % 3 == b.1 % 3 && a.2 % 3 == b.2 % 3);
}

/// The blocks around two different chunks of one colour class have no point
/// in common.
pub proof fn lemma_footprints_disjoint(a: Chunk, b: Chunk, p: (int, int, int))
    requires
        a != b,
        class_of(a) == class_of(b),
    ensures
        !(in_footprint(a, p) && in_footprint(b, p)),
{
    lemma_same_class_apart(a, b);
}

/// Two ascending lists with the same chunks are the same list.
pub proof fn lemma_ascending_unique(s: Seq<Chunk>, t: Seq<Chunk>)
    requires
        ascending(s),
        ascending(t),
        forall|c: Chunk| s.contains(c) <==> t.contains(c),
    ensures
        s == t,
    decreases s.len(),
{
    if s.len() == 0 {
        if t.len() > 0 {
            assert(t.contains(t[0]));
        }
    } else {
        let top = s.last();
        assert(s.contains(top));
        let q = choose|q: int| 0 <= q < t.len() && t[q] == top;
        assert(t.contains(t.last()));
        let r = choose|r: int| 0 <= r < s.len() && s[r] == t.last();
        assert(q == t.len() - 1) by {
            if q < t.len() - 1 {
                assert(precedes(t[q], t[t.len() - 1]));
                if r < s.len() - 1 {
                    assert(precedes(s[r], s[s.len() - 1]));
                }
            }
        }
        let s0 = s.drop_last();
        let t0 = t.drop_last();
        assert forall|c: Chunk| s0.contains(c) <==> t0.contains(c) by {
            if s0.contains(c) {
                let m = choose|m: int| 0 <= m < s0.len() && s0[m] == c;
                assert(precedes(s[m], s[s.len() - 1]));
                assert(s.contains(s[m]));
                let n = choose|n: int| 0 <= n < t.len() && t[n] == c;
                assert(t0[n] == c);
            }
            if t0.contains(c) {
                let n = choose|n: int| 0 <= n < t0.len() && t0[n] == c;
                assert(precedes(t[n], t[t.len() - 1]));
                assert(t.contains(t[n]));
                let m = choose|m: int| 0 <= m < s.len() && s[m] == c;
                assert(s0[m] == c);
            }
        }
        assert(ascending(s0) && ascending(t0));
        lemma_ascending_unique(s0, t0);
        assert(s =~= s0.push(top));
        assert(t =~= t0.push(top));
    }
}

/// A grid has one colour-class partition: building it again gives the same
/// lists, class by class.
pub proof fn lemma_partition_unique(a: Seq<Seq<Chunk>>, b: Seq<Seq<Chunk>>, last: Chunk)
    requires
        is_partition(a, last),
        is_partition(b, last),
    ensures
        a == b,
{
    assert forall|class: int| 0 <= class < CLASS_COUNT implies a[class] == b[class] by {
        assert(is_class_list(a[class], last, class) && is_class_list(b[class], last, class));
        lemma_ascending_unique(a[class], b[class]);
    }
}

/// In a partition every chunk of the grid stands in the list of its class
/// and in no other list.
pub proof fn lemma_partition_covers(groups: Seq<Seq<Chunk>>, last: Chunk, c: Chunk)
    requires
        is_partition(groups, last),
        within(c, last),
    ensures
        0 <= class_of(c) < CLASS_COUNT,
        groups[class_of(c)].contains(c),
        forall|class: int|
            0 <= class < CLASS_COUNT && class != class_of(c) ==> !(#[trigger] groups[class]).contains(
                c,
            ),
{
    assert(is_class_list(groups[class_of(c)], last, class_of(c)));
}

} // verus!
