//! Perimeters as a graph: two perimeters are neighbours if they run along a
//! common road.

use vstd::prelude::*;
use crate::block::{has_road, share_road, Perimeter};
use crate::ids::{RoadID, RoadSideID};
use crate::vecs::{lemma_assign, unassigned};

verus! {

/// Whether a perimeter runs along the road.
fn runs_along(p: &Perimeter, r: RoadID) -> (b: bool)
    ensures
        b == has_road(p@, r),
{
    let mut k: usize = 0;
    while k < p.roads.len()
        invariant
            k <= p.roads.len(),
            forall|j: int| 0 <= j < k ==> (#[trigger] p.roads@[j]).road != r,
        decreases p.roads.len() - k,
    {
        if p.roads[k].road == r {
            return true;
        }
        k = k + 1;
    }
    false
}

/// Whether two perimeters run along a common road.
pub fn are_neighbours(a: &Perimeter, b: &Perimeter) -> (r: bool)
    ensures
        r == share_road(a@, b@),
{
    let mut k: usize = 0;
    while k < a.roads.len()
        invariant
            k <= a.roads.len(),
            forall|j: int| 0 <= j < k ==> !has_road(b@, (#[trigger] a.roads@[j]).road),
        decreases a.roads.len() - k,
    {
        if runs_along(b, a.roads[k].road) {
            return true;
        }
        k = k + 1;
    }
    false
}

/// Whether colour `c` is taken for perimeter `i`: a neighbour before it has
/// that colour.
pub open spec fn colour_taken(
    input: Seq<Perimeter>,
    colours: Seq<usize>,
    i: int,
    c: usize,
) -> bool {
    exists|j: int| 0 <= j < i && share_road(input[i]@, #[trigger] input[j]@) && colours[j] == c
}

/// Whether the first `n` perimeters are coloured greedily: each has the
/// lowest colour below `num_colors` that is not taken for it.
pub open spec fn greedy(
    input: Seq<Perimeter>,
    colours: Seq<usize>,
    num_colors: usize,
    n: int,
) -> bool {
    &&& colours.len() == n
    &&& forall|i: int|
        0 <= i < n ==> {
            &&& (#[trigger] colours[i]) < num_colors
            &&& !colour_taken(input, colours, i, colours[i])
            &&& forall|c: usize| c < colours[i] ==> colour_taken(input, colours, i, c)
        }
}

impl Perimeter {
    /// Gives each perimeter one of `num_colors` colours so that no two
    /// neighbours have the same colour, going through the perimeters in their
    /// order and giving each the lowest colour that no neighbour before it
    /// has. `None` if the colours do not suffice for that.
    pub fn calculate_coloring(input: &Vec<Perimeter>, num_colors: usize) -> (res: Option<
        Vec<usize>,
    >)
        ensures
            match res {
                Some(colours) => greedy(input@, colours@, num_colors, input.len() as int),
                None => exists|colours: Seq<usize>, n: int|
                    0 <= n < input.len() && #[trigger] greedy(input@, colours, num_colors, n)
                        && forall|c: usize| c < num_colors ==> colour_taken(input@, colours, n, c),
            },
    {
        let mut assigned: Vec<usize> = Vec::new();
        let mut i: usize = 0;
        while i < input.len()
            invariant
                i <= input.len(),
                greedy(input@, assigned@, num_colors, i as int),
            decreases input.len() - i,
        {
            // Which colours do the neighbours before this one have?
            let mut available: Vec<bool> = Vec::new();
            let mut c: usize = 0;
            while c < num_colors
                invariant
                    c <= num_colors,
                    available.len() == c,
                    forall|x: int| 0 <= x < c ==> #[trigger] available[x],
                decreases num_colors - c,
            {
                available.push(true);
                c = c + 1;
            }
            let mut j: usize = 0;
            while j < i
                invariant
                    j <= i < input.len(),
                    available.len() == num_colors,
                    greedy(input@, assigned@, num_colors, i as int),
                    forall|x: int|
                        0 <= x < num_colors ==> (!(#[trigger] available[x]) <==> exists|w: int|
                            0 <= w < j && share_road(input@[i as int]@, #[trigger] input@[w]@)
                                && assigned@[w] == x),
                decreases i - j,
            {
                if are_neighbours(&input[i], &input[j]) {
                    let taken = assigned[j];
                    available[taken] = false;
                }
                j = j + 1;
            }
            // Take the lowest one that is left.
            let mut colour: usize = 0;
            while colour < num_colors && !available[colour]
                invariant
                    colour <= num_colors,
                    available.len() == num_colors,
                    forall|x: int| 0 <= x < colour ==> !#[trigger] available[x],
                decreases num_colors - colour,
            {
                colour = colour + 1;
            }
            if colour >= num_colors {
                proof {
                    assert forall|c: usize| c < num_colors implies colour_taken(
                        input@,
                        assigned@,
                        i as int,
                        c,
                    ) by {
                        assert(!available[c as int]);
                    }
                }
                return None;
            }
            let ghost before = assigned@;
            assigned.push(colour);
            proof {
                assert forall|x: int| 0 <= x < i + 1 implies {
                    &&& (#[trigger] assigned@[x]) < num_colors
                    &&& !colour_taken(input@, assigned@, x, assigned@[x])
                    &&& forall|c: usize| c < assigned@[x] ==> colour_taken(input@, assigned@, x, c)
                } by {
                    if x < i {
                        assert(before[x] == assigned@[x]);
                        assert(!colour_taken(input@, before, x, before[x]));
                        if colour_taken(input@, assigned@, x, assigned@[x]) {
                            let w = choose|w: int|
                                0 <= w < x && share_road(input@[x]@, #[trigger] input@[w]@)
                                    && assigned@[w] == assigned@[x];
                            assert(before[w] == assigned@[w]);
                            assert(colour_taken(input@, before, x, before[x]));
                        }
                        assert forall|c: usize| c < assigned@[x] implies colour_taken(
                            input@,
                            assigned@,
                            x,
                            c,
                        ) by {
                            assert(colour_taken(input@, before, x, c));
                            let w = choose|w: int|
                                0 <= w < x && share_road(input@[x]@, #[trigger] input@[w]@)
                                    && before[w] == c;
                            assert(assigned@[w] == c);
                        }
                    } else {
                        assert(available[colour as int]);
                        if colour_taken(input@, assigned@, x, colour) {
                            let w = choose|w: int|
                                0 <= w < x && share_road(input@[x]@, #[trigger] input@[w]@)
                                    && assigned@[w] == colour;
                            assert(before[w] == colour);
                        }
                        assert forall|c: usize| c < colour implies colour_taken(
                            input@,
                            assigned@,
                            x,
                            c,
                        ) by {
                            assert(!available[c as int]);
                            let w = choose|w: int|
                                0 <= w < i && share_road(input@[i as int]@, #[trigger] input@[w]@)
                                    && before[w] == c;
                            assert(assigned@[w] == c);
                        }
                    }
                }
            }
            i = i + 1;
        }
        Some(assigned)
    }
}

/// The sides of each of the perimeters.
pub open spec fn views(ps: Seq<Perimeter>) -> Seq<Seq<RoadSideID>> {
    Seq::new(ps.len(), |k: int| ps[k]@)
}

/// Those of the first `n` perimeters that belong to part `p`, in their order.
pub open spec fn grouped(input: Seq<Perimeter>, part_of: Seq<usize>, p: int, n: int) -> Seq<
    Seq<RoadSideID>,
>
    decreases n,
{
    if n <= 0 {
        Seq::empty()
    } else if part_of[n - 1] == p {
        grouped(input, part_of, p, n - 1).push(input[n - 1]@)
    } else {
        grouped(input, part_of, p, n - 1)
    }
}

/// Whether two perimeters are linked: they run along a common road for which
/// the predicate holds, whenever it is asked.
pub open spec fn linked<F: Fn(RoadID) -> bool>(
    predicate: &F,
    a: Seq<RoadSideID>,
    b: Seq<RoadSideID>,
) -> bool {
    exists|k: int|
        0 <= k < a.len() && has_road(b, #[trigger] a[k].road) && forall|answer: bool|
            call_ensures(*predicate, (a[k].road,), answer) ==> answer
}

/// Whether two perimeters may be linked: they run along a common road for
/// which the predicate can hold.
pub open spec fn may_link<F: Fn(RoadID) -> bool>(
    predicate: &F,
    a: Seq<RoadSideID>,
    b: Seq<RoadSideID>,
) -> bool {
    exists|k: int|
        0 <= k < a.len() && has_road(b, #[trigger] a[k].road) && call_ensures(
            *predicate,
            (a[k].road,),
            true,
        )
}

/// Whether perimeter `q` is the root of its part, with rank 0, or hangs on a
/// perimeter of its part of lower rank, to which it may be linked.
pub open spec fn rooted<F: Fn(RoadID) -> bool>(
    predicate: &F,
    input: Seq<Perimeter>,
    part_of: Seq<Option<usize>>,
    rank: Seq<int>,
    q: int,
) -> bool {
    rank[q] >= 0 && (rank[q] == 0 || exists|j: int|
        0 <= j < input.len() && #[trigger] part_of[j] == part_of[q] && 0 <= rank[j] < rank[q]
            && may_link(predicate, input[j]@, input[q]@))
}

/// Whether perimeter `s` is the first of part `p`: every perimeter before it
/// is in a part before `p`, and it is the only root of the part.
pub open spec fn first_of(part_of: Seq<Option<usize>>, rank: Seq<int>, p: int, s: int) -> bool {
    &&& 0 <= s < part_of.len()
    &&& part_of[s] == Some(p as usize)
    &&& forall|j: int|
        0 <= j < s ==> match #[trigger] part_of[j] {
            Some(x) => x < p,
            None => false,
        }
    &&& forall|i: int|
        0 <= i < part_of.len() && #[trigger] part_of[i] == Some(p as usize) && rank[i] == 0 ==> i
            == s
}

/// Whether part `p` has a first perimeter: see [`first_of`].
pub open spec fn has_first(part_of: Seq<Option<usize>>, rank: Seq<int>, p: int) -> bool {
    exists|s: int| #[trigger] first_of(part_of, rank, p, s)
}

/// Whether the parts hang together and come in the order of their first
/// perimeters: every perimeter that has a part is the root of the part or
/// hangs on a perimeter of lower rank (see [`rooted`]), and each of the
/// first `parts` parts has a first perimeter (see [`first_of`]). So every
/// perimeter of a part is joined to the first one by a chain of perimeters
/// of the part, each of which may be linked to the next.
pub open spec fn ranked<F: Fn(RoadID) -> bool>(
    predicate: &F,
    input: Seq<Perimeter>,
    part_of: Seq<Option<usize>>,
    rank: Seq<int>,
    parts: int,
) -> bool {
    &&& rank.len() == input.len()
    &&& part_of.len() == input.len()
    &&& forall|q: int|
        0 <= q < input.len() && (#[trigger] part_of[q]).is_some() ==> rooted(
            predicate,
            input,
            part_of,
            rank,
            q,
        )
    &&& forall|p: int| 0 <= p < parts ==> #[trigger] has_first(part_of, rank, p)
}

/// Giving a new part to the first perimeter that has none keeps the parts
/// in order: see [`ranked`].
pub proof fn lemma_rank_start<F: Fn(RoadID) -> bool>(
    predicate: &F,
    input: Seq<Perimeter>,
    before: Seq<Option<usize>>,
    after: Seq<Option<usize>>,
    rank: Seq<int>,
    start: int,
    z: usize,
)
    requires
        0 <= start < input.len(),
        before[start].is_none(),
        after == before.update(start, Some(z)),
        ranked(predicate, input, before, rank, z as int),
        forall|q: int|
            0 <= q < input.len() ==> match #[trigger] before[q] {
                Some(p) => p < z,
                None => q >= start,
            },
    ensures
        ranked(predicate, input, after, rank.update(start, 0), z + 1),
{
    let now = rank.update(start, 0);
    assert forall|q: int| 0 <= q < input.len() && (#[trigger] after[q]).is_some() implies rooted(
        predicate,
        input,
        after,
        now,
        q,
    ) by {
        if q != start {
            assert(before[q].is_some());
            assert(rooted(predicate, input, before, rank, q));
            if rank[q] != 0 {
                let j = choose|j: int|
                    0 <= j < input.len() && #[trigger] before[j] == before[q] && 0 <= rank[j]
                        < rank[q] && may_link(predicate, input[j]@, input[q]@);
                assert(after[j] == after[q]);
            }
        }
    }
    assert forall|p: int| 0 <= p < z + 1 implies #[trigger] has_first(after, now, p) by {
        if p < z {
            assert(has_first(before, rank, p));
            let s = choose|s: int| #[trigger] first_of(before, rank, p, s);
            assert forall|j: int| 0 <= j < s implies match #[trigger] after[j] {
                Some(x) => x < p,
                None => false,
            } by {
                assert(before[j].is_some());
            }
            assert(first_of(after, now, p, s));
        } else {
            assert forall|j: int| 0 <= j < start implies match #[trigger] after[j] {
                Some(x) => x < p,
                None => false,
            } by {
                assert(before[j].is_some());
            }
            assert(first_of(after, now, p, start));
        }
    }
}

/// Giving the part `z` to a perimeter that had none, which may be linked to
/// a perimeter of that part of lower rank, keeps the parts together and in
/// order: see [`ranked`].
pub proof fn lemma_rank_grow<F: Fn(RoadID) -> bool>(
    predicate: &F,
    input: Seq<Perimeter>,
    before: Seq<Option<usize>>,
    after: Seq<Option<usize>>,
    rank: Seq<int>,
    j: int,
    z: usize,
    from: int,
    r: int,
    parts: int,
)
    requires
        0 <= j < input.len(),
        before[j].is_none(),
        after == before.update(j, Some(z)),
        ranked(predicate, input, before, rank, parts),
        0 <= from < input.len(),
        before[from] == Some(z),
        0 <= rank[from] < r,
        may_link(predicate, input[from]@, input[j]@),
    ensures
        ranked(predicate, input, after, rank.update(j, r), parts),
{
    let now = rank.update(j, r);
    assert forall|q: int| 0 <= q < input.len() && (#[trigger] after[q]).is_some() implies rooted(
        predicate,
        input,
        after,
        now,
        q,
    ) by {
        if q != j {
            assert(rooted(predicate, input, before, rank, q));
            if rank[q] != 0 {
                let w = choose|w: int|
                    0 <= w < input.len() && #[trigger] before[w] == before[q] && 0 <= rank[w]
                        < rank[q] && may_link(predicate, input[w]@, input[q]@);
                assert(after[w] == after[q]);
            }
        } else {
            assert(after[from] == after[j]);
        }
    }
    assert forall|p: int| 0 <= p < parts implies #[trigger] has_first(after, now, p) by {
        assert(has_first(before, rank, p));
        let s = choose|s: int| #[trigger] first_of(before, rank, p, s);
        assert forall|x: int| 0 <= x < s implies match #[trigger] after[x] {
            Some(y) => y < p,
            None => false,
        } by {
            assert(before[x].is_some());
        }
        assert(first_of(after, now, p, s));
    }
}

/// Whether `results` are the perimeters `input` split into parts as `part_of`
/// says: every perimeter is in the part that `part_of` gives for it, in the
/// order of `input`, no part is empty, and linked perimeters are in the same
/// part. The parts hang together and come in the order of their first
/// perimeters, as the ranks show: see [`ranked`].
pub open spec fn partitioned<F: Fn(RoadID) -> bool>(
    predicate: &F,
    input: Seq<Perimeter>,
    results: Seq<Vec<Perimeter>>,
    part_of: Seq<usize>,
    rank: Seq<int>,
) -> bool {
    &&& part_of.len() == input.len()
    &&& ranked(
        predicate,
        input,
        Seq::new(part_of.len(), |q: int| Some(part_of[q])),
        rank,
        results.len() as int,
    )
    &&& forall|i: int| 0 <= i < input.len() ==> (#[trigger] part_of[i]) < results.len()
    &&& forall|p: int|
        0 <= p < results.len() ==> views((#[trigger] results[p])@) == grouped(
            input,
            part_of,
            p,
            input.len() as int,
        ) && results[p].len() > 0
    &&& forall|i: int, j: int|
        0 <= i < input.len() && 0 <= j < input.len() && linked(
            predicate,
            #[trigger] input[i]@,
            #[trigger] input[j]@,
        ) ==> part_of[i] == part_of[j]
}

/// Whether a perimeter belongs to part `p`.
pub open spec fn part_used(part_of: Seq<Option<usize>>, p: int) -> bool {
    exists|q: int| 0 <= q < part_of.len() && #[trigger] part_of[q] == Some(p as usize)
}

/// Whether every perimeter linked to perimeter `i` is in the part of `i`.
pub open spec fn settled<F: Fn(RoadID) -> bool>(
    predicate: &F,
    input: Seq<Perimeter>,
    part_of: Seq<Option<usize>>,
    i: int,
) -> bool {
    forall|j: int|
        0 <= j < input.len() && linked(predicate, input[i]@, #[trigger] input[j]@) ==> part_of[j]
            == part_of[i]
}

impl Perimeter {
    /// Splits the perimeters into parts so that two perimeters that run along
    /// a common road for which the predicate holds are in the same part: see
    /// [`partitioned`]. A part grows from its first perimeter by taking in
    /// every perimeter that is so linked to one of its members, so that its
    /// perimeters hang together; the parts come in the order of their first
    /// perimeters.
    pub fn partition_by_predicate<F: Fn(RoadID) -> bool>(input: Vec<Perimeter>,
        predicate: F) -> (results:
        Vec<Vec<Perimeter>>)
        requires
            forall|r: RoadID| call_requires(predicate, (r,)),
        ensures
            exists|part_of: Seq<usize>, rank: Seq<int>| #[trigger]
                partitioned(&predicate, input@, results@, part_of, rank),
    {
        let count = input.len();
        let mut part_of: Vec<Option<usize>> = Vec::new();
        let mut i: usize = 0;
        while i < count
            invariant
                i <= count,
                part_of.len() == i,
                forall|q: int| 0 <= q < i ==> (#[trigger] part_of[q]).is_none(),
            decreases count - i,
        {
            part_of.push(None);
            i = i + 1;
        }
        let mut parts: usize = 0;
        let mut start: usize = 0;
        let ghost mut rank: Seq<int> = Seq::new(count as nat, |q: int| 0int);
        while start < count
            invariant
                start <= count,
                count == input.len(),
                part_of.len() == count,
                parts <= start,
                ranked(&predicate, input@, part_of@, rank, parts as int),
                forall|r: RoadID| call_requires(predicate, (r,)),
                forall|q: int| 0 <= q < start ==> (#[trigger] part_of[q]).is_some(),
                forall|q: int|
                    0 <= q < count ==> match #[trigger] part_of[q] {
                        Some(p) => p < parts && settled(&predicate, input@, part_of@, q),
                        None => true,
                    },
                forall|p: int| 0 <= p < parts ==> #[trigger] part_used(part_of@, p),
            decreases count - start,
        {
            if part_of[start].is_none() {
                let z = parts;
                let mut members: Vec<usize> = Vec::new();
                members.push(start);
                let ghost marks = part_of@;
                part_of[start] = Some(z);
                let mut at: usize = 0;
                proof {
                    lemma_rank_start(&predicate, input@, marks, part_of@, rank, start as int, z);
                    rank = rank.update(start as int, 0);
                    assert(members@[0] == start);
                    assert forall|p: int| 0 <= p < parts implies #[trigger] part_used(
                        part_of@,
                        p,
                    ) by {
                        assert(part_used(marks, p));
                        let q = choose|q: int|
                            0 <= q < marks.len() && #[trigger] marks[q] == Some(p as usize);
                        assert(part_of@[q] == Some(p as usize));
                    }
                    lemma_marks_grow(&predicate, input@, marks, part_of@, start as int, z);
                }
                while at < members.len()
                    invariant
                        at <= members.len(),
                        members.len() > 0,
                        members@[0] == start,
                        start < count,
                        count == input.len(),
                        part_of.len() == count,
                        z == parts,
                        ranked(&predicate, input@, part_of@, rank, z + 1),
                        forall|m: int|
                            0 <= m < members.len() ==> rank[(#[trigger] members[m]) as int] == m,
                        parts <= start,
                        forall|r: RoadID| call_requires(predicate, (r,)),
                        forall|q: int| 0 <= q <= start ==> (#[trigger] part_of[q]).is_some(),
                        forall|m: int|
                            0 <= m < members.len() ==> (#[trigger] members[m]) < count
                                && part_of[members[m] as int] == Some(z),
                        forall|q: int|
                            0 <= q < count && #[trigger] part_of[q] == Some(z)
                                ==> members@.contains(q as usize),
                        forall|m: int|
                            0 <= m < at ==> settled(
                                &predicate,
                                input@,
                                part_of@,
                                #[trigger] members[m] as int,
                            ),
                        forall|q: int|
                            0 <= q < count ==> match #[trigger] part_of[q] {
                                Some(p) => p <= z && (p < z ==> settled(
                                    &predicate,
                                    input@,
                                    part_of@,
                                    q,
                                )),
                                None => true,
                            },
                        forall|p: int| 0 <= p < parts ==> #[trigger] part_used(part_of@, p),
                    decreases unassigned(part_of@, count as int) + members.len() - at,
                {
                    let cur = members[at];
                    let ghost measure = unassigned(part_of@, count as int) + members.len();
                    let sides = input[cur].roads.len();
                    let mut k: usize = 0;
                    while k < sides
                        invariant
                            k <= sides,
                            at < members.len(),
                            members@[0] == start,
                            cur == members[at as int],
                            cur < count,
                            sides == input@[cur as int].roads.len(),
                            start < count,
                            count == input.len(),
                            part_of.len() == count,
                            z == parts,
                            ranked(&predicate, input@, part_of@, rank, z + 1),
                            forall|m: int|
                                0 <= m < members.len() ==> rank[(#[trigger] members[m]) as int] == m,
                            parts <= start,
                            forall|r: RoadID| call_requires(predicate, (r,)),
                            forall|q: int| 0 <= q <= start ==> (#[trigger] part_of[q]).is_some(),
                            forall|m: int|
                                0 <= m < members.len() ==> (#[trigger] members[m]) < count
                                    && part_of[members[m] as int] == Some(z),
                            forall|q: int|
                                0 <= q < count && #[trigger] part_of[q] == Some(z)
                                    ==> members@.contains(q as usize),
                            forall|m: int|
                                0 <= m < at ==> settled(
                                    &predicate,
                                    input@,
                                    part_of@,
                                    #[trigger] members[m] as int,
                                ),
                            forall|q: int|
                                0 <= q < count ==> match #[trigger] part_of[q] {
                                    Some(p) => p <= z && (p < z ==> settled(
                                        &predicate,
                                        input@,
                                        part_of@,
                                        q,
                                    )),
                                    None => true,
                                },
                            forall|p: int| 0 <= p < parts ==> #[trigger] part_used(part_of@, p),
                            unassigned(part_of@, count as int) + members.len() == measure,
                            // Every perimeter linked to this one through one
                            // of its first `k` sides is in this part.
                            forall|j: int, x: int|
                                0 <= j < count && 0 <= x < k && has_road(
                                    #[trigger] input@[j]@,
                                    (#[trigger] input@[cur as int].roads[x]).road,
                                ) && (forall|answer: bool|
                                    call_ensures(
                                        predicate,
                                        (input@[cur as int].roads[x].road,),
                                        answer,
                                    ) ==> answer) ==> part_of[j] == Some(z),
                        decreases sides - k,
                    {
                        let road = input[cur].roads[k].road;
                        if predicate(road) {
                            let mut j: usize = 0;
                            while j < count
                                invariant
                                    j <= count,
                                    k < sides,
                                    at < members.len(),
                                    members@[0] == start,
                                    cur == members[at as int],
                                    cur < count,
                                    sides == input@[cur as int].roads.len(),
                                    road == input@[cur as int].roads[k as int].road,
                                    call_ensures(predicate, (road,), true),
                                    start < count,
                                    count == input.len(),
                                    part_of.len() == count,
                                    z == parts,
                                    ranked(&predicate, input@, part_of@, rank, z + 1),
                                    forall|m: int|
                                        0 <= m < members.len() ==> rank[(#[trigger] members[m]) as int] == m,
                                    parts <= start,
                                    forall|r: RoadID| call_requires(predicate, (r,)),
                                    forall|q: int|
                                        0 <= q <= start ==> (#[trigger] part_of[q]).is_some(),
                                    forall|m: int|
                                        0 <= m < members.len() ==> (#[trigger] members[m]) < count
                                            && part_of[members[m] as int] == Some(z),
                                    forall|q: int|
                                        0 <= q < count && #[trigger] part_of[q] == Some(z)
                                            ==> members@.contains(q as usize),
                                    forall|m: int|
                                        0 <= m < at ==> settled(
                                            &predicate,
                                            input@,
                                            part_of@,
                                            #[trigger] members[m] as int,
                                        ),
                                    forall|q: int|
                                        0 <= q < count ==> match #[trigger] part_of[q] {
                                            Some(p) => p <= z && (p < z ==> settled(
                                                &predicate,
                                                input@,
                                                part_of@,
                                                q,
                                            )),
                                            None => true,
                                        },
                                    forall|p: int| 0 <= p < parts
                                        ==> #[trigger] part_used(part_of@, p),
                                    unassigned(part_of@, count as int) + members.len() == measure,
                                    forall|w: int, x: int|
                                        0 <= w < count && 0 <= x < k && has_road(
                                            #[trigger] input@[w]@,
                                            (#[trigger] input@[cur as int].roads[x]).road,
                                        ) && (forall|answer: bool|
                                            call_ensures(
                                                predicate,
                                                (input@[cur as int].roads[x].road,),
                                                answer,
                                            ) ==> answer) ==> part_of[w] == Some(z),
                                    forall|w: int|
                                        0 <= w < j && has_road(#[trigger] input@[w]@, road) && (
                                        forall|answer: bool|
                                            call_ensures(predicate, (road,), answer) ==> answer)
                                            ==> part_of[w] == Some(z),
                                decreases count - j,
                            {
                                if runs_along(&input[j], road) {
                                    match part_of[j] {
                                        None => {
                                            let ghost marks = part_of@;
                                            let ghost grown = members@;
                                            proof {
                                                lemma_assign(part_of@, j as int, z, count as int);
                                            }
                                            part_of[j] = Some(z);
                                            members.push(j);
                                            proof {
                                                assert(may_link(
                                                    &predicate,
                                                    input@[cur as int]@,
                                                    input@[j as int]@,
                                                )) by {
                                                    assert(input@[cur as int]@[k as int].road
                                                        == road);
                                                    assert(has_road(
                                                        input@[j as int]@,
                                                        input@[cur as int]@[k as int].road,
                                                    ));
                                                }
                                                assert(rank[grown[at as int] as int] == at);
                                                lemma_rank_grow(
                                                    &predicate,
                                                    input@,
                                                    marks,
                                                    part_of@,
                                                    rank,
                                                    j as int,
                                                    z,
                                                    cur as int,
                                                    grown.len() as int,
                                                    z + 1,
                                                );
                                                rank = rank.update(j as int, grown.len() as int);
                                                assert forall|m: int|
                                                    0 <= m < members.len() implies rank[(
                                                #[trigger] members[m]) as int] == m by {
                                                    if m < grown.len() {
                                                        assert(members[m] == grown[m]);
                                                        assert(marks[grown[m] as int] == Some(z));
                                                    }
                                                }
                                                crate::id_set::lemma_push_contains(grown, j);
                                                lemma_marks_grow(
                                                    &predicate,
                                                    input@,
                                                    marks,
                                                    part_of@,
                                                    j as int,
                                                    z,
                                                );
                                                assert forall|m: int|
                                                    0 <= m < members.len() implies (
                                                #[trigger] members[m]) < count
                                                    && part_of[members[m] as int] == Some(z) by {
                                                    if m < grown.len() {
                                                        assert(members[m] == grown[m]);
                                                    }
                                                }
                                                assert forall|m: int| 0 <= m < at implies settled(
                                                    &predicate,
                                                    input@,
                                                    part_of@,
                                                    #[trigger] members[m] as int,
                                                ) by {
                                                    assert(members[m] == grown[m]);
                                                    assert(settled(
                                                        &predicate,
                                                        input@,
                                                        marks,
                                                        grown[m] as int,
                                                    ));
                                                }
                                                assert forall|p: int|
                                                    0 <= p < parts implies #[trigger] part_used(
                                                    part_of@,
                                                    p,
                                                ) by {
                                                    assert(part_used(marks, p));
                                                    let q = choose|q: int|
                                                        0 <= q < marks.len() && #[trigger] marks[q]
                                                            == Some(p as usize);
                                                    assert(part_of@[q] == Some(p as usize));
                                                }
                                            }
                                        },
                                        Some(p) => {
                                            proof {
                                                if forall|answer: bool|
                                                    call_ensures(predicate, (road,), answer)
                                                        ==> answer {
                                                    if p < z {
                                                        assert(settled(
                                                            &predicate,
                                                            input@,
                                                            part_of@,
                                                            j as int,
                                                        ));
                                                        let w = choose|w: int|
                                                            0 <= w < input@[j as int]@.len()
                                                                && #[trigger] input@[j as int]@[w].road
                                                                == road;
                                                        assert(has_road(
                                                            input@[cur as int]@,
                                                            input@[j as int]@[w].road,
                                                        )) by {
                                                            assert(input@[cur as int]@[k as int].road
                                                                == road);
                                                        }
                                                        assert(linked(
                                                            &predicate,
                                                            input@[j as int]@,
                                                            input@[cur as int]@,
                                                        ));
                                                        assert(false);
                                                    }
                                                }
                                            }
                                        },
                                    }
                                }
                                j = j + 1;
                            }
                        } else {
                            proof {
                                assert(!(forall|answer: bool|
                                    call_ensures(predicate, (road,), answer) ==> answer));
                            }
                        }
                        k = k + 1;
                    }
                    proof {
                        assert forall|j: int|
                            0 <= j < count && linked(
                                &predicate,
                                input@[cur as int]@,
                                #[trigger] input@[j]@,
                            ) implies part_of@[j] == part_of@[cur as int] by {
                            let x = choose|x: int|
                                0 <= x < input@[cur as int]@.len() && has_road(
                                    input@[j]@,
                                    #[trigger] input@[cur as int]@[x].road,
                                ) && forall|answer: bool|
                                    call_ensures(
                                        predicate,
                                        (input@[cur as int]@[x].road,),
                                        answer,
                                    ) ==> answer;
                            assert(has_road(input@[j]@, input@[cur as int].roads[x].road));
                        }
                    }
                    at = at + 1;
                }
                parts = parts + 1;
                proof {
                    assert(part_of[start as int] == Some(z));
                    assert forall|p: int| 0 <= p < parts implies #[trigger] part_used(
                        part_of@,
                        p,
                    ) by {
                        if p == z {
                            assert(part_of@[start as int] == Some(p as usize));
                        }
                    }
                    assert forall|q: int| 0 <= q < count implies match #[trigger] part_of[q] {
                        Some(p) => p < parts && settled(&predicate, input@, part_of@, q),
                        None => true,
                    } by {
                        match part_of[q] {
                            Some(p) => {
                                if p == z {
                                    assert(members@.contains(q as usize));
                                    let m = choose|m: int|
                                        0 <= m < members@.len() && members@[m] == q as usize;
                                    assert(settled(&predicate, input@, part_of@,
                                        members[m] as int));
                                }
                            },
                            None => {},
                        }
                    }
                }
            }
            start = start + 1;
        }
        // Hand the perimeters out to their parts.
        let mut results: Vec<Vec<Perimeter>> = Vec::new();
        let mut p: usize = 0;
        while p < parts
            invariant
                p <= parts,
                results.len() == p,
                forall|x: int| 0 <= x < p ==> (#[trigger] results[x])@.len() == 0,
            decreases parts - p,
        {
            results.push(Vec::new());
            p = p + 1;
        }
        let ghost assignment = Seq::new(count as nat, |q: int| part_of@[q].unwrap());
        proof {
            assert(Seq::new(assignment.len(), |q: int| Some(assignment[q])) =~= part_of@);
        }
        let mut i: usize = 0;
        proof {
            assert forall|x: int| 0 <= x < parts implies views((#[trigger] results[x])@) == grouped(
                input@,
                assignment,
                x,
                0,
            ) by {
                assert(views(results[x]@) =~= Seq::<Seq<RoadSideID>>::empty());
            }
        }
        while i < count
            invariant
                i <= count,
                count == input.len(),
                part_of.len() == count,
                results.len() == parts,
                assignment == Seq::new(count as nat, |q: int| part_of@[q].unwrap()),
                forall|q: int|
                    0 <= q < count ==> (#[trigger] part_of[q]).is_some() && part_of[q].unwrap()
                        < parts,
                forall|x: int|
                    0 <= x < parts ==> views((#[trigger] results[x])@) == grouped(
                        input@,
                        assignment,
                        x,
                        i as int,
                    ),
            decreases count - i,
        {
            let part = part_of[i].unwrap();
            let ghost before = results@;
            let copy = input[i].clone();
            results[part].push(copy);
            proof {
                assert(assignment[i as int] == part);
                assert forall|x: int| 0 <= x < parts implies views((#[trigger] results[x])@)
                    == grouped(input@, assignment, x, i + 1) by {
                    if x == part {
                        assert(views(results[x]@) =~= views(before[x]@).push(input@[i as int]@));
                    } else {
                        assert(results[x] == before[x]);
                    }
                }
            }
            i = i + 1;
        }
        proof {
            assert forall|x: int| 0 <= x < results.len() implies (#[trigger] results[x]).len()
                > 0 by {
                assert(part_used(part_of@, x));
                let q = choose|q: int|
                    0 <= q < part_of@.len() && #[trigger] part_of@[q] == Some(x as usize);
                lemma_grouped_holds(input@, assignment, x, count as int, q);
                assert(views(results[x]@).len() == results[x].len());
            }
            assert forall|a: int, b: int|
                0 <= a < input.len() && 0 <= b < input.len() && linked(
                    &predicate,
                    #[trigger] input@[a]@,
                    #[trigger] input@[b]@,
                ) implies assignment[a] == assignment[b] by {
                assert(settled(&predicate, input@, part_of@, a));
            }
            assert(partitioned(&predicate, input@, results@, assignment, rank));
        }
        results
    }
}

/// A part that a perimeter is assigned to holds a perimeter.
pub proof fn lemma_grouped_holds(input: Seq<Perimeter>, part_of: Seq<usize>, p: int, n: int, q: int)
    requires
        0 <= q < n,
        part_of[q] == p,
    ensures
        grouped(input, part_of, p, n).len() > 0,
    decreases n,
{
    if q < n - 1 {
        lemma_grouped_holds(input, part_of, p, n - 1, q);
    }
}

/// Giving a part to a perimeter that had none keeps every perimeter settled
/// that was settled and is of another part.
pub proof fn lemma_marks_grow<F: Fn(RoadID) -> bool>(
    predicate: &F,
    input: Seq<Perimeter>,
    before: Seq<Option<usize>>,
    after: Seq<Option<usize>>,
    j: int,
    z: usize,
)
    requires
        0 <= j < before.len(),
        before.len() == input.len(),
        before[j].is_none(),
        after == before.update(j, Some(z)),
        forall|q: int|
            0 <= q < input.len() ==> match #[trigger] before[q] {
                Some(p) => p <= z && (p < z ==> settled(predicate, input, before, q)),
                None => true,
            },
    ensures
        forall|q: int|
            0 <= q < input.len() ==> match #[trigger] after[q] {
                Some(p) => p <= z && (p < z ==> settled(predicate, input, after, q)),
                None => true,
            },
{
    assert forall|q: int| 0 <= q < input.len() implies match #[trigger] after[q] {
        Some(p) => p <= z && (p < z ==> settled(predicate, input, after, q)),
        None => true,
    } by {
        if q != j {
            assert(after[q] == before[q]);
            match before[q] {
                Some(p) => {
                    if p < z {
                        assert(settled(predicate, input, before, q));
                        assert forall|w: int|
                            0 <= w < input.len() && linked(
                                predicate,
                                input[q]@,
                                #[trigger] input[w]@,
                            ) implies after[w] == after[q] by {
                            assert(before[w] == before[q]);
                        }
                    }
                },
                None => {},
            }
        }
    }
}

} // verus!
