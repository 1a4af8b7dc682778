//! Blocks: the areas that roads enclose, and the perimeters that trace them.

use vstd::prelude::*;
use crate::adjacency::views;
use crate::geometry::Polygon;
use crate::id_set::lemma_push_contains;
use crate::ids::{RoadID, RoadSideID};
use crate::vecs::copy_vec;

verus! {

/// An area enclosed by roads. It may be a single city block without roads
/// inside, or a neighbourhood whose perimeter runs along major roads and
/// which has minor roads inside.
pub struct Block {
    pub perimeter: Perimeter,
    /// The shape of the area.
    pub polygon: Polygon,
}

/// A sequence of sides of roads that runs around an area, clockwise, and
/// ends with the side that it begins with.
#[derive(Debug)]
pub struct Perimeter {
    pub roads: Vec<RoadSideID>,
}

impl View for Perimeter {
    type V = Seq<RoadSideID>;

    open spec fn view(&self) -> Seq<RoadSideID> {
        self.roads@
    }
}

impl Clone for Perimeter {
    fn clone(&self) -> (p: Self)
        ensures
            p@ == self@,
    {
        Perimeter { roads: copy_vec(&self.roads) }
    }
}

/// Whether a sequence of road sides holds a side of the given road.
pub open spec fn has_road(sides: Seq<RoadSideID>, r: RoadID) -> bool {
    exists|k: int| 0 <= k < sides.len() && #[trigger] sides[k].road == r
}

/// Whether two sequences of road sides have a road in common.
pub open spec fn share_road(a: Seq<RoadSideID>, b: Seq<RoadSideID>) -> bool {
    exists|k: int| 0 <= k < a.len() && has_road(b, #[trigger] a[k].road)
}

/// The sequence turned so that it begins at position `k`.
pub open spec fn rotated(s: Seq<RoadSideID>, k: int) -> Seq<RoadSideID> {
    s.skip(k) + s.take(k)
}

/// The side before position `k`, going round.
pub open spec fn side_before(s: Seq<RoadSideID>, k: int) -> RoadSideID {
    if k == 0 {
        s[s.len() - 1]
    } else {
        s[k - 1]
    }
}

/// The first position at or after `k` where the run of sides passes from one
/// road to another, or the length of the sequence if there is none.
pub open spec fn next_corner(s: Seq<RoadSideID>, k: int) -> int
    decreases s.len() - k,
{
    if k < 0 || k >= s.len() {
        s.len() as int
    } else if s[k].road != side_before(s, k).road {
        k
    } else {
        next_corner(s, k + 1)
    }
}

/// The first `n` sides with every dead end folded away: where the run passes
/// along one side of a road and straight back along the other, both sides are
/// left out.
pub open spec fn folded(s: Seq<RoadSideID>, n: int) -> Seq<RoadSideID>
    decreases n,
{
    if n <= 0 {
        Seq::empty()
    } else {
        let before = folded(s, n - 1);
        if before.len() > 0 && before.last().road == s[n - 1].road {
            before.drop_last()
        } else {
            before.push(s[n - 1])
        }
    }
}

/// What is left of a run of sides that goes round, once it is turned to begin
/// at a corner and its dead ends are folded away.
pub open spec fn collapsed(s: Seq<RoadSideID>) -> Seq<RoadSideID> {
    let turned = rotated(s, next_corner(s, 0));
    folded(turned, turned.len() as int)
}

/// Folding leaves only sides that were there.
pub proof fn lemma_folded_within(s: Seq<RoadSideID>, n: int)
    requires
        0 <= n <= s.len(),
    ensures
        folded(s, n).len() <= n,
        forall|k: int| 0 <= k < folded(s, n).len() ==> s.contains(#[trigger] folded(s, n)[k]),
    decreases n,
{
    if n > 0 {
        lemma_folded_within(s, n - 1);
        let before = folded(s, n - 1);
        assert forall|k: int| 0 <= k < folded(s, n).len() implies s.contains(
            #[trigger] folded(s, n)[k],
        ) by {
            if k < before.len() {
                assert(s.contains(before[k]));
            } else {
                assert(s[n - 1] == folded(s, n)[k]);
            }
        }
    }
}

/// Turning a sequence keeps its sides.
pub proof fn lemma_rotated_same_sides(s: Seq<RoadSideID>, k: int)
    requires
        0 <= k <= s.len(),
    ensures
        rotated(s, k).len() == s.len(),
        forall|x: RoadSideID| rotated(s, k).contains(x) <==> s.contains(x),
{
    let t = rotated(s, k);
    assert forall|x: RoadSideID| t.contains(x) <==> s.contains(x) by {
        if t.contains(x) {
            let j = choose|j: int| 0 <= j < t.len() && t[j] == x;
            if j < s.len() - k {
                assert(s[j + k] == x);
            } else {
                assert(s[j - (s.len() - k)] == x);
            }
        }
        if s.contains(x) {
            let j = choose|j: int| 0 <= j < s.len() && s[j] == x;
            if j >= k {
                assert(t[j - k] == x);
            } else {
                assert(t[j + (s.len() - k)] == x);
            }
        }
    }
}

impl Perimeter {
    /// Whether the perimeter holds at least one side and ends with the side
    /// that it begins with.
    pub open spec fn wf(&self) -> bool {
        self.roads.len() >= 2 && self.roads[0] == self.roads[self.roads.len() - 1]
    }

    /// The sides of the perimeter without the repeated one at the end.
    pub open spec fn body(&self) -> Seq<RoadSideID> {
        self.roads@.drop_last()
    }

    /// Whether the dead ends of the perimeter can be folded away: the
    /// perimeter passes from one road to another somewhere, and not all of it
    /// folds away.
    pub open spec fn can_collapse(&self) -> bool {
        &&& self.wf()
        &&& next_corner(self.body(), 0) < self.body().len()
        &&& collapsed(self.body()).len() > 0
    }

    /// Whether the perimeter is sound: see [`Perimeter::wf`].
    pub fn is_well_formed(&self) -> (b: bool)
        ensures
            b == self.wf(),
    {
        self.roads.len() >= 2 && self.roads[0] == self.roads[self.roads.len() - 1]
    }

    /// Takes away the repeated side at the end.
    pub fn undo_invariant(&mut self)
        requires
            old(self).wf(),
        ensures
            final(self).roads@ == old(self).body(),
    {
        self.roads.pop();
    }

    /// Repeats the first side at the end.
    pub fn restore_invariant(&mut self)
        requires
            old(self).roads.len() >= 1,
        ensures
            final(self).roads@ == old(self).roads@.push(old(self).roads[0]),
            final(self).wf(),
    {
        let first = self.roads[0];
        self.roads.push(first);
    }

    /// Finds the first corner of a run of sides that goes round: see
    /// [`next_corner`].
    fn find_corner(sides: &Vec<RoadSideID>) -> (k: usize)
        ensures
            k == next_corner(sides@, 0),
            k <= sides.len(),
    {
        let mut k: usize = 0;
        while k < sides.len()
            invariant
                k <= sides.len(),
                next_corner(sides@, 0) == next_corner(sides@, k as int),
            decreases sides.len() - k,
        {
            let before = if k == 0 {
                sides[sides.len() - 1]
            } else {
                sides[k - 1]
            };
            if sides[k].road != before.road {
                return k;
            }
            k = k + 1;
        }
        k
    }

    /// Turns a run of sides to begin at its first corner and folds its dead
    /// ends away.
    fn collapse(sides: &Vec<RoadSideID>) -> (res: Vec<RoadSideID>)
        ensures
            res@ == collapsed(sides@),
    {
        let corner = Self::find_corner(sides);
        let mut turned: Vec<RoadSideID> = Vec::new();
        let mut k: usize = corner;
        while k < sides.len()
            invariant
                corner <= k <= sides.len(),
                turned@ == sides@.subrange(corner as int, k as int),
            decreases sides.len() - k,
        {
            turned.push(sides[k]);
            proof {
                assert(turned@ =~= sides@.subrange(corner as int, k + 1));
            }
            k = k + 1;
        }
        let mut k: usize = 0;
        while k < corner
            invariant
                k <= corner <= sides.len(),
                turned@ == sides@.skip(corner as int) + sides@.take(k as int),
            decreases corner - k,
        {
            turned.push(sides[k]);
            proof {
                assert(turned@ =~= sides@.skip(corner as int) + sides@.take(k + 1));
            }
            k = k + 1;
        }
        let mut roads: Vec<RoadSideID> = Vec::new();
        let mut n: usize = 0;
        while n < turned.len()
            invariant
                n <= turned.len(),
                roads@ == folded(turned@, n as int),
            decreases turned.len() - n,
        {
            let id = turned[n];
            if roads.len() > 0 && roads[roads.len() - 1].road == id.road {
                roads.pop();
            } else {
                roads.push(id);
            }
            n = n + 1;
        }
        roads
    }

    /// Whether the dead ends can be folded away: see
    /// [`Perimeter::can_collapse`].
    pub fn is_collapsible(&self) -> (b: bool)
        ensures
            b == self.can_collapse(),
    {
        if self.roads.len() < 2 || self.roads[0] != self.roads[self.roads.len() - 1] {
            return false;
        }
        let mut body = copy_vec(&self.roads);
        body.pop();
        let corner = Self::find_corner(&body);
        if corner >= body.len() {
            return false;
        }
        Self::collapse(&body).len() > 0
    }

    /// Folds away the dead ends of the perimeter: where it passes along one
    /// side of a road and straight back along the other, both sides are left
    /// out, so that the road comes to lie inside. The perimeter is turned to
    /// begin at a corner first, so that no dead end lies across its ends.
    pub fn collapse_deadends(&mut self)
        requires
            old(self).can_collapse(),
        ensures
            final(self).roads@ == collapsed(old(self).body()).push(collapsed(old(self).body())[0]),
            final(self).wf(),
    {
        self.undo_invariant();
        self.roads = Self::collapse(&self.roads);
        self.restore_invariant();
    }
}

/// Whether `b` is `a` turned to begin at another position.
pub open spec fn is_rotation(a: Seq<RoadSideID>, b: Seq<RoadSideID>) -> bool {
    exists|k: int| 0 <= k <= a.len() && b == #[trigger] rotated(a, k)
}

/// Whether the run of sides passes at position `k` from a road of `common` to
/// a road that is not.
pub open spec fn seam_at(s: Seq<RoadSideID>, common: Seq<RoadID>, k: int) -> bool {
    0 <= k < s.len() && !common.contains(s[k].road) && common.contains(side_before(s, k).road)
}

/// The roads along which both runs pass, each once, in the order in which
/// the first `n` sides of `a` come to them.
pub open spec fn common_of(a: Seq<RoadSideID>, b: Seq<RoadSideID>, n: int) -> Seq<RoadID>
    decreases n,
{
    if n <= 0 {
        Seq::empty()
    } else {
        let before = common_of(a, b, n - 1);
        let r = a[n - 1].road;
        if has_road(b, r) && !before.contains(r) {
            before.push(r)
        } else {
            before
        }
    }
}

/// The first seam at or after position `k` (see [`seam_at`]), or the length
/// of the run if there is none.
pub open spec fn first_seam(s: Seq<RoadSideID>, common: Seq<RoadID>, k: int) -> int
    decreases s.len() - k,
{
    if k < 0 || k >= s.len() {
        s.len() as int
    } else if seam_at(s, common, k) {
        k
    } else {
        first_seam(s, common, k + 1)
    }
}

/// Whether the last `n` sides of the run all lie along common roads.
pub open spec fn ends_common(s: Seq<RoadSideID>, common: Seq<RoadID>, n: int) -> bool {
    forall|j: int| s.len() - n <= j < s.len() ==> common.contains(#[trigger] s[j].road)
}

/// The run with its first side repeated at its end.
pub open spec fn closed(s: Seq<RoadSideID>) -> Seq<RoadSideID> {
    s.push(s[0])
}

/// Whether the dead ends of a perimeter with these sides can be folded away:
/// see [`Perimeter::can_collapse`].
pub open spec fn can_fold(roads: Seq<RoadSideID>) -> bool {
    &&& roads.len() >= 2
    &&& roads[0] == roads[roads.len() - 1]
    &&& next_corner(roads.drop_last(), 0) < roads.drop_last().len()
    &&& collapsed(roads.drop_last()).len() > 0
}

/// The sides of a perimeter with its dead ends folded away, where that can be
/// done, and the sides as they are where it cannot.
pub open spec fn tidied(roads: Seq<RoadSideID>) -> Seq<RoadSideID> {
    if can_fold(roads) {
        closed(collapsed(roads.drop_last()))
    } else {
        roads
    }
}

/// What becomes of two perimeters with the sides `a` and `b` when the second
/// is to be merged into the first: whether they are merged, and the sides of
/// both afterwards.
///
/// They are merged if they have a road in common, but neither runs along
/// common roads only; each passes somewhere from a common road to another
/// road; and each, turned to begin at the first such place, ends with as many
/// sides along common roads as there are common roads. Then those sides are
/// cut off both, what is left of the second is put behind what is left of
/// the first, and the dead ends of that are folded away. The second is left
/// without sides.
///
/// Otherwise both stay as they are, or, where only the last condition fails,
/// turned to begin at that place.
pub open spec fn merge_of(a: Seq<RoadSideID>, b: Seq<RoadSideID>) -> (
    bool,
    Seq<RoadSideID>,
    Seq<RoadSideID>,
) {
    let body1 = a.drop_last();
    let body2 = b.drop_last();
    let common = common_of(body1, body2, body1.len() as int);
    let n = common.len() as int;
    let k1 = first_seam(body1, common, 0);
    let k2 = first_seam(body2, common, 0);
    if n == 0 || body1.len() == n || body2.len() == n || k1 >= body1.len() || k2 >= body2.len() {
        (false, a, b)
    } else {
        let t1 = rotated(body1, k1);
        let t2 = rotated(body2, k2);
        if n >= t1.len() || n >= t2.len() || !ends_common(t1, common, n) || !ends_common(
            t2,
            common,
            n,
        ) {
            (false, closed(t1), closed(t2))
        } else {
            (true, tidied(closed(t1.take(t1.len() - n) + t2.take(t2.len() - n))), Seq::empty())
        }
    }
}

/// Whether a side of road `r` is among the sides.
fn holds_road(sides: &Vec<RoadSideID>, r: RoadID) -> (b: bool)
    ensures
        b == has_road(sides@, r),
{
    let mut k: usize = 0;
    while k < sides.len()
        invariant
            k <= sides.len(),
            forall|j: int| 0 <= j < k ==> (#[trigger] sides@[j]).road != r,
        decreases sides.len() - k,
    {
        if sides[k].road == r {
            return true;
        }
        k = k + 1;
    }
    false
}

/// The roads that both runs of sides pass along, each once.
fn common_roads(a: &Vec<RoadSideID>, b: &Vec<RoadSideID>) -> (common: Vec<RoadID>)
    ensures
        forall|r: RoadID| #[trigger] common@.contains(r) <==> (has_road(a@, r) && has_road(b@, r)),
        common@.no_duplicates(),
        common@ == common_of(a@, b@, a.len() as int),
{
    let mut common: Vec<RoadID> = Vec::new();
    let mut k: usize = 0;
    while k < a.len()
        invariant
            k <= a.len(),
            forall|r: RoadID| #[trigger]
                common@.contains(r) <==> (has_road(a@.take(k as int), r) && has_road(b@, r)),
            common@.no_duplicates(),
            common@ == common_of(a@, b@, k as int),
        decreases a.len() - k,
    {
        let r = a[k].road;
        let ghost before = common@;
        if holds_road(b, r) && !crate::vecs::vec_contains(&common, r) {
            common.push(r);
        }
        proof {
            lemma_push_contains(before, r);
            assert forall|x: RoadID| #[trigger]
                common@.contains(x) <==> (has_road(a@.take(k + 1), x) && has_road(b@, x)) by {
                assert(before.contains(x) <==> (has_road(a@.take(k as int), x) && has_road(b@, x)));
                if has_road(a@.take(k + 1), x) {
                    let j = choose|j: int|
                        0 <= j < a@.take(k + 1).len() && #[trigger] a@.take(k + 1)[j].road == x;
                    if j < k {
                        assert(a@.take(k as int)[j].road == x);
                    }
                }
                if has_road(a@.take(k as int), x) {
                    let j = choose|j: int|
                        0 <= j < a@.take(k as int).len() && #[trigger] a@.take(k as int)[j].road
                            == x;
                    assert(a@.take(k + 1)[j].road == x);
                }
                if x == r {
                    assert(a@.take(k + 1)[k as int].road == x);
                }
            }
        }
        k = k + 1;
    }
    proof {
        assert(a@.take(k as int) =~= a@);
    }
    common
}

/// The first position where the run passes from a common road to another
/// road: see [`seam_at`].
fn find_seam(sides: &Vec<RoadSideID>, common: &Vec<RoadID>) -> (res: Option<usize>)
    ensures
        match res {
            Some(k) => seam_at(sides@, common@, k as int) && k == first_seam(sides@, common@, 0),
            None => first_seam(sides@, common@, 0) == sides.len() && forall|k: int|
                !seam_at(sides@, common@, k),
        },
{
    let mut k: usize = 0;
    while k < sides.len()
        invariant
            k <= sides.len(),
            forall|j: int| 0 <= j < k ==> !seam_at(sides@, common@, j),
            first_seam(sides@, common@, 0) == first_seam(sides@, common@, k as int),
        decreases sides.len() - k,
    {
        let before = if k == 0 {
            sides[sides.len() - 1]
        } else {
            sides[k - 1]
        };
        if !crate::vecs::vec_contains(common, sides[k].road) && crate::vecs::vec_contains(
            common,
            before.road,
        ) {
            return Some(k);
        }
        k = k + 1;
    }
    None
}

/// The run turned to begin at position `k`.
fn rotate(sides: &Vec<RoadSideID>, k: usize) -> (res: Vec<RoadSideID>)
    requires
        k <= sides.len(),
    ensures
        res@ == rotated(sides@, k as int),
{
    let mut res: Vec<RoadSideID> = Vec::new();
    let mut j: usize = k;
    while j < sides.len()
        invariant
            k <= j <= sides.len(),
            res@ == sides@.subrange(k as int, j as int),
        decreases sides.len() - j,
    {
        res.push(sides[j]);
        proof {
            assert(res@ =~= sides@.subrange(k as int, j + 1));
        }
        j = j + 1;
    }
    let mut j: usize = 0;
    while j < k
        invariant
            j <= k <= sides.len(),
            res@ == sides@.skip(k as int) + sides@.take(j as int),
        decreases k - j,
    {
        res.push(sides[j]);
        proof {
            assert(res@ =~= sides@.skip(k as int) + sides@.take(j + 1));
        }
        j = j + 1;
    }
    res
}

/// Whether the last `n` sides all lie along common roads.
fn ends_in_common(sides: &Vec<RoadSideID>, common: &Vec<RoadID>, n: usize) -> (b: bool)
    requires
        n <= sides.len(),
    ensures
        b == ends_common(sides@, common@, n as int),
{
    let mut j: usize = sides.len() - n;
    while j < sides.len()
        invariant
            sides.len() - n <= j <= sides.len(),
            forall|x: int| sides.len() - n <= x < j ==> common@.contains(#[trigger] sides@[x].road),
        decreases sides.len() - j,
    {
        if !crate::vecs::vec_contains(common, sides[j].road) {
            return false;
        }
        j = j + 1;
    }
    true
}

/// A turned run, with its first side repeated at its end, is a perimeter that
/// is the old one turned, with the same sides.
proof fn lemma_rotation_of_body(body: Seq<RoadSideID>, k: int)
    requires
        0 <= k <= body.len(),
        body.len() >= 1,
    ensures
        rotated(body, k).push(rotated(body, k)[0]).drop_last() == rotated(body, k),
        is_rotation(body, rotated(body, k)),
        forall|x: RoadSideID|
            rotated(body, k).push(rotated(body, k)[0]).contains(x) <==> body.push(body[0]).contains(
                x,
            ),
{
    let t = rotated(body, k);
    assert(t.push(t[0]).drop_last() =~= t);
    lemma_rotated_same_sides(body, k);
    lemma_push_contains(t, t[0]);
    lemma_push_contains(body, body[0]);
    assert(t.contains(t[0]));
    assert(body.contains(body[0]));
}

impl Perimeter {
    /// Tries to merge another perimeter into this one. That succeeds if the
    /// two run along common roads in one stretch each, so that the area which
    /// the merged perimeter encloses has no hole. Then this perimeter becomes
    /// the merged one, with its dead ends folded away where that can be done,
    /// and `other` is left empty. Otherwise both perimeters stay what they
    /// are, though they may be turned to begin at another side.
    pub fn try_to_merge(&mut self, other: &mut Perimeter) -> (merged: bool)
        requires
            old(self).wf(),
            old(other).wf(),
        ensures
            final(self).wf(),
            !merged ==> final(other).wf() && is_rotation(old(self).body(), final(self).body())
                && is_rotation(old(other).body(), final(other).body()),
            !merged ==> forall|x: RoadSideID|
                (final(self).roads@.contains(x) <==> old(self).roads@.contains(x))
                    && (final(other).roads@.contains(x) <==> old(other).roads@.contains(x)),
            merged ==> share_road(old(self).body(), old(other).body()) && forall|k: int|
                0 <= k < final(self).roads.len() ==> old(self).roads@.contains(
                    #[trigger] final(self).roads[k],
                ) || old(other).roads@.contains(final(self).roads[k]),
            merged == merge_of(old(self).roads@, old(other).roads@).0,
            final(self).roads@ == merge_of(old(self).roads@, old(other).roads@).1,
            final(other).roads@ == merge_of(old(self).roads@, old(other).roads@).2,
    {
        self.undo_invariant();
        other.undo_invariant();
        let ghost body1 = self.roads@;
        let ghost body2 = other.roads@;
        proof {
            assert(rotated(body1, 0) =~= body1);
            assert(rotated(body2, 0) =~= body2);
            assert(old(self).roads@ =~= body1.push(body1[0]));
            assert(old(other).roads@ =~= body2.push(body2[0]));
        }
        let common = common_roads(&self.roads, &other.roads);
        if common.len() == 0 || self.roads.len() == common.len() || other.roads.len()
            == common.len() {
            self.restore_invariant();
            other.restore_invariant();
            proof {
                lemma_rotation_of_body(body1, 0);
                lemma_rotation_of_body(body2, 0);
                assert(self.body() =~= rotated(body1, 0));
                assert(other.body() =~= rotated(body2, 0));
            }
            return false;
        }
        // Turn both so that the common roads come last.
        let seam1 = find_seam(&self.roads, &common);
        let seam2 = find_seam(&other.roads, &common);
        let (k1, k2) = match (seam1, seam2) {
            (Some(k1), Some(k2)) => (k1, k2),
            _ => {
                self.restore_invariant();
                other.restore_invariant();
                proof {
                    lemma_rotation_of_body(body1, 0);
                    lemma_rotation_of_body(body2, 0);
                    assert(self.body() =~= rotated(body1, 0));
                    assert(other.body() =~= rotated(body2, 0));
                }
                return false;
            },
        };
        self.roads = rotate(&self.roads, k1);
        other.roads = rotate(&other.roads, k2);
        proof {
            lemma_rotated_same_sides(body1, k1 as int);
            lemma_rotated_same_sides(body2, k2 as int);
        }
        let n = common.len();
        if n >= self.roads.len() || n >= other.roads.len() || !ends_in_common(
            &self.roads,
            &common,
            n,
        ) || !ends_in_common(&other.roads, &common, n) {
            self.restore_invariant();
            other.restore_invariant();
            proof {
                lemma_rotation_of_body(body1, k1 as int);
                lemma_rotation_of_body(body2, k2 as int);
                assert(self.body() =~= rotated(body1, k1 as int));
                assert(other.body() =~= rotated(body2, k2 as int));
            }
            return false;
        }
        // Cut the common roads off both, and join what is left.
        let ghost turned1 = self.roads@;
        let ghost turned2 = other.roads@;
        self.roads.truncate(self.roads.len() - n);
        other.roads.truncate(other.roads.len() - n);
        self.roads.append(&mut other.roads);
        self.restore_invariant();
        proof {
            assert(self.roads@ =~= closed(
                turned1.take(turned1.len() - n) + turned2.take(turned2.len() - n),
            ));
            assert(common@.contains(common@[0]));
            let r = common@[0];
            let w = choose|w: int| 0 <= w < body1.len() && #[trigger] body1[w].road == r;
            assert(has_road(body2, body1[w].road));
            assert forall|k: int| 0 <= k < self.roads.len() implies old(self).roads@.contains(
                #[trigger] self.roads[k],
            ) || old(other).roads@.contains(self.roads[k]) by {
                let x = self.roads[k];
                if turned1.contains(x) {
                    assert(body1.contains(x));
                    let j = choose|j: int| 0 <= j < body1.len() && body1[j] == x;
                    assert(old(self).roads@[j] == x);
                } else {
                    assert(turned2.contains(x)) by {
                        if k < turned1.len() - n {
                            assert(turned1[k] == x);
                        } else if k < turned1.len() - n + turned2.len() - n {
                            assert(turned2[k - (turned1.len() - n)] == x);
                        } else {
                            assert(turned1[0] == x);
                        }
                    }
                    assert(body2.contains(x));
                    let j = choose|j: int| 0 <= j < body2.len() && body2[j] == x;
                    assert(old(other).roads@[j] == x);
                }
            }
        }
        if self.is_collapsible() {
            let ghost joined = self.roads@;
            self.collapse_deadends();
            proof {
                let body = joined.drop_last();
                let corner = next_corner(body, 0);
                lemma_next_corner_bound(body, 0);
                lemma_rotated_same_sides(body, corner);
                lemma_folded_within(rotated(body, corner), rotated(body, corner).len() as int);
                assert forall|k: int| 0 <= k < self.roads.len() implies joined.contains(
                    #[trigger] self.roads[k],
                ) by {
                    let x = self.roads[k];
                    let c = collapsed(body);
                    if k < c.len() {
                        assert(c[k] == x);
                    } else {
                        assert(c[0] == x);
                    }
                    assert(rotated(body, corner).contains(x));
                    assert(body.contains(x));
                    let j = choose|j: int| 0 <= j < body.len() && body[j] == x;
                    assert(joined[j] == x);
                }
            }
        }
        true
    }
}

/// The first corner lies within the sequence or at its end.
pub proof fn lemma_next_corner_bound(s: Seq<RoadSideID>, k: int)
    requires
        0 <= k <= s.len(),
    ensures
        k <= next_corner(s, k) <= s.len(),
    decreases s.len() - k,
{
    if k < s.len() && s[k].road == side_before(s, k).road {
        lemma_next_corner_bound(s, k + 1);
    }
}

/// Whether every side of every one of the perimeters is in `bound`.
pub open spec fn sides_within(ps: Seq<Perimeter>, bound: Set<RoadSideID>) -> bool {
    forall|k: int, j: int|
        0 <= k < ps.len() && 0 <= j < ps[k].roads.len()
            ==> bound.contains(#[trigger] ps[k].roads[j])
}

/// All the sides of the perimeters.
pub open spec fn all_sides(ps: Seq<Perimeter>) -> Set<RoadSideID> {
    Set::new(
        |x: RoadSideID|
            exists|k: int, j: int|
                0 <= k < ps.len() && 0 <= j < ps[k].roads.len() && #[trigger] ps[k].roads[j] == x,
    )
}

/// Whether every one of the perimeters is sound.
pub open spec fn all_wf(ps: Seq<Perimeter>) -> bool {
    forall|k: int| 0 <= k < ps.len() ==> (#[trigger] ps[k]).wf()
}

/// The sides of each perimeter with its dead ends folded away: see
/// [`tidied`].
pub open spec fn tidy_all(ps: Seq<Seq<RoadSideID>>) -> Seq<Seq<RoadSideID>> {
    Seq::new(ps.len(), |k: int| tidied(ps[k]))
}

/// What becomes of the perimeters `found` and of one more, `p`, when `p` is
/// tried on them in their order, from position `j` on, until it is merged
/// into one of them (see [`merge_of`]): the perimeters afterwards, and `p` as
/// it then is if it was merged into none.
pub open spec fn absorbed(found: Seq<Seq<RoadSideID>>, p: Seq<RoadSideID>, j: int) -> (
    Seq<Seq<RoadSideID>>,
    Option<Seq<RoadSideID>>,
)
    decreases found.len() - j,
{
    if j < 0 || j >= found.len() {
        (found, Some(p))
    } else {
        let m = merge_of(found[j], p);
        if m.0 {
            (found.update(j, m.1), None)
        } else {
            absorbed(found.update(j, m.1), m.2, j + 1)
        }
    }
}

/// One pass over the first `n` of the perimeters: each is merged into the
/// first of those found before it with which it can be merged (see
/// [`absorbed`]), and is itself found if there is none. With `stepwise`,
/// those after the first merge are found as they are. The result is what
/// was found, and whether a merge was made with `stepwise`.
pub open spec fn pass(input: Seq<Seq<RoadSideID>>, stepwise: bool, n: int) -> (
    Seq<Seq<RoadSideID>>,
    bool,
)
    decreases n,
{
    if n <= 0 {
        (Seq::empty(), false)
    } else {
        let before = pass(input, stepwise, n - 1);
        if before.1 {
            (before.0.push(input[n - 1]), true)
        } else {
            let tried = absorbed(before.0, input[n - 1], 0);
            match tried.1 {
                None => (tried.0, stepwise),
                Some(p) => (tried.0.push(p), false),
            }
        }
    }
}

/// Passes over the perimeters (see [`pass`]), again and again as long as a
/// pass leaves more than one perimeter and fewer than it was given. With
/// `stepwise` there is one pass only.
pub open spec fn rounds(input: Seq<Seq<RoadSideID>>, stepwise: bool) -> Seq<Seq<RoadSideID>>
    decreases input.len(),
{
    let found = pass(input, stepwise, input.len() as int).0;
    if found.len() > 1 && found.len() < input.len() && !stepwise {
        rounds(found, stepwise)
    } else {
        found
    }
}

impl Perimeter {
    /// Merges the given perimeters as far as they can be merged: see
    /// [`Perimeter::try_to_merge`]. No perimeter is lost: one that cannot be
    /// merged with another comes back as it is, though maybe turned. First
    /// the dead ends of every perimeter are folded away, where that can be
    /// done; then the perimeters are passed over until a pass merges none
    /// (see [`rounds`]). If `stepwise_debug`, at most one merge is made.
    pub fn merge_all(input: Vec<Perimeter>, stepwise_debug: bool) -> (results: Vec<Perimeter>)
        requires
            all_wf(input@),
        ensures
            all_wf(results@),
            results.len() <= input.len(),
            input.len() > 0 ==> results.len() > 0,
            sides_within(results@, all_sides(input@)),
            views(results@) == rounds(tidy_all(views(input@)), stepwise_debug),
    {
        let ghost bound = all_sides(input@);
        let ghost given = input@.len();
        let ghost goal = rounds(tidy_all(views(input@)), stepwise_debug);
        let mut current = input;
        let mut k: usize = 0;
        while k < current.len()
            invariant
                k <= current.len(),
                current.len() == given,
                given == input.len(),
                all_wf(current@),
                sides_within(current@, bound),
                forall|a: int|
                    0 <= a < k ==> (#[trigger] current@[a]).roads@ == tidied(input@[a].roads@),
                forall|a: int|
                    k <= a < current.len() ==> (#[trigger] current@[a]).roads@
                        == input@[a].roads@,
            decreases current.len() - k,
        {
            let ghost unfolded = current@;
            assert(current@[k as int].can_collapse() == can_fold(current@[k as int].roads@));
            if current[k].is_collapsible() {
                let ghost before = current@;
                current[k].collapse_deadends();
                proof {
                    let body = before[k as int].body();
                    let corner = next_corner(body, 0);
                    lemma_next_corner_bound(body, 0);
                    lemma_rotated_same_sides(body, corner);
                    lemma_folded_within(rotated(body, corner), rotated(body, corner).len() as int);
                    assert forall|a: int, j: int|
                        0 <= a < current.len()
                            && 0 <= j < current@[a].roads.len() implies bound.contains(
                        #[trigger] current@[a].roads[j],
                    ) by {
                        if a == k {
                            let x = current@[a].roads[j];
                            let c = collapsed(body);
                            if j < c.len() {
                                assert(c[j] == x);
                            } else {
                                assert(c[0] == x);
                            }
                            assert(rotated(body, corner).contains(x));
                            assert(body.contains(x));
                            let w = choose|w: int| 0 <= w < body.len() && body[w] == x;
                            assert(before[a].roads[w] == x);
                        } else {
                            assert(current@[a] == before[a]);
                        }
                    }
                    assert forall|a: int| 0 <= a < current.len() implies (#[trigger] current@[a]).wf() by {
                        if a != k {
                            assert(current@[a] == before[a]);
                        }
                    }
                }
            }
            proof {
                assert forall|a: int|
                    0 <= a < current.len() && a != k implies #[trigger] current@[a]
                    == unfolded[a] by {}
                assert(current@[k as int].roads@ == tidied(unfolded[k as int].roads@));
            }
            k = k + 1;
        }
        proof {
            assert(views(current@) =~= tidy_all(views(input@)));
        }
        loop
            invariant
                given == input.len(),
                bound == all_sides(input@),
                rounds(views(current@), stepwise_debug) == goal,
                goal == rounds(tidy_all(views(input@)), stepwise_debug),
                all_wf(current@),
                current.len() <= given,
                given > 0 ==> current.len() > 0,
                sides_within(current@, bound),
            decreases current.len(),
        {
            let mut debug = false;
            let mut results: Vec<Perimeter> = Vec::new();
            let num_input = current.len();
            let mut k: usize = 0;
            while k < num_input
                invariant
                    k <= num_input,
                    num_input == current.len(),
                    all_wf(current@),
                    all_wf(results@),
                    results.len() <= k,
                    k > 0 ==> results.len() > 0,
                    sides_within(current@, bound),
                    sides_within(results@, bound),
                    pass(views(current@), stepwise_debug, k as int) == (views(results@), debug),
                decreases num_input - k,
            {
                let mut perimeter = current[k].clone();
                let ghost found = views(results@);
                let ghost lone = perimeter.roads@;
                proof {
                    assert(lone == views(current@)[k as int]);
                    assert(current@[k as int].wf());
                    assert forall|j: int| 0 <= j < perimeter.roads.len() implies bound.contains(
                        #[trigger] perimeter.roads[j],
                    ) by {
                        assert(current@[k as int].roads[j] == perimeter.roads[j]);
                    }
                }
                let mut merged = false;
                if !debug {
                    let mut j: usize = 0;
                    while j < results.len() && !merged
                        invariant
                            j <= results.len(),
                            results.len() <= k,
                            k > 0 ==> results.len() > 0,
                            merged ==> results.len() > 0,
                            all_wf(results@),
                            sides_within(results@, bound),
                            !merged ==> perimeter.wf(),
                            !merged ==> forall|x: int|
                                0 <= x < perimeter.roads.len() ==> bound.contains(
                                    #[trigger] perimeter.roads[x],
                                ),
                            !merged ==> absorbed(views(results@), perimeter.roads@, j as int)
                                == absorbed(found, lone, 0),
                            merged ==> absorbed(found, lone, 0) == (
                                views(results@),
                                None::<Seq<RoadSideID>>,
                            ),
                            results.len() == found.len(),
                        decreases results.len() - j + if merged {
                            0int
                        } else {
                            1int
                        },
                    {
                        let ghost before = results@;
                        let ghost lone = perimeter.roads@;
                        assert(results@[j as int].wf());
                        merged = results[j].try_to_merge(&mut perimeter);
                        proof {
                            assert(views(results@) =~= views(before).update(
                                j as int,
                                merge_of(before[j as int].roads@, lone).1,
                            )) by {
                                assert forall|a: int| 0 <= a < results.len() && a != j implies
                                    #[trigger] results@[a] == before[a] by {}
                            }
                            assert forall|a: int| 0 <= a < results.len() implies (
                            #[trigger] results@[a]).wf() by {
                                if a != j {
                                    assert(results@[a] == before[a]);
                                }
                            }
                            assert forall|a: int, x: int|
                                0 <= a < results.len()
                                    && 0 <= x < results@[a].roads.len() implies bound.contains(
                                #[trigger] results@[a].roads[x],
                            ) by {
                                if a == j {
                                    let s = results@[a].roads[x];
                                    assert(results@[a].roads@.contains(s));
                                    if before[a].roads@.contains(s) {
                                        let w = choose|w: int|
                                            0 <= w < before[a].roads.len() && before[a].roads[w]
                                                == s;
                                        assert(bound.contains(before[a].roads[w]));
                                    } else {
                                        assert(lone.contains(s));
                                        let w = choose|w: int| 0 <= w < lone.len() && lone[w] == s;
                                        assert(bound.contains(lone[w]));
                                    }
                                } else {
                                    assert(results@[a] == before[a]);
                                }
                            }
                            if !merged {
                                assert forall|x: int|
                                    0 <= x < perimeter.roads.len() implies bound.contains(
                                    #[trigger] perimeter.roads[x],
                                ) by {
                                    let s = perimeter.roads[x];
                                    assert(perimeter.roads@.contains(s));
                                    assert(lone.contains(s));
                                    let w = choose|w: int| 0 <= w < lone.len() && lone[w] == s;
                                    assert(bound.contains(lone[w]));
                                }
                            }
                        }
                        if !merged {
                            j = j + 1;
                        }
                    }
                }
                if merged {
                    debug = stepwise_debug;
                } else {
                    let ghost before = results@;
                    results.push(perimeter);
                    proof {
                        assert(views(results@) =~= views(before).push(
                            results@[before.len() as int].roads@,
                        ));
                        assert forall|a: int| 0 <= a < results.len() implies (
                        #[trigger] results@[a]).wf() by {
                            if a < before.len() {
                                assert(results@[a] == before[a]);
                            }
                        }
                        assert forall|a: int, x: int|
                            0 <= a < results.len()
                                && 0 <= x < results@[a].roads.len() implies bound.contains(
                            #[trigger] results@[a].roads[x],
                        ) by {
                            if a < before.len() {
                                assert(results@[a] == before[a]);
                            }
                        }
                    }
                }
                k = k + 1;
            }
            if results.len() > 1 && results.len() < num_input && !stepwise_debug {
                current = results;
            } else {
                return results;
            }
        }
    }
}

} // verus!
