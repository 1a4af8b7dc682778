//! Describing commands in words.

use vstd::prelude::*;
use vstd::string::*;
use crate::edits::log::texts;
use crate::edits::{EditCmd, EditIntersection, EditRoad, EditRoadView};
use crate::lane::LaneSpec;
use crate::map::StreetMap;
use crate::text::{decimal, decimal_string, join};

verus! {

/// The parts of the description of a lane.
#[derive(Clone, Copy, Debug, PartialEq, Eq, Structural)]
pub enum LanePart {
    Type,
    Direction,
    Width,
}

/// Whether two lanes differ in the given part.
pub open spec fn part_differs(a: LaneSpec, b: LaneSpec, part: LanePart) -> bool {
    match part {
        LanePart::Type => a.lt != b.lt,
        LanePart::Direction => a.dir != b.dir,
        LanePart::Width => a.width != b.width,
    }
}

/// The number of positions below `n` at which the lanes of two roads differ in
/// the given part.
pub open spec fn differing(a: Seq<LaneSpec>, b: Seq<LaneSpec>, part: LanePart, n: int) -> nat
    decreases n,
{
    if n <= 0 {
        0
    } else {
        differing(a, b, part, n - 1) + if part_differs(a[n - 1], b[n - 1], part) {
            1nat
        } else {
            0nat
        }
    }
}

/// At most every position differs.
pub proof fn lemma_differing_bound(a: Seq<LaneSpec>, b: Seq<LaneSpec>, part: LanePart, n: int)
    requires
        0 <= n,
    ensures
        differing(a, b, part, n) <= n,
    decreases n,
{
    if n > 0 {
        lemma_differing_bound(a, b, part, n - 1);
    }
}

/// How a number of changes reads: `one` for one change, the number and `many`
/// for more, and nothing for none unless `even_none`.
pub open spec fn counted(n: nat, one: Seq<char>, many: Seq<char>, even_none: bool) -> Seq<
    Seq<char>,
> {
    if n == 1 {
        seq![one]
    } else if n > 1 || even_none {
        seq![decimal(n) + many]
    } else {
        Seq::empty()
    }
}

/// The shorter of two lengths.
pub open spec fn shorter(a: int, b: int) -> int {
    if a <= b {
        a
    } else {
        b
    }
}

/// What changed between two states of a road, in words: how many lanes differ
/// in type, in direction and in width, counting the lanes that both states
/// have, and whether the speed limit and the access restrictions differ. The
/// number of lanes that differ in width is always given.
pub open spec fn diff_texts(a: EditRoadView, b: EditRoadView) -> Seq<Seq<char>> {
    let n = shorter(a.lanes_ltr.len() as int, b.lanes_ltr.len() as int);
    counted(
        differing(a.lanes_ltr, b.lanes_ltr, LanePart::Type, n),
        "1 lane type"@,
        " lane types"@,
        false,
    ) + counted(
        differing(a.lanes_ltr, b.lanes_ltr, LanePart::Direction, n),
        "1 lane reversal"@,
        " lane reversals"@,
        false,
    ) + counted(
        differing(a.lanes_ltr, b.lanes_ltr, LanePart::Width, n),
        "1 lane width"@,
        " lane widths"@,
        true,
    ) + (if a.speed_limit != b.speed_limit {
        seq!["speed limit"@]
    } else {
        Seq::empty()
    }) + (if a.access_restrictions != b.access_restrictions {
        seq!["access restrictions"@]
    } else {
        Seq::empty()
    })
}

/// Adds to `changes` how a number of changes reads: see [`counted`].
fn push_counted(changes: &mut Vec<String>, n: usize, one: &str, many: &str, even_none: bool)
    ensures
        texts(final(changes)@) == texts(old(changes)@) + counted(n as nat, one@, many@, even_none),
{
    let ghost before = texts(changes@);
    if n == 1 {
        changes.push(String::from_str(one));
        proof {
            assert(texts(changes@) =~= before + seq![one@]);
        }
    } else if n > 1 || even_none {
        let number = decimal_string(n);
        changes.push(join(number.as_str(), many));
        proof {
            assert(texts(changes@) =~= before + seq![decimal(n as nat) + many@]);
        }
    } else {
        proof {
            assert(texts(changes@) =~= before + Seq::<Seq<char>>::empty());
        }
    }
}

impl EditRoad {
    /// What changed between this state of a road and another, in words: see
    /// [`diff_texts`].
    pub fn diff(&self, other: &EditRoad) -> (changes: Vec<String>)
        ensures
            texts(changes@) == diff_texts(self@, other@),
    {
        let n = if self.lanes_ltr.len() <= other.lanes_ltr.len() {
            self.lanes_ltr.len()
        } else {
            other.lanes_ltr.len()
        };
        let mut lt: usize = 0;
        let mut dir: usize = 0;
        let mut width: usize = 0;
        let mut k: usize = 0;
        while k < n
            invariant
                k <= n,
                n <= self.lanes_ltr.len(),
                n <= other.lanes_ltr.len(),
                lt == differing(self.lanes_ltr@, other.lanes_ltr@, LanePart::Type, k as int),
                dir == differing(self.lanes_ltr@, other.lanes_ltr@, LanePart::Direction, k as int),
                width == differing(self.lanes_ltr@, other.lanes_ltr@, LanePart::Width, k as int),
            decreases n - k,
        {
            proof {
                lemma_differing_bound(self.lanes_ltr@, other.lanes_ltr@, LanePart::Type, k as int);
                lemma_differing_bound(
                    self.lanes_ltr@,
                    other.lanes_ltr@,
                    LanePart::Direction,
                    k as int,
                );
                lemma_differing_bound(self.lanes_ltr@, other.lanes_ltr@, LanePart::Width, k as int);
            }
            let spec1 = self.lanes_ltr[k];
            let spec2 = other.lanes_ltr[k];
            if spec1.lt != spec2.lt {
                lt = lt + 1;
            }
            if spec1.dir != spec2.dir {
                dir = dir + 1;
            }
            if spec1.width != spec2.width {
                width = width + 1;
            }
            k = k + 1;
        }
        let mut changes: Vec<String> = Vec::new();
        proof {
            assert(texts(changes@) =~= Seq::<Seq<char>>::empty());
        }
        push_counted(&mut changes, lt, "1 lane type", " lane types", false);
        push_counted(&mut changes, dir, "1 lane reversal", " lane reversals", false);
        push_counted(&mut changes, width, "1 lane width", " lane widths", true);
        let ghost counts = texts(changes@);
        if self.speed_limit != other.speed_limit {
            changes.push(String::from_str("speed limit"));
        }
        let ghost with_speed = texts(changes@);
        proof {
            assert(with_speed =~= counts + (if self@.speed_limit != other@.speed_limit {
                seq!["speed limit"@]
            } else {
                Seq::empty()
            }));
        }
        if !self.access_restrictions.same_as(&other.access_restrictions) {
            changes.push(String::from_str("access restrictions"));
        }
        proof {
            assert(texts(changes@) =~= with_speed + (if self@.access_restrictions
                != other@.access_restrictions {
                seq!["access restrictions"@]
            } else {
                Seq::empty()
            }));
            assert(texts(changes@) =~= diff_texts(self@, other@));
        }
        changes
    }
}

impl StreetMap {
    /// What a command does, in a few words.
    pub open spec fn summary_of(&self, cmd: EditCmd) -> Seq<char> {
        match cmd {
            EditCmd::ChangeRoad { r, .. } => "road #"@ + decimal(r.0 as nat),
            EditCmd::ChangeIntersection { i, new, .. } => match new {
                EditIntersection::StopSign(_) => "stop sign #"@ + decimal(i.0 as nat),
                EditIntersection::TrafficSignal(_) => "traffic signal #"@ + decimal(i.0 as nat),
                EditIntersection::Closed => "close Intersection #"@ + decimal(i.0 as nat),
            },
            EditCmd::ChangeCrosswalks { i, .. } => "crosswalks at Intersection #"@ + decimal(
                i.0 as nat,
            ),
            EditCmd::ChangeRouteSchedule { id, .. } => "reschedule route "@
                + self.transit_routes[id.0 as int].short_name@,
        }
    }
}

impl EditCmd {
    /// Describes the command: what it does in a few words, and for a change
    /// to a road what changed (see [`diff_texts`]). Only the name of a
    /// transit route is read from the map, so only such a route has to be
    /// there.
    pub fn describe(&self, map: &StreetMap) -> (res: (String, Vec<String>))
        requires
            match *self {
                EditCmd::ChangeRouteSchedule { id, .. } => map.has_route(id),
                _ => true,
            },
        ensures
            res.0@ == map.summary_of(*self),
            texts(res.1@) == match *self {
                EditCmd::ChangeRoad { r, old, new } => diff_texts(new@, old@),
                _ => Seq::empty(),
            },
    {
        match self {
            EditCmd::ChangeRoad { r, old, new } => {
                let number = decimal_string(r.0);
                (join("road #", number.as_str()), new.diff(old))
            },
            EditCmd::ChangeIntersection { i, new, .. } => {
                let number = decimal_string(i.0);
                let summary = match new {
                    EditIntersection::StopSign(_) => join("stop sign #", number.as_str()),
                    EditIntersection::TrafficSignal(_) => join("traffic signal #", number.as_str()),
                    EditIntersection::Closed => join("close Intersection #", number.as_str()),
                };
                let details: Vec<String> = Vec::new();
                proof {
                    assert(texts(details@) =~= Seq::<Seq<char>>::empty());
                }
                (summary, details)
            },
            EditCmd::ChangeCrosswalks { i, .. } => {
                let number = decimal_string(i.0);
                let details: Vec<String> = Vec::new();
                proof {
                    assert(texts(details@) =~= Seq::<Seq<char>>::empty());
                }
                (join("crosswalks at Intersection #", number.as_str()), details)
            },
            EditCmd::ChangeRouteSchedule { id, .. } => {
                let details: Vec<String> = Vec::new();
                proof {
                    assert(texts(details@) =~= Seq::<Seq<char>>::empty());
                }
                (
                    join("reschedule route ", map.transit_routes[id.0].short_name.as_str()),
                    details,
                )
            },
        }
    }
}

} // verus!
