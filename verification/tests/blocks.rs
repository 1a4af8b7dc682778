use map_model::adjacency::are_neighbours;
use map_model::block::Perimeter;
use map_model::edits::log::MapEdits;
use map_model::edits::EditRoad;
use map_model::geometry::{PolyLine, Polygon, Position, Pt2D};
use map_model::ids::{Direction, IntersectionID, LaneID, RoadID, RoadSideID, SideOfRoad};
use map_model::intersection::{Control, Intersection};
use map_model::lane::{Lane, LaneSpec, LaneType, PathConstraints};
use map_model::map::StreetMap;
use map_model::road::{AccessRestrictions, Road};
use map_model::services::{Geometry, InputRoad, IntersectionGeometry, RoadEnd};
use map_model::shape::{
    dedup, distance_squared, keep_lane_orientation, reversed, BlockError,
};
use map_model::trace::TraceError;
use map_model::turn::Turn;
use map_model::units::{Distance, RoadWidth, Speed};

fn left(r: usize) -> RoadSideID {
    RoadSideID { road: RoadID(r), side: SideOfRoad::Left }
}

fn right(r: usize) -> RoadSideID {
    RoadSideID { road: RoadID(r), side: SideOfRoad::Right }
}

fn round(mut sides: Vec<RoadSideID>) -> Perimeter {
    sides.push(sides[0]);
    Perimeter { roads: sides }
}

#[test]
fn the_ends_of_a_perimeter() {
    let mut p = round(vec![left(1), left(2), left(3)]);
    assert_eq!(p.roads.len(), 4);
    assert!(p.is_well_formed());
    assert!(!Perimeter { roads: vec![left(1), left(2)] }.is_well_formed());
    assert!(!Perimeter { roads: vec![left(1)] }.is_well_formed());
    p.undo_invariant();
    assert_eq!(p.roads, vec![left(1), left(2), left(3)]);
    p.restore_invariant();
    assert_eq!(p.roads, vec![left(1), left(2), left(3), left(1)]);
    assert_eq!(p.clone().roads, p.roads);
}

#[test]
fn dead_ends_are_folded_away() {
    // Along road 2 and straight back.
    let mut p = round(vec![left(1), left(2), right(2), left(3)]);
    assert!(p.is_collapsible());
    p.collapse_deadends();
    assert_eq!(p.roads, vec![left(1), left(3), left(1)]);

    // The dead end lies across the ends.
    let mut p = round(vec![right(2), left(3), left(1), left(2)]);
    p.collapse_deadends();
    assert_eq!(p.roads, vec![left(3), left(1), left(3)]);

    // No dead end.
    let mut p = round(vec![left(1), left(2), left(3)]);
    p.collapse_deadends();
    assert_eq!(p.roads, vec![left(1), left(2), left(3), left(1)]);

    // A dead end within a dead end.
    let mut p = round(vec![left(1), left(2), left(5), right(5), right(2), left(3)]);
    p.collapse_deadends();
    assert_eq!(p.roads, vec![left(1), left(3), left(1)]);
}

#[test]
fn what_cannot_be_folded() {
    // All along one road: there is no corner to begin at.
    assert!(!round(vec![left(1), right(1)]).is_collapsible());
    assert!(!round(vec![left(1)]).is_collapsible());
    // Everything folds away.
    assert!(!round(vec![left(1), left(2), right(2), right(1)]).is_collapsible());
    // Not a perimeter.
    assert!(!Perimeter { roads: vec![left(1), left(2)] }.is_collapsible());
    assert!(!Perimeter { roads: Vec::new() }.is_collapsible());
    assert!(round(vec![left(1), left(2)]).is_collapsible());
}

#[test]
fn two_blocks_merge_along_their_common_road() {
    // Two squares side by side: road 2 lies between them.
    let mut a = round(vec![right(1), right(2), right(3), right(4)]);
    let mut b = round(vec![left(2), right(5), right(6), right(7)]);
    assert!(are_neighbours(&a, &b));
    assert!(a.try_to_merge(&mut b));
    assert_eq!(
        a.roads,
        vec![right(3), right(4), right(1), right(5), right(6), right(7), right(3)]
    );
}

#[test]
fn blocks_apart_do_not_merge() {
    let mut a = round(vec![right(1), right(2), right(3), right(4)]);
    let mut b = round(vec![right(5), right(6), right(7), right(8)]);
    assert!(!are_neighbours(&a, &b));
    assert!(!a.try_to_merge(&mut b));
    assert_eq!(a.roads, vec![right(1), right(2), right(3), right(4), right(1)]);
    assert_eq!(b.roads, vec![right(5), right(6), right(7), right(8), right(5)]);

    // All roads in common.
    let mut a = round(vec![right(1), right(2)]);
    let mut b = round(vec![left(1), left(2)]);
    assert!(!a.try_to_merge(&mut b));
    assert_eq!(a.roads.len(), 3);
    assert_eq!(b.roads.len(), 3);

    // The common roads lie in two stretches: merging would leave a hole.
    let mut a = round(vec![right(1), right(2), right(3), right(4)]);
    let mut b = round(vec![left(1), right(5), left(3), right(6)]);
    assert!(!a.try_to_merge(&mut b));
    assert_eq!(a.roads.len(), 5);
    assert_eq!(b.roads.len(), 5);
    assert_eq!(a.roads[0], a.roads[4]);
    assert_eq!(b.roads[0], b.roads[4]);
}

#[test]
fn all_blocks_merge_as_far_as_they_can() {
    let row = vec![
        round(vec![right(1), right(2), right(3), right(4)]),
        round(vec![left(2), right(5), right(6), right(7)]),
        round(vec![left(6), right(8), right(9), right(10)]),
        round(vec![right(20), right(21), right(22)]),
    ];
    let merged = Perimeter::merge_all(row, false);
    assert_eq!(merged.len(), 2);
    assert_eq!(merged[0].roads.len(), 9);
    assert_eq!(merged[0].roads[0], merged[0].roads[8]);
    for r in [2, 6] {
        assert!(merged[0].roads.iter().all(|s| s.road != RoadID(r)));
    }
    for r in [1, 3, 4, 5, 7, 8, 9, 10] {
        assert!(merged[0].roads.contains(&right(r)));
    }
    assert_eq!(merged[1].roads, vec![right(20), right(21), right(22), right(20)]);

    let row = vec![
        round(vec![right(1), right(2), right(3), right(4)]),
        round(vec![left(2), right(5), right(6), right(7)]),
        round(vec![left(6), right(8), right(9), right(10)]),
    ];
    // One merge at a time.
    assert_eq!(Perimeter::merge_all(row, true).len(), 2);
    assert!(Perimeter::merge_all(Vec::new(), false).is_empty());
    let alone = Perimeter::merge_all(vec![round(vec![left(1), left(2), right(2), left(3)])], false);
    assert_eq!(alone.len(), 1);
    assert_eq!(alone[0].roads, vec![left(1), left(3), left(1)]);
}

#[test]
fn after_one_merge_the_rest_stays_as_it_is() {
    let row = vec![
        round(vec![right(1), right(2), right(3), right(4)]),
        round(vec![left(2), right(5), right(6), right(7)]),
        round(vec![left(6), right(8), right(9), right(10)]),
    ];
    let merged = Perimeter::merge_all(row, true);
    assert_eq!(merged.len(), 2);
    // Both are turned to begin behind the common road, which is cut off.
    assert_eq!(
        merged[0].roads,
        vec![right(3), right(4), right(1), right(5), right(6), right(7), right(3)]
    );
    assert_eq!(merged[1].roads, vec![left(6), right(8), right(9), right(10), left(6)]);

    // Without a road in common nothing is turned.
    let apart = vec![
        round(vec![right(1), right(2), right(3)]),
        round(vec![right(4), right(5), right(6)]),
    ];
    let kept = Perimeter::merge_all(apart, false);
    assert_eq!(kept.len(), 2);
    assert_eq!(kept[0].roads, vec![right(1), right(2), right(3), right(1)]);
    assert_eq!(kept[1].roads, vec![right(4), right(5), right(6), right(4)]);
}

#[test]
fn neighbours_get_different_colours() {
    let row = vec![
        round(vec![right(1), right(2), right(3), right(4)]),
        round(vec![left(2), right(5), right(6), right(7)]),
        round(vec![left(6), right(8), right(9), right(10)]),
        round(vec![left(9), left(3), right(11)]),
    ];
    assert_eq!(Perimeter::calculate_coloring(&row, 3), Some(vec![0, 1, 0, 1]));
    assert_eq!(Perimeter::calculate_coloring(&row, 2), Some(vec![0, 1, 0, 1]));
    assert_eq!(Perimeter::calculate_coloring(&row, 1), None);
    assert_eq!(Perimeter::calculate_coloring(&row, 0), None);
    assert_eq!(Perimeter::calculate_coloring(&Vec::new(), 0), Some(Vec::new()));
    let triangle = vec![
        round(vec![right(1), right(2), right(3)]),
        round(vec![left(1), right(4), left(5)]),
        round(vec![left(2), right(5), right(6)]),
    ];
    assert_eq!(Perimeter::calculate_coloring(&triangle, 3), Some(vec![0, 1, 2]));
    assert_eq!(Perimeter::calculate_coloring(&triangle, 2), None);
}

#[test]
fn blocks_are_split_along_major_roads() {
    let row = vec![
        round(vec![right(1), right(2), right(3), right(4)]),
        round(vec![left(2), right(5), right(6), right(7)]),
        round(vec![left(6), right(8), right(9), right(10)]),
        round(vec![left(9), right(11), right(12)]),
    ];
    // Road 6 is a major road.
    let parts = Perimeter::partition_by_predicate(row.clone(), |r: RoadID| r != RoadID(6));
    assert_eq!(parts.len(), 2);
    assert_eq!(parts[0].len(), 2);
    assert_eq!(parts[0][0].roads, row[0].roads);
    assert_eq!(parts[0][1].roads, row[1].roads);
    assert_eq!(parts[1][0].roads, row[2].roads);
    assert_eq!(parts[1][1].roads, row[3].roads);

    let parts = Perimeter::partition_by_predicate(row.clone(), |_: RoadID| true);
    assert_eq!(parts.len(), 1);
    assert_eq!(parts[0].len(), 4);
    let parts = Perimeter::partition_by_predicate(row.clone(), |_: RoadID| false);
    assert_eq!(parts.len(), 4);
    // Linked through a later block.
    let ring = vec![row[0].clone(), row[2].clone(), row[1].clone()];
    let parts = Perimeter::partition_by_predicate(ring, |_: RoadID| true);
    assert_eq!(parts.len(), 1);
    assert_eq!(parts[0][1].roads, row[2].roads);
    assert!(Perimeter::partition_by_predicate(Vec::new(), |_: RoadID| true).is_empty());
}

#[test]
fn parts_come_in_the_order_of_their_first_blocks() {
    let row = vec![
        round(vec![right(1), right(2), right(3), right(4)]),
        round(vec![right(20), right(21), right(22)]),
        round(vec![left(2), right(5), right(6), right(7)]),
        round(vec![left(21), right(23), right(24)]),
        round(vec![right(30), right(31), right(32)]),
    ];
    let parts = Perimeter::partition_by_predicate(row.clone(), |_: RoadID| true);
    assert_eq!(parts.len(), 3);
    assert_eq!(parts[0].len(), 2);
    assert_eq!(parts[0][0].roads, row[0].roads);
    assert_eq!(parts[0][1].roads, row[2].roads);
    assert_eq!(parts[1].len(), 2);
    assert_eq!(parts[1][0].roads, row[1].roads);
    assert_eq!(parts[1][1].roads, row[3].roads);
    assert_eq!(parts[2].len(), 1);
    assert_eq!(parts[2][0].roads, row[4].roads);
    // Blocks that only a road links for which the predicate fails stay apart.
    let parts = Perimeter::partition_by_predicate(row.clone(), |r: RoadID| r != RoadID(21));
    assert_eq!(parts.len(), 4);
    assert_eq!(parts[1].len(), 1);
    assert_eq!(parts[1][0].roads, row[1].roads);
    assert_eq!(parts[2][0].roads, row[3].roads);
}

struct Edges {
    no_edge: bool,
    no_ring: bool,
}

impl Edges {
    fn plain() -> Edges {
        Edges { no_edge: false, no_ring: false }
    }
}

impl Geometry for Edges {
    fn intersection_polygon(&self, _i: IntersectionID, _roads: &Vec<InputRoad>) -> Option<IntersectionGeometry> {
        None
    }

    fn untrim(&self, _trimmed: &PolyLine, _untrimmed: &PolyLine, _end: RoadEnd) -> Option<PolyLine> {
        None
    }

    fn lane_center_line(&self, road_center: &PolyLine, _t: RoadWidth, _f: RoadWidth, _d: Direction) -> PolyLine {
        PolyLine { pts: road_center.pts.clone() }
    }

    fn make_all_turns(&self, _map: &StreetMap, _i: IntersectionID) -> Vec<Turn> {
        Vec::new()
    }

    fn snap_to_lane(
        &self,
        _map: &StreetMap,
        _pt: Pt2D,
        _who: PathConstraints,
        _buffer: Distance,
        _max_dist: Distance,
    ) -> Option<Position> {
        None
    }

    fn driveway(&self, _map: &StreetMap, _center: Pt2D, _shape: &Polygon, _to: Position) -> Option<PolyLine> {
        None
    }

    fn equiv_pos(&self, _map: &StreetMap, pos: Position, _lane: LaneID) -> Distance {
        pos.dist_along
    }

    fn road_edge(&self, road_center: &PolyLine, _half_width: RoadWidth, side: SideOfRoad) -> Option<PolyLine> {
        if self.no_edge {
            return None;
        }
        let shift = if side == SideOfRoad::Right { 1 } else { -1 };
        Some(PolyLine {
            pts: road_center.pts.iter().map(|p| Pt2D { x: p.x * 10 + shift, y: p.y * 10 + shift }).collect(),
        })
    }

    fn ring_slice(&self, _shape: &Polygon, _from: Pt2D, _to: Pt2D, _longer: bool) -> Option<Vec<Pt2D>> {
        None
    }

    fn make_ring(&self, pts: Vec<Pt2D>) -> Option<Polygon> {
        if self.no_ring || pts.len() < 4 {
            None
        } else {
            Some(Polygon { pts })
        }
    }
}

fn corner(k: usize) -> Pt2D {
    [Pt2D { x: 0, y: 0 }, Pt2D { x: 0, y: 10 }, Pt2D { x: 10, y: 10 }, Pt2D { x: 10, y: 0 }, Pt2D { x: 20, y: 0 }][k]
}

fn street(id: usize, src: usize, dst: usize) -> Road {
    let lanes = vec![
        LaneSpec { lt: LaneType::Sidewalk, dir: Direction::Back, width: Distance(15_000) },
        LaneSpec { lt: LaneType::Driving, dir: Direction::Fwd, width: Distance(30_000) },
    ];
    let mut road = Road {
        id: RoadID(id),
        src_i: IntersectionID(src),
        dst_i: IntersectionID(dst),
        lanes: Vec::new(),
        speed_limit: Speed(100_000),
        access_restrictions: AccessRestrictions::new(),
        center_pts: PolyLine { pts: vec![corner(src), corner(dst)] },
        untrimmed_center_pts: PolyLine { pts: vec![corner(src), corner(dst)] },
        rank: 0,
        osm_tags: Vec::new(),
        orig: EditRoad {
            lanes_ltr: lanes.clone(),
            speed_limit: Speed(100_000),
            access_restrictions: AccessRestrictions::new(),
        },
        transit_stops: Vec::new(),
    };
    road.recreate_lanes(&lanes, &Edges::plain());
    road
}

fn crossing(id: usize, border: bool, roads: Vec<usize>) -> Intersection {
    Intersection {
        id: IntersectionID(id),
        control: if border { Control::Border } else { Control::Construction },
        roads: roads.into_iter().map(RoadID).collect(),
        incoming_lanes: Vec::new(),
        outgoing_lanes: Vec::new(),
        turns: Vec::new(),
        movements: Vec::new(),
        polygon: Polygon { pts: Vec::new() },
    }
}

/// A square of four roads, clockwise, with a road from its last corner to the
/// edge of the map.
///
/// ```text
///  1 --r1--> 2
///  ^         |
///  r0        r2
///  |         v
///  0 <--r3-- 3 --r4--> 4
/// ```
fn square() -> StreetMap {
    let map = StreetMap {
        city: "square".to_string(),
        roads: vec![street(0, 0, 1), street(1, 1, 2), street(2, 2, 3), street(3, 3, 0), street(4, 3, 4)],
        intersections: vec![
            crossing(0, false, vec![3, 0]),
            crossing(1, false, vec![0, 1]),
            crossing(2, false, vec![1, 2]),
            crossing(3, false, vec![2, 4, 3]),
            crossing(4, true, vec![4]),
        ],
        buildings: Vec::new(),
        parking_lots: Vec::new(),
        transit_stops: Vec::new(),
        transit_routes: Vec::new(),
        zones: Vec::new(),
        edits: MapEdits::new(),
        edits_generation: 0,
        pathfinder_dirty: false,
    };
    assert!(map.is_well_formed());
    map
}

#[test]
fn the_sides_around_an_intersection() {
    let map = square();
    assert_eq!(
        map.get_road_sides_sorted(IntersectionID(3)),
        vec![right(2), left(2), left(4), right(4), left(3), right(3)]
    );
    assert_eq!(map.get_road_sides_sorted(IntersectionID(4)), vec![right(4), left(4)]);
}

#[test]
fn a_block_is_traced_along_one_side_of_its_roads() {
    let map = square();
    match Perimeter::single_block(&map, right(0)) {
        Ok(p) => assert_eq!(p.roads, vec![right(0), right(1), right(2), right(3), right(0)]),
        Err(e) => panic!("not traced: {:?}", e),
    }
    match Perimeter::single_block(&map, right(2)) {
        Ok(p) => assert_eq!(p.roads, vec![right(2), right(3), right(0), right(1), right(2)]),
        Err(e) => panic!("not traced: {:?}", e),
    }
    // The other side leads to the edge of the map.
    match Perimeter::single_block(&map, left(2)) {
        Err(e) => assert_eq!(e, TraceError::HitBoundary),
        Ok(_) => panic!("traced"),
    }
    match Perimeter::single_block(&map, right(4)) {
        Err(e) => assert_eq!(e, TraceError::HitBoundary),
        Ok(_) => panic!("traced"),
    }
}

#[test]
fn a_trace_can_lose_track() {
    let mut map = square();
    map.intersections[1].roads = vec![RoadID(1)];
    match Perimeter::single_block(&map, right(0)) {
        Err(e) => assert_eq!(e, TraceError::LostTrack),
        Ok(_) => panic!("traced"),
    }
}

#[test]
fn a_trace_that_never_comes_back() {
    // Road 4 is listed at intersection 0, where it does not end: from there
    // the trace goes to and fro along road 4 for ever.
    let mut map = square();
    map.intersections[0].roads = vec![RoadID(3), RoadID(0), RoadID(4)];
    map.intersections[3].roads = vec![RoadID(4)];
    map.intersections[4].control = Control::Construction;
    assert!(map.has_valid_refs());
    assert!(!map.is_well_formed());
    match Perimeter::single_block(&map, right(3)) {
        Err(e) => assert_eq!(e, TraceError::NoLoop),
        Ok(_) => panic!("traced"),
    }
    map.intersections[0].roads.push(RoadID(9));
    assert!(!map.has_valid_refs());
}

#[test]
fn every_block_is_found_once() {
    let map = square();
    let blocks = Perimeter::find_all_single_blocks(&map);
    assert_eq!(blocks.len(), 1);
    assert_eq!(blocks[0].roads, vec![right(0), right(1), right(2), right(3), right(0)]);
}

#[test]
fn a_perimeter_gets_its_shape() {
    let map = square();
    let p = round(vec![right(0), right(1), right(2), right(3)]);
    match p.clone().to_block(&map, &Edges::plain()) {
        Ok(block) => {
            assert_eq!(block.perimeter.roads, p.roads);
            // The right edges of the four roads, joined: points that repeat
            // the one before are left out.
            assert_eq!(
                block.polygon.pts,
                vec![
                    Pt2D { x: 1, y: 1 },
                    Pt2D { x: 1, y: 101 },
                    Pt2D { x: 101, y: 101 },
                    Pt2D { x: 101, y: 1 },
                    Pt2D { x: 1, y: 1 },
                ]
            );
        }
        Err(e) => panic!("no shape: {:?}", e),
    }
}

#[test]
fn a_perimeter_without_a_shape() {
    let map = square();
    match round(vec![right(0), right(1), right(9)]).to_block(&map, &Edges::plain()) {
        Err(e) => assert_eq!(e, BlockError::UnknownRoad(RoadID(9))),
        Ok(_) => panic!("a shape"),
    }
    match round(vec![right(0), right(0), right(1)]).to_block(&map, &Edges::plain()) {
        Err(e) => {
            assert_eq!(e, BlockError::DuplicateAdjacentRoads(LaneID { road: RoadID(0), offset: 1 }))
        }
        Ok(_) => panic!("a shape"),
    }
    match round(vec![right(0)]).to_block(&map, &Edges::plain()) {
        Err(e) => {
            assert_eq!(e, BlockError::DuplicateAdjacentRoads(LaneID { road: RoadID(0), offset: 1 }))
        }
        Ok(_) => panic!("a shape"),
    }
    let p = round(vec![right(0), right(1), right(2), right(3)]);
    match p.clone().to_block(&map, &Edges { no_edge: true, no_ring: false }) {
        Err(e) => assert_eq!(e, BlockError::NoEdge(RoadID(0))),
        Ok(_) => panic!("a shape"),
    }
    match p.to_block(&map, &Edges { no_edge: false, no_ring: true }) {
        Err(e) => assert_eq!(e, BlockError::NotARing),
        Ok(_) => panic!("a shape"),
    }
    let mut bare = square();
    bare.roads[1].lanes.clear();
    match round(vec![right(0), right(1), right(2)]).to_block(&bare, &Edges::plain()) {
        Err(e) => assert_eq!(e, BlockError::UnknownRoad(RoadID(1))),
        Ok(_) => panic!("a shape"),
    }
}

fn lane(src: usize, dst: usize) -> Lane {
    Lane {
        id: LaneID { road: RoadID(0), offset: 0 },
        lane_type: LaneType::Driving,
        dir: Direction::Fwd,
        width: Distance(1),
        src_i: IntersectionID(src),
        dst_i: IntersectionID(dst),
        lane_center_pts: PolyLine { pts: Vec::new() },
        driving_blackhole: false,
        biking_blackhole: false,
    }
}

#[test]
fn which_way_an_edge_is_followed() {
    let o = Pt2D { x: 0, y: 0 };
    let near = Pt2D { x: 3, y: 4 };
    let far = Pt2D { x: -6, y: 8 };
    assert_eq!(distance_squared(o, near), 25);
    assert_eq!(distance_squared(o, far), 100);
    assert_eq!(distance_squared(near, near), 0);
    assert_eq!(
        distance_squared(Pt2D { x: i32::MIN, y: i32::MIN }, Pt2D { x: i32::MAX, y: i32::MAX }),
        2 * (u32::MAX as i128) * (u32::MAX as i128)
    );
    // The lanes meet where the first ends.
    assert!(keep_lane_orientation(&lane(1, 2), &lane(2, 3), false, None, o, o));
    assert!(keep_lane_orientation(&lane(1, 2), &lane(3, 2), false, Some(o), far, near));
    // They meet where the first begins.
    assert!(!keep_lane_orientation(&lane(1, 2), &lane(1, 3), false, None, o, o));
    // Turning round at a dead end.
    assert!(keep_lane_orientation(&lane(1, 2), &lane(1, 2), true, Some(o), far, near));
    // Two roads between the same intersections: the nearer end decides.
    assert!(keep_lane_orientation(&lane(1, 2), &lane(2, 1), false, Some(o), near, far));
    assert!(!keep_lane_orientation(&lane(1, 2), &lane(2, 1), false, Some(o), far, near));
    assert!(!keep_lane_orientation(&lane(1, 2), &lane(1, 2), false, Some(o), near, near));
    assert!(keep_lane_orientation(&lane(1, 2), &lane(1, 2), false, None, far, near));
    // Nothing in common.
    assert!(keep_lane_orientation(&lane(1, 2), &lane(3, 4), false, Some(o), near, far));
}

#[test]
fn points_in_a_row() {
    let a = Pt2D { x: 1, y: 1 };
    let b = Pt2D { x: 2, y: 2 };
    assert_eq!(reversed(&vec![a, b, b]), vec![b, b, a]);
    assert_eq!(reversed(&Vec::new()), Vec::new());
    assert_eq!(dedup(&vec![a, a, b, a, a, a, b, b]), vec![a, b, a, b]);
    assert_eq!(dedup(&Vec::new()), Vec::new());
}

#[test]
fn what_is_wrong_at_the_first_step_is_the_error() {
    let map = square();
    // The geometry would give no edge, but the road is asked for first.
    let none = Edges { no_edge: true, no_ring: true };
    match round(vec![right(9), right(0), right(1)]).to_block(&map, &none) {
        Err(e) => assert_eq!(e, BlockError::UnknownRoad(RoadID(9))),
        Ok(_) => panic!("a shape"),
    }
    match round(vec![right(0), right(9), right(1)]).to_block(&map, &none) {
        Err(e) => assert_eq!(e, BlockError::UnknownRoad(RoadID(9))),
        Ok(_) => panic!("a shape"),
    }
    match round(vec![right(0), right(0), right(1)]).to_block(&map, &none) {
        Err(e) => {
            assert_eq!(e, BlockError::DuplicateAdjacentRoads(LaneID { road: RoadID(0), offset: 1 }))
        }
        Ok(_) => panic!("a shape"),
    }
    // At a later step the edge of the first road is asked for before.
    match round(vec![right(0), right(1), right(9)]).to_block(&map, &none) {
        Err(e) => assert_eq!(e, BlockError::NoEdge(RoadID(0))),
        Ok(_) => panic!("a shape"),
    }
}
