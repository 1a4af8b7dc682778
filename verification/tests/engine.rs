use map_model::control::{ControlStopSign, ControlTrafficSignal, SignalEntry, TrafficSignal, TurnPriority};
use map_model::edits::load::version_readable;
use map_model::edits::log::MapEdits;
use map_model::edits::session::first_free_number;
use map_model::edits::{
    ApplyError, EditCmd, EditCrosswalks, EditEffects, EditIntersection, EditRoad,
};
use map_model::geometry::{PolyLine, Polygon, Position, Pt2D};
use map_model::ids::{
    BuildingID, Direction, IntersectionID, LaneID, ParkingLotID, RoadID, SideOfRoad,
    TransitRouteID, TransitStopID, TurnID,
};
use map_model::intersection::{Control, Intersection, IntersectionType};
use map_model::lane::{LaneSpec, LaneType, PathConstraints};
use map_model::map::StreetMap;
use map_model::objects::{Building, ParkingLot, TransitRoute, TransitStop};
use map_model::road::{AccessRestrictions, Road};
use map_model::services::{Geometry, InputRoad, IntersectionGeometry, Pathfinder, RoadEnd};
use map_model::turn::{Turn, TurnType};
use map_model::units::{Distance, Duration, RoadWidth, Speed, Time};

/// A geometry that encodes what it was asked in what it answers.
struct Flat {
    /// The intersection for which no shape is given.
    no_shape_at: Option<IntersectionID>,
    /// Where everything is snapped to.
    snap: Option<Position>,
}

impl Flat {
    fn new() -> Flat {
        Flat { no_shape_at: None, snap: None }
    }
}

fn pt(x: usize, y: u128) -> Pt2D {
    Pt2D { x: x as i32, y: y as i32 }
}

impl Geometry for Flat {
    fn intersection_polygon(&self, i: IntersectionID, roads: &Vec<InputRoad>) -> Option<IntersectionGeometry> {
        if self.no_shape_at == Some(i) {
            return None;
        }
        let mut total: u128 = 0;
        let mut trimmed = Vec::new();
        for r in roads {
            total += r.half_width.0;
            trimmed.push((r.id, PolyLine { pts: vec![pt(r.id.0, r.half_width.0), pt(i.0, 0)] }));
        }
        Some(IntersectionGeometry {
            polygon: Polygon { pts: vec![pt(i.0, total)] },
            trimmed_center_pts: trimmed,
        })
    }

    fn untrim(&self, _trimmed: &PolyLine, _untrimmed: &PolyLine, _end: RoadEnd) -> Option<PolyLine> {
        None
    }

    fn lane_center_line(
        &self,
        road_center: &PolyLine,
        _total_width: RoadWidth,
        from_left: RoadWidth,
        _dir: Direction,
    ) -> PolyLine {
        let mut pts = road_center.pts.clone();
        pts.push(pt(0, from_left.0));
        PolyLine { pts }
    }

    fn make_all_turns(&self, map: &StreetMap, i: IntersectionID) -> Vec<Turn> {
        let x = &map.intersections[i.0];
        let mut turns = Vec::new();
        for a in &x.incoming_lanes {
            for b in &x.outgoing_lanes {
                if a.road == b.road {
                    continue;
                }
                let from = map.roads[a.road.0].lanes[a.offset].lane_type;
                let to = map.roads[b.road.0].lanes[b.offset].lane_type;
                let id = TurnID { parent: i, src: *a, dst: *b };
                if from == LaneType::Driving && to == LaneType::Driving {
                    turns.push(Turn { id, turn_type: TurnType::Straight });
                } else if from == LaneType::Biking && to == LaneType::Driving {
                    turns.push(Turn { id, turn_type: TurnType::Right });
                } else if from == LaneType::Sidewalk && to == LaneType::Sidewalk {
                    turns.push(Turn { id, turn_type: TurnType::Crosswalk });
                }
            }
        }
        turns
    }

    fn snap_to_lane(
        &self,
        _map: &StreetMap,
        _pt: Pt2D,
        _who: PathConstraints,
        _buffer: Distance,
        _max_dist: Distance,
    ) -> Option<Position> {
        self.snap
    }

    fn driveway(&self, _map: &StreetMap, center: Pt2D, _shape: &Polygon, to: Position) -> Option<PolyLine> {
        Some(PolyLine { pts: vec![center, pt(to.lane.road.0, to.lane.offset as u128)] })
    }

    fn equiv_pos(&self, _map: &StreetMap, pos: Position, _lane: LaneID) -> Distance {
        pos.dist_along
    }

    fn road_edge(&self, road_center: &PolyLine, _half_width: RoadWidth, _side: SideOfRoad) -> Option<PolyLine> {
        Some(PolyLine { pts: road_center.pts.clone() })
    }

    fn ring_slice(&self, _shape: &Polygon, _from: Pt2D, _to: Pt2D, _longer: bool) -> Option<Vec<Pt2D>> {
        None
    }

    fn make_ring(&self, pts: Vec<Pt2D>) -> Option<Polygon> {
        Some(Polygon { pts })
    }
}

struct Paths {
    rebuilt: usize,
}

impl Pathfinder for Paths {
    fn rebuild(&mut self, _map: &StreetMap) {
        self.rebuilt += 1;
    }
}

fn spec(lt: LaneType, dir: Direction, metres_tenths: u32) -> LaneSpec {
    LaneSpec { lt, dir, width: Distance(metres_tenths * 1000) }
}

fn wide_lanes() -> Vec<LaneSpec> {
    vec![
        spec(LaneType::Sidewalk, Direction::Back, 15),
        spec(LaneType::Parking, Direction::Back, 25),
        spec(LaneType::Driving, Direction::Back, 30),
        spec(LaneType::Driving, Direction::Fwd, 30),
        spec(LaneType::Parking, Direction::Fwd, 25),
        spec(LaneType::Sidewalk, Direction::Fwd, 15),
    ]
}

fn narrow_lanes() -> Vec<LaneSpec> {
    vec![
        spec(LaneType::Sidewalk, Direction::Back, 15),
        spec(LaneType::Driving, Direction::Back, 30),
        spec(LaneType::Driving, Direction::Fwd, 30),
        spec(LaneType::Sidewalk, Direction::Fwd, 15),
    ]
}

fn road(id: usize, src: usize, dst: usize, lanes: Vec<LaneSpec>, rank: usize) -> Road {
    let mut road = Road {
        id: RoadID(id),
        src_i: IntersectionID(src),
        dst_i: IntersectionID(dst),
        lanes: Vec::new(),
        speed_limit: Speed(134_000),
        access_restrictions: AccessRestrictions::new(),
        center_pts: PolyLine { pts: vec![pt(src, 0), pt(dst, 0)] },
        untrimmed_center_pts: PolyLine { pts: vec![pt(src, 0), pt(dst, 0)] },
        rank,
        osm_tags: vec![("highway".to_string(), "residential".to_string())],
        orig: EditRoad {
            lanes_ltr: lanes.clone(),
            speed_limit: Speed(134_000),
            access_restrictions: AccessRestrictions::new(),
        },
        transit_stops: Vec::new(),
    };
    road.recreate_lanes(&lanes, &Flat::new());
    road
}

fn intersection(id: usize, control: Control, roads: Vec<usize>) -> Intersection {
    Intersection {
        id: IntersectionID(id),
        control,
        roads: roads.into_iter().map(RoadID).collect(),
        incoming_lanes: Vec::new(),
        outgoing_lanes: Vec::new(),
        turns: Vec::new(),
        movements: Vec::new(),
        polygon: Polygon { pts: Vec::new() },
    }
}

fn no_signs(id: usize) -> Control {
    Control::StopSign(ControlStopSign { id: IntersectionID(id), roads: Vec::new() })
}

fn at(road: usize, offset: usize) -> Position {
    Position { lane: LaneID { road: RoadID(road), offset }, dist_along: Distance(100_000) }
}

/// Borders 0, 3, 4 and 5; open intersections 1 and 2.
///
/// ```text
///        4           5
///        |r3         |r4
///  0 -r0- 1 ---r1--- 2 -r2- 3
/// ```
fn town() -> StreetMap {
    let mut map = StreetMap {
        city: "seattle".to_string(),
        roads: vec![
            road(0, 0, 1, narrow_lanes(), 2),
            road(1, 1, 2, wide_lanes(), 2),
            road(2, 2, 3, narrow_lanes(), 2),
            road(3, 4, 1, narrow_lanes(), 1),
            road(4, 2, 5, narrow_lanes(), 1),
        ],
        intersections: vec![
            intersection(0, Control::Border, vec![0]),
            intersection(1, no_signs(1), vec![0, 1, 3]),
            intersection(2, no_signs(2), vec![1, 2, 4]),
            intersection(3, Control::Border, vec![2]),
            intersection(4, Control::Border, vec![3]),
            intersection(5, Control::Border, vec![4]),
        ],
        buildings: vec![
            Building {
                id: BuildingID(0),
                polygon: Polygon { pts: vec![pt(10, 10), pt(11, 10), pt(11, 11)] },
                center: pt(10, 10),
                sidewalk_pos: at(1, 5),
                driveway_geom: PolyLine { pts: vec![pt(10, 10), pt(1, 5)] },
            },
            Building {
                id: BuildingID(1),
                polygon: Polygon { pts: vec![pt(20, 20), pt(21, 20), pt(21, 21)] },
                center: pt(20, 20),
                sidewalk_pos: at(2, 3),
                driveway_geom: PolyLine { pts: vec![pt(20, 20), pt(2, 3)] },
            },
        ],
        parking_lots: vec![ParkingLot {
            id: ParkingLotID(0),
            polygon: Polygon { pts: vec![pt(30, 30), pt(31, 30), pt(31, 31)] },
            center: pt(30, 30),
            driveway_line: PolyLine { pts: vec![pt(30, 30), pt(1, 3)] },
            driving_pos: at(1, 3),
            sidewalk_line: PolyLine { pts: vec![pt(30, 30), pt(1, 5)] },
            sidewalk_pos: at(1, 5),
        }],
        transit_stops: vec![TransitStop {
            id: TransitStopID(0),
            driving_pos: at(1, 3),
            sidewalk_pos: at(1, 5),
            is_train_stop: false,
        }],
        transit_routes: vec![TransitRoute {
            id: TransitRouteID(0),
            short_name: "48".to_string(),
            spawn_times: vec![Time(0), Time(6_000_000)],
            orig_spawn_times: vec![Time(0), Time(6_000_000)],
        }],
        zones: Vec::new(),
        edits: MapEdits::new(),
        edits_generation: 0,
        pathfinder_dirty: false,
    };
    map.roads[1].transit_stops.push(TransitStopID(0));
    let geom = Flat::new();
    let mut effects = EditEffects::new();
    for i in [1, 2] {
        map.rebuild_lane_lists(IntersectionID(i));
        map.recalculate_turns(IntersectionID(i), &mut effects, &geom);
    }
    assert!(map.is_well_formed());
    map
}

fn with_bike_lane(map: &StreetMap) -> EditCmd {
    map.edit_road_cmd(RoadID(1), |mut new: EditRoad| {
        assert_eq!(new.lanes_ltr[1].lt, LaneType::Parking);
        new.lanes_ltr[1].lt = LaneType::Biking;
        new
    })
}

fn plus(map: &StreetMap, cmd: EditCmd) -> MapEdits {
    let mut edits = map.get_edits().without_commands();
    for c in &map.get_edits().commands {
        edits.commands.push(c.clone());
    }
    edits.commands.push(cmd);
    edits
}

fn minus_last(map: &StreetMap) -> MapEdits {
    let mut edits = map.get_edits().without_commands();
    for c in &map.get_edits().commands {
        edits.commands.push(c.clone());
    }
    edits.commands.pop();
    edits
}

fn ok(res: Result<EditEffects, ApplyError>) -> EditEffects {
    match res {
        Ok(effects) => effects,
        Err(e) => panic!("the edits were not applied: {:?}", e),
    }
}

fn err(res: Result<EditEffects, ApplyError>) -> ApplyError {
    match res {
        Ok(_) => panic!("the edits were applied"),
        Err(e) => e,
    }
}

fn turn_names(map: &StreetMap, i: usize) -> Vec<TurnID> {
    map.intersections[i].turns.iter().map(|t| t.id).collect()
}

#[test]
fn town_is_sound() {
    let map = town();
    assert!(map.is_well_formed());
    assert_eq!(map.intersections[1].intersection_type(), IntersectionType::StopSign);
    assert!(!map.intersections[1].turns.is_empty());
    assert!(map.intersections[0].turns.is_empty());
    assert_eq!(map.get_edits_change_key(), 0);
}

#[test]
fn broken_town_is_not_sound() {
    let mut map = town();
    map.roads[2].id = RoadID(7);
    assert!(!map.is_well_formed());

    let mut map = town();
    map.intersections[0].turns.push(Turn {
        id: TurnID {
            parent: IntersectionID(0),
            src: LaneID { road: RoadID(0), offset: 0 },
            dst: LaneID { road: RoadID(0), offset: 1 },
        },
        turn_type: TurnType::UTurn,
    });
    assert!(!map.is_well_formed());

    let mut map = town();
    map.intersections[1].roads.push(RoadID(0));
    assert!(!map.is_well_formed());
}

#[test]
fn parking_lane_becomes_bike_lane_and_back() {
    let mut map = town();
    let geom = Flat::new();
    let before_1 = turn_names(&map, 1);
    let before_2 = turn_names(&map, 2);

    let edits = plus(&map, with_bike_lane(&map));
    assert!(map.has_all_targets(&edits.commands));
    let effects = ok(map.must_apply_edits(edits, &geom));

    // The turns at both ends were made anew.
    assert!(effects.changed_intersections.contains(IntersectionID(1)));
    assert!(effects.changed_intersections.contains(IntersectionID(2)));
    for t in before_1.iter().chain(before_2.iter()) {
        assert!(effects.deleted_turns.contains(*t));
    }
    assert!(!effects.added_turns.is_empty());
    for t in effects.added_turns.elements() {
        assert!(map.has_turn_id(t));
    }
    // The bike lane leads into intersection 1 now.
    assert!(map.intersections[1].turns.iter().any(|t| t.turn_type == TurnType::Right));

    assert!(map.pathfinder_dirty);
    assert_eq!(map.get_edits_change_key(), 1);
    assert!(effects.changed_roads.contains(RoadID(1)));
    assert_eq!(map.get_edits().changed_roads, vec![RoadID(1)]);
    assert_eq!(map.roads[1].lanes[1].lane_type, LaneType::Biking);
    assert_eq!(map.get_r_edit(RoadID(1)).lanes_ltr[1].lt, LaneType::Biking);
    assert!(map.is_well_formed());

    // Take it back.
    let edits = minus_last(&map);
    assert!(edits.commands.is_empty());
    ok(map.must_apply_edits(edits, &geom));
    assert_eq!(map.roads[1].lanes[1].lane_type, LaneType::Parking);
    assert!(map.get_r_edit(RoadID(1)).same_as(&map.roads[1].orig));
    assert_eq!(turn_names(&map, 1), before_1);
    assert_eq!(turn_names(&map, 2), before_2);
    assert!(map.get_edits().changed_roads.is_empty());
    assert_eq!(map.get_edits_change_key(), 2);
    assert!(map.is_well_formed());
}

#[test]
fn closing_and_reopening_an_intersection() {
    let mut map = town();
    let geom = Flat::new();
    let before = turn_names(&map, 1);
    assert!(!before.is_empty());

    let close = EditCmd::ChangeIntersection {
        i: IntersectionID(1),
        old: map.get_i_edit(IntersectionID(1)),
        new: EditIntersection::Closed,
    };
    let effects = ok(map.must_apply_edits(plus(&map, close), &geom));
    assert!(map.intersections[1].is_closed());
    assert!(map.intersections[1].turns.is_empty());
    for t in &before {
        assert!(effects.deleted_turns.contains(*t));
    }
    assert!(effects.added_turns.is_empty());
    assert!(effects.changed_intersections.contains(IntersectionID(1)));
    assert!(map.is_well_formed());
    assert_eq!(map.get_edits().original_intersections.len(), 1);
    assert_eq!(map.get_edits().original_intersections[0].0, IntersectionID(1));

    let reopen = EditCmd::ChangeIntersection {
        i: IntersectionID(1),
        old: EditIntersection::Closed,
        new: EditIntersection::StopSign(ControlStopSign {
            id: IntersectionID(1),
            roads: Vec::new(),
        }),
    };
    let effects = ok(map.must_apply_edits(plus(&map, reopen), &geom));
    assert_eq!(map.intersections[1].intersection_type(), IntersectionType::StopSign);
    assert_eq!(turn_names(&map, 1), before);
    for t in &before {
        assert!(effects.added_turns.contains(*t));
    }
    assert!(map.is_well_formed());
    // The stop signs are the ones that follow from the roads, so the
    // intersection is as it was imported.
    assert!(map.get_edits().original_intersections.is_empty());
}

#[test]
fn same_edits_do_nothing() {
    let mut map = town();
    let geom = Flat::new();
    ok(map.must_apply_edits(plus(&map, with_bike_lane(&map)), &geom));
    let mut paths = Paths { rebuilt: 0 };
    map.recalculate_pathfinding_after_edits(&mut paths);
    assert!(!map.pathfinder_dirty);
    let key = map.get_edits_change_key();

    let mut again = map.get_edits().without_commands();
    for c in &map.get_edits().commands {
        again.commands.push(c.clone());
    }
    assert!(again.same_as(map.get_edits()));
    let effects = ok(map.must_apply_edits(again, &geom));
    assert!(effects.changed_roads.is_empty());
    assert!(effects.deleted_lanes.is_empty());
    assert!(effects.changed_intersections.is_empty());
    assert!(effects.added_turns.is_empty());
    assert!(effects.deleted_turns.is_empty());
    assert!(effects.changed_parking_lots.is_empty());
    assert!(effects.modified_lanes.is_empty());
    assert!(!map.pathfinder_dirty);
    assert_eq!(map.get_edits_change_key(), key);
}

fn slower(map: &StreetMap, r: usize, speed: u32) -> EditCmd {
    map.edit_road_cmd(RoadID(r), move |mut new: EditRoad| {
        new.speed_limit = Speed(speed);
        new
    })
}

#[test]
fn only_what_differs_is_replayed() {
    let mut map = town();
    let geom = Flat::new();
    // [A, B]: A slows road 0 down, B slows road 2 down.
    let a = slower(&map, 0, 50_000);
    ok(map.must_apply_edits(plus(&map, a), &geom));
    let b = slower(&map, 2, 60_000);
    ok(map.must_apply_edits(plus(&map, b), &geom));
    assert_eq!(map.get_edits().changed_roads, vec![RoadID(0), RoadID(2)]);

    // [A, C]: C slows road 4 down.
    let mut target = plus(&map, slower(&map, 4, 70_000));
    let c = target.commands.pop().unwrap();
    target.commands.pop();
    target.commands.push(c);
    let effects = ok(map.must_apply_edits(target, &geom));

    assert!(!effects.changed_roads.contains(RoadID(0)));
    assert!(effects.changed_roads.contains(RoadID(2)));
    assert!(effects.changed_roads.contains(RoadID(4)));
    assert!(!effects.deleted_lanes.contains(LaneID { road: RoadID(0), offset: 0 }));
    assert!(!effects.changed_intersections.contains(IntersectionID(0)));
    assert_eq!(map.roads[0].speed_limit, Speed(50_000));
    assert_eq!(map.roads[2].speed_limit, Speed(134_000));
    assert_eq!(map.roads[4].speed_limit, Speed(70_000));
    assert_eq!(map.get_edits().changed_roads, vec![RoadID(0), RoadID(4)]);
}

#[test]
fn what_is_recorded_as_changed_differs_from_the_import() {
    let mut map = town();
    let geom = Flat::new();
    ok(map.must_apply_edits(plus(&map, slower(&map, 0, 50_000)), &geom));
    assert_eq!(map.get_edits().changed_roads, vec![RoadID(0)]);
    // Editing back, without taking the command out of the log.
    ok(map.must_apply_edits(plus(&map, slower(&map, 0, 134_000)), &geom));
    assert_eq!(map.get_edits().commands.len(), 2);
    assert!(map.get_edits().changed_roads.is_empty());
    for r in 0..map.roads.len() {
        let differs = !map.get_r_edit(RoadID(r)).same_as(&map.roads[r].orig);
        assert_eq!(map.get_edits().changed_roads.contains(&RoadID(r)), differs);
    }

    let later = EditCmd::ChangeRouteSchedule {
        id: TransitRouteID(0),
        old: vec![Time(0), Time(6_000_000)],
        new: vec![Time(3_000_000)],
    };
    ok(map.must_apply_edits(plus(&map, later), &geom));
    assert_eq!(map.transit_routes[0].spawn_times, vec![Time(3_000_000)]);
    assert_eq!(map.get_edits().changed_routes, vec![TransitRouteID(0)]);
}

#[test]
fn compressed_edits_record_the_same_changes() {
    let mut map = town();
    let geom = Flat::new();
    ok(map.must_apply_edits(plus(&map, slower(&map, 0, 50_000)), &geom));
    ok(map.must_apply_edits(plus(&map, slower(&map, 0, 40_000)), &geom));
    ok(map.must_apply_edits(plus(&map, with_bike_lane(&map)), &geom));
    let close = EditCmd::ChangeIntersection {
        i: IntersectionID(2),
        old: map.get_i_edit(IntersectionID(2)),
        new: EditIntersection::Closed,
    };
    ok(map.must_apply_edits(plus(&map, close), &geom));
    assert_eq!(map.get_edits().commands.len(), 4);

    assert!(map.has_recorded_targets(map.get_edits()));
    let saved = map.save_edits().unwrap();
    // One command for each target that differs.
    assert_eq!(saved.commands.len(), 3);
    match &saved.commands[0] {
        EditCmd::ChangeRoad { r, old, new } => {
            assert_eq!(*r, RoadID(0));
            assert_eq!(old.speed_limit, Speed(134_000));
            assert_eq!(new.speed_limit, Speed(40_000));
        }
        _ => panic!("not a change to a road"),
    }
    let roads = map.get_edits().changed_roads.clone();
    let closed = map.get_edits().original_intersections.len();

    let effects = ok(map.must_apply_edits(saved, &geom));
    assert_eq!(map.get_edits().changed_roads, roads);
    assert_eq!(map.get_edits().original_intersections.len(), closed);
    assert_eq!(map.get_edits().commands.len(), 3);
    assert_eq!(map.roads[0].speed_limit, Speed(40_000));
    assert_eq!(map.roads[1].lanes[1].lane_type, LaneType::Biking);
    assert!(map.intersections[2].is_closed());
    assert!(effects.changed_roads.contains(RoadID(0)));
}

#[test]
fn borders_never_have_turns() {
    let mut map = town();
    let geom = Flat::new();
    let narrower = map.edit_road_cmd(RoadID(0), |mut new: EditRoad| {
        new.lanes_ltr.remove(0);
        new
    });
    let effects = ok(map.must_apply_edits(plus(&map, narrower), &geom));
    assert!(effects.changed_intersections.contains(IntersectionID(0)));
    for i in [0, 3, 4, 5] {
        assert!(map.intersections[i].is_border());
        assert!(map.intersections[i].turns.is_empty());
    }
    assert_eq!(map.roads[0].lanes.len(), 3);
    assert!(map.is_well_formed());
}

#[test]
fn a_wider_road_reshapes_both_ends() {
    let mut map = town();
    let geom = Flat::new();
    let wider = map.edit_road_cmd(RoadID(1), |mut new: EditRoad| {
        new.lanes_ltr[2].width = Distance(40_000);
        new
    });
    let effects = ok(map.must_apply_edits(plus(&map, wider), &geom));
    // Road 1 is 15 metres wide now; the others are 9 metres wide.
    let half_1: u128 = 75_000;
    let half_other: u128 = 45_000;
    assert_eq!(map.intersections[1].polygon.pts, vec![pt(1, half_1 + 2 * half_other)]);
    assert_eq!(map.intersections[2].polygon.pts, vec![pt(2, half_1 + 2 * half_other)]);
    assert_eq!(map.roads[0].center_pts.pts, vec![pt(0, half_other), pt(1, 0)]);
    assert_eq!(map.roads[3].center_pts.pts, vec![pt(3, half_other), pt(1, 0)]);
    assert_eq!(map.roads[2].center_pts.pts, vec![pt(2, half_other), pt(2, 0)]);
    assert_eq!(map.roads[4].center_pts.pts, vec![pt(4, half_other), pt(2, 0)]);
    assert_eq!(map.roads[1].center_pts.pts, vec![pt(1, half_1), pt(2, 0)]);
    for r in [0, 2, 3, 4] {
        assert!(effects.changed_roads.contains(RoadID(r)));
        assert!(effects.modified_lanes.contains(LaneID { road: RoadID(r), offset: 0 }));
        assert!(!effects.deleted_lanes.contains(LaneID { road: RoadID(r), offset: 0 }));
        // The lanes were made anew along the new centerline.
        assert_eq!(map.roads[r].lanes[0].lane_center_pts.pts[0], pt(r, half_other));
        assert_eq!(map.roads[r].lanes.len(), 4);
    }
    for offset in 0..6 {
        assert!(effects.deleted_lanes.contains(LaneID { road: RoadID(1), offset }));
        assert!(effects.modified_lanes.contains(LaneID { road: RoadID(1), offset }));
    }
    assert_eq!(map.get_edits().changed_roads, vec![RoadID(1)]);
}

#[test]
fn no_shape_is_an_error() {
    let mut map = town();
    let geom = Flat { no_shape_at: Some(IntersectionID(2)), snap: None };
    let e = err(map.must_apply_edits(plus(&map, with_bike_lane(&map)), &geom));
    assert_eq!(e, ApplyError::NoIntersectionShape(IntersectionID(2)));
    assert_eq!(map.roads[1].lanes[1].lane_type, LaneType::Parking);
    assert!(map.is_well_formed());
}

#[test]
fn a_shape_for_other_roads_is_refused() {
    let map = town();
    let line = |n: usize| PolyLine { pts: vec![pt(n, n as u128)] };
    let refused = |lines: Vec<(RoadID, PolyLine)>| {
        let mut map = town();
        let shape = IntersectionGeometry { polygon: Polygon { pts: vec![pt(9, 9)] }, trimmed_center_pts: lines };
        match map.install_intersection_geometry(IntersectionID(1), RoadID(1), shape) {
            Err(e) => assert_eq!(e, ApplyError::NoIntersectionShape(IntersectionID(1))),
            Ok(_) => panic!("the shape was stored"),
        }
        assert!(map.intersections[1].polygon.pts.is_empty());
        assert_eq!(map.roads[3].center_pts.pts, town().roads[3].center_pts.pts);
    };
    assert_eq!(map.intersections[1].roads, vec![RoadID(0), RoadID(1), RoadID(3)]);
    // A road that does not meet here.
    refused(vec![(RoadID(0), line(1)), (RoadID(1), line(2)), (RoadID(2), line(3))]);
    // A road is missing.
    refused(vec![(RoadID(0), line(1)), (RoadID(1), line(2))]);
    // A road comes twice.
    refused(vec![(RoadID(0), line(1)), (RoadID(1), line(2)), (RoadID(3), line(3)), (RoadID(0), line(4))]);
    refused(vec![(RoadID(0), line(1)), (RoadID(0), line(2)), (RoadID(3), line(3))]);
    refused(Vec::new());
}

#[test]
fn a_shape_is_stored_whatever_the_order_of_its_lines() {
    let mut map = town();
    let shape = IntersectionGeometry {
        polygon: Polygon { pts: vec![pt(9, 9)] },
        trimmed_center_pts: vec![
            (RoadID(3), PolyLine { pts: vec![pt(3, 3)] }),
            (RoadID(1), PolyLine { pts: vec![pt(1, 1)] }),
            (RoadID(0), PolyLine { pts: vec![pt(2, 2)] }),
        ],
    };
    match map.install_intersection_geometry(IntersectionID(1), RoadID(1), shape) {
        // The roads whose line changed come in the order of the intersection.
        Ok(affected) => assert_eq!(affected, vec![RoadID(0), RoadID(3)]),
        Err(_) => panic!("the shape was refused"),
    }
    assert_eq!(map.intersections[1].polygon.pts, vec![pt(9, 9)]);
    assert_eq!(map.roads[0].center_pts.pts, vec![pt(2, 2)]);
    assert_eq!(map.roads[1].center_pts.pts, vec![pt(1, 1)]);
    assert_eq!(map.roads[3].center_pts.pts, vec![pt(3, 3)]);
    assert_eq!(map.roads[2].center_pts.pts, town().roads[2].center_pts.pts);

    let lines = vec![(RoadID(3), PolyLine { pts: vec![pt(3, 3)] }), (RoadID(1), PolyLine { pts: vec![pt(1, 1)] })];
    assert_eq!(map_model::edits::shape::find_line(&lines, RoadID(1)), Some(1));
    assert_eq!(map_model::edits::shape::find_line(&lines, RoadID(0)), None);
}

fn timing(map: &StreetMap, i: usize, seconds: u64) -> TrafficSignal {
    let mut stage_durations = Vec::new();
    let mut entries = Vec::new();
    for (k, m) in map.intersections[i].movements.iter().enumerate() {
        stage_durations.push(Duration(seconds * 10_000));
        entries.push(SignalEntry { stage: k, movement: m.id, priority: TurnPriority::Protected });
    }
    TrafficSignal { offset: Duration(0), stage_durations, entries }
}

#[test]
fn a_signal_gets_the_timing_of_the_command() {
    let mut map = town();
    let geom = Flat::new();
    assert!(!map.intersections[2].movements.is_empty());
    let signal = EditCmd::ChangeIntersection {
        i: IntersectionID(2),
        old: map.get_i_edit(IntersectionID(2)),
        new: EditIntersection::TrafficSignal(timing(&map, 2, 45)),
    };
    let turns = turn_names(&map, 2);
    let effects = ok(map.must_apply_edits(plus(&map, signal), &geom));
    assert_eq!(map.intersections[2].intersection_type(), IntersectionType::TrafficSignal);
    match map.get_i_edit(IntersectionID(2)) {
        EditIntersection::TrafficSignal(ts) => assert!(ts.same_as(&timing(&map, 2, 45))),
        _ => panic!("no signal"),
    }
    // The turns stay.
    assert_eq!(turn_names(&map, 2), turns);
    assert!(effects.added_turns.is_empty());
    assert!(effects.deleted_turns.is_empty());
    assert!(effects.changed_intersections.contains(IntersectionID(2)));

    // A change to the lanes of a road there sets the signal up anew.
    ok(map.must_apply_edits(plus(&map, with_bike_lane(&map)), &geom));
    match map.get_i_edit(IntersectionID(2)) {
        EditIntersection::TrafficSignal(ts) => {
            assert!(!ts.same_as(&timing(&map, 2, 45)));
            assert!(ts.same_as(&timing(&map, 2, 30)));
        }
        _ => panic!("no signal"),
    }
}

#[test]
fn a_signal_that_does_not_fit_is_an_error() {
    let mut map = town();
    let geom = Flat::new();
    let mut raw = timing(&map, 2, 45);
    raw.entries[0].stage = 99;
    let signal = EditCmd::ChangeIntersection {
        i: IntersectionID(2),
        old: map.get_i_edit(IntersectionID(2)),
        new: EditIntersection::TrafficSignal(raw),
    };
    let e = err(map.must_apply_edits(plus(&map, signal), &geom));
    assert_eq!(e, ApplyError::SignalDoesNotFit(IntersectionID(2)));
    assert!(map.is_well_formed());

    let mut map = town();
    let raw = timing(&map, 1, 45);
    assert!(ControlTrafficSignal::import(raw, IntersectionID(2), &map).is_none());
    let raw = timing(&map, 2, 45);
    assert!(ControlTrafficSignal::import(raw, IntersectionID(2), &map).is_some());
    let default = ControlTrafficSignal::new(&map, IntersectionID(2));
    assert!(default.export().same_as(&timing(&map, 2, 30)));
    map.intersections[2].movements.clear();
    assert!(ControlTrafficSignal::new(&map, IntersectionID(2)).export().entries.is_empty());
}

#[test]
fn crosswalks_change_type_and_back() {
    let mut map = town();
    let geom = Flat::new();
    let old = map.get_i_crosswalks_edit(IntersectionID(1));
    assert!(!old.0.is_empty());
    assert!(old.0.iter().all(|t| t.turn_type == TurnType::Crosswalk));
    let mut new = old.clone();
    new.0[0].turn_type = TurnType::UnmarkedCrossing;
    let changed = new.0[0].id;
    let cmd = EditCmd::ChangeCrosswalks { i: IntersectionID(1), old: old.clone(), new: new.clone() };
    let effects = ok(map.must_apply_edits(plus(&map, cmd), &geom));
    assert!(effects.changed_intersections.contains(IntersectionID(1)));
    assert!(effects.changed_roads.is_empty());
    assert!(map.get_i_crosswalks_edit(IntersectionID(1)).same_as(&new));
    let turn = map.intersections[1].turns.iter().find(|t| t.id == changed).unwrap();
    assert_eq!(turn.turn_type, TurnType::UnmarkedCrossing);
    assert_eq!(map.get_edits().original_crosswalks.len(), 1);
    assert!(map.get_edits().original_crosswalks[0].1.same_as(&old));

    ok(map.must_apply_edits(minus_last(&map), &geom));
    assert!(map.get_i_crosswalks_edit(IntersectionID(1)).same_as(&old));
    assert!(map.get_edits().original_crosswalks.is_empty());
}

#[test]
fn crosswalks_are_the_same_in_any_order() {
    let map = town();
    let a = map.get_i_crosswalks_edit(IntersectionID(1));
    let mut b = a.clone();
    b.0.reverse();
    assert!(a.same_as(&b));
    b.0.pop();
    assert!(!a.same_as(&b));
    assert!(!b.same_as(&a));
}

#[test]
fn an_unknown_turn_is_an_error() {
    let mut map = town();
    let geom = Flat::new();
    let old = map.get_i_crosswalks_edit(IntersectionID(1));
    let stranger = TurnID {
        parent: IntersectionID(1),
        src: LaneID { road: RoadID(2), offset: 0 },
        dst: LaneID { road: RoadID(2), offset: 3 },
    };
    let mut new = old.clone();
    new.0[0].turn_type = TurnType::UnmarkedCrossing;
    new.0.push(Turn { id: stranger, turn_type: TurnType::Crosswalk });
    let cmd = EditCmd::ChangeCrosswalks { i: IntersectionID(1), old: old.clone(), new };
    let e = err(map.must_apply_edits(plus(&map, cmd), &geom));
    assert_eq!(e, ApplyError::UnknownTurn(stranger));
    // Nothing was changed.
    assert!(map.get_i_crosswalks_edit(IntersectionID(1)).same_as(&old));
}

#[test]
fn buildings_are_connected_again() {
    let mut map = town();
    // Everything snaps to the sidewalk of road 0.
    let geom = Flat { no_shape_at: None, snap: Some(at(0, 3)) };
    let effects = ok(map.must_apply_edits(plus(&map, with_bike_lane(&map)), &geom));
    // Building 0 was at road 1, whose lanes were deleted.
    assert_eq!(map.buildings[0].sidewalk_pos, at(0, 3));
    assert_eq!(map.buildings[0].driveway_geom.pts, vec![pt(10, 10), pt(0, 3)]);
    assert!(effects.changed_roads.contains(RoadID(0)));
    // Building 1 is at road 2, whose lanes were made anew.
    assert!(effects.modified_lanes.contains(LaneID { road: RoadID(2), offset: 3 }));
    assert_eq!(map.buildings[1].sidewalk_pos, at(0, 3));
    // The parking lot finds its driving lane beside the sidewalk.
    assert!(effects.changed_parking_lots.contains(ParkingLotID(0)));
    assert_eq!(map.parking_lots[0].sidewalk_pos, at(0, 3));
    assert_eq!(map.parking_lots[0].driving_pos, at(0, 2));
    assert_eq!(map.parking_lots[0].driveway_line.pts, vec![pt(30, 30), pt(0, 2)]);
}

#[test]
fn a_building_that_finds_no_lane_keeps_its_driveway() {
    let mut map = town();
    let geom = Flat::new();
    let effects = ok(map.must_apply_edits(plus(&map, with_bike_lane(&map)), &geom));
    assert!(effects.modified_lanes.contains(LaneID { road: RoadID(1), offset: 5 }));
    assert_eq!(map.buildings[0].sidewalk_pos, at(1, 5));
    assert_eq!(map.buildings[0].driveway_geom.pts, vec![pt(10, 10), pt(1, 5)]);
    assert_eq!(map.parking_lots[0].driving_pos, at(1, 3));

    // A place on a lane that is not walkable is no place for a driveway.
    let mut effects = EditEffects::new();
    let stored = map.install_building_driveway(
        BuildingID(0),
        Some((at(1, 2), PolyLine { pts: vec![pt(1, 1)] })),
        &mut effects,
    );
    assert!(!stored);
    assert_eq!(map.buildings[0].sidewalk_pos, at(1, 5));
    assert!(effects.changed_roads.is_empty());
    let stored = map.install_building_driveway(
        BuildingID(0),
        Some((at(4, 0), PolyLine { pts: vec![pt(1, 1)] })),
        &mut effects,
    );
    assert!(stored);
    assert_eq!(map.buildings[0].sidewalk_pos, at(4, 0));
    assert!(effects.changed_roads.contains(RoadID(4)));
    assert!(!map.install_building_driveway(BuildingID(0), None, &mut effects));
}

#[test]
fn transit_stops_move_to_a_lane_for_buses() {
    let mut map = town();
    let geom = Flat::new();
    // The sidewalk moves one lane to the left when a lane is taken out.
    map.transit_stops[0].sidewalk_pos = at(1, 4);
    let narrower = map.edit_road_cmd(RoadID(1), |mut new: EditRoad| {
        new.lanes_ltr.remove(4);
        new
    });
    ok(map.must_apply_edits(plus(&map, narrower), &geom));
    assert_eq!(map.transit_stops[0].driving_pos, at(1, 3));

    // Without a lane for buses the stop is orphaned.
    let no_cars = map.edit_road_cmd(RoadID(1), |mut new: EditRoad| {
        new.lanes_ltr[2].lt = LaneType::Construction;
        new.lanes_ltr[3].lt = LaneType::Construction;
        new
    });
    let mut orphaned = town();
    orphaned.transit_stops[0].sidewalk_pos = at(1, 4);
    let mut edits = plus(&map, no_cars);
    edits.commands.remove(0);
    let e = err(orphaned.must_apply_edits(edits, &geom));
    assert_eq!(e, ApplyError::OrphanedStop(TransitStopID(0)));
}

#[test]
fn a_train_stop_moves_to_the_rails() {
    let mut map = town();
    let geom = Flat::new();
    map.transit_stops[0].is_train_stop = true;
    let rails = map.edit_road_cmd(RoadID(1), |mut new: EditRoad| {
        new.lanes_ltr[1].lt = LaneType::LightRail;
        new
    });
    ok(map.must_apply_edits(plus(&map, rails), &geom));
    assert_eq!(map.transit_stops[0].driving_pos, at(1, 1));

    // A road without rails leaves it orphaned.
    let mut map = town();
    map.transit_stops[0].is_train_stop = true;
    let e = err(map.must_apply_edits(plus(&map, with_bike_lane(&map)), &geom));
    assert_eq!(e, ApplyError::OrphanedStop(TransitStopID(0)));
}

#[test]
fn a_trial_leaves_transit_stops_alone() {
    let mut map = town();
    let geom = Flat::new();
    let no_cars = map.edit_road_cmd(RoadID(1), |mut new: EditRoad| {
        new.lanes_ltr[2].lt = LaneType::Construction;
        new.lanes_ltr[3].lt = LaneType::Construction;
        new
    });
    assert!(map.try_apply_edits(plus(&map, no_cars), &geom).is_ok());
    assert_eq!(map.transit_stops[0].driving_pos, at(1, 3));
    assert_eq!(map.roads[1].lanes[3].lane_type, LaneType::Construction);
    assert!(map.pathfinder_dirty);
}

#[test]
fn the_search_for_paths_is_prepared_once() {
    let mut map = town();
    let geom = Flat::new();
    let mut paths = Paths { rebuilt: 0 };
    map.roads[0].lanes[1].driving_blackhole = true;
    map.recalculate_pathfinding_after_edits(&mut paths);
    assert_eq!(paths.rebuilt, 0);
    assert!(map.roads[0].lanes[1].driving_blackhole);

    ok(map.must_apply_edits(plus(&map, slower(&map, 0, 50_000)), &geom));
    assert!(map.pathfinder_dirty);
    map.recalculate_pathfinding_after_edits(&mut paths);
    assert_eq!(paths.rebuilt, 1);
    assert!(!map.pathfinder_dirty);
    // No turn leads back in this town: every driving lane is a group of its
    // own, and all but one of the ten are blackholes.
    let mut driving = 0;
    let mut biking = 0;
    for road in &map.roads {
        for lane in &road.lanes {
            if lane.lane_type != LaneType::Driving {
                assert!(!lane.driving_blackhole);
                assert!(!lane.biking_blackhole);
            }
            driving += lane.driving_blackhole as usize;
            biking += lane.biking_blackhole as usize;
        }
    }
    assert_eq!(driving, 9);
    assert_eq!(biking, 9);
    map.recalculate_pathfinding_after_edits(&mut paths);
    assert_eq!(paths.rebuilt, 1);

    map.set_blackholes(
        &vec![LaneID { road: RoadID(9), offset: 0 }],
        &vec![LaneID { road: RoadID(0), offset: 1 }],
    );
    assert!(!map.roads[0].lanes[1].driving_blackhole);
    assert!(map.roads[0].lanes[1].biking_blackhole);
    assert!(!map.roads[4].lanes[2].biking_blackhole);
    assert!(map.roads.iter().all(|r| r.lanes.iter().all(|l| !l.driving_blackhole)));
}

/// A ring road (0, 1, 2) with a way out (3) that does not lead back.
///
/// ```text
///  0 --r0--> 1
///   ^       /
///   r2    r1
///    \   v
///      2 --r3--> 3
/// ```
fn ring() -> StreetMap {
    let one_way = |id, src, dst| {
        road(id, src, dst, vec![spec(LaneType::Driving, Direction::Fwd, 30), spec(LaneType::Biking, Direction::Fwd, 15)], 1)
    };
    let mut map = town();
    map.roads = vec![one_way(0, 0, 1), one_way(1, 1, 2), one_way(2, 2, 0), one_way(3, 2, 3)];
    map.intersections = vec![
        intersection(0, no_signs(0), vec![2, 0]),
        intersection(1, no_signs(1), vec![0, 1]),
        intersection(2, no_signs(2), vec![1, 2, 3]),
        intersection(3, Control::Border, vec![3]),
    ];
    map.buildings.clear();
    map.parking_lots.clear();
    map.transit_stops.clear();
    let geom = Flat::new();
    let mut effects = EditEffects::new();
    for i in [0, 1, 2] {
        map.rebuild_lane_lists(IntersectionID(i));
        map.recalculate_turns(IntersectionID(i), &mut effects, &geom);
    }
    assert!(map.is_well_formed());
    map
}

#[test]
fn lanes_that_do_not_lead_back_are_blackholes() {
    let mut map = ring();
    // Driving lanes lead on to driving lanes, and bike lanes on to driving
    // lanes only.
    let edges = map.usable_turns(PathConstraints::Car);
    let lane = |r, offset| LaneID { road: RoadID(r), offset };
    assert_eq!(
        edges,
        vec![
            (lane(2, 0), lane(0, 0)),
            (lane(0, 0), lane(1, 0)),
            (lane(1, 0), lane(2, 0)),
            (lane(1, 0), lane(3, 0)),
        ]
    );
    assert_eq!(map.usable_turns(PathConstraints::Bike).len(), 8);
    assert!(map.usable_turns(PathConstraints::Pedestrian).is_empty());

    assert_eq!(map.find_blackholes(PathConstraints::Car), vec![lane(3, 0)]);
    // By bike, no bike lane leads back to itself.
    assert_eq!(
        map.find_blackholes(PathConstraints::Bike),
        vec![lane(0, 1), lane(1, 1), lane(2, 1), lane(3, 0), lane(3, 1)]
    );
    // Without any turn, no lane is a blackhole.
    assert!(map.find_blackholes(PathConstraints::Pedestrian).is_empty());
    assert!(map.find_blackholes(PathConstraints::Train).is_empty());

    map.pathfinder_dirty = true;
    let mut paths = Paths { rebuilt: 0 };
    map.recalculate_pathfinding_after_edits(&mut paths);
    assert!(map.roads[3].lanes[0].driving_blackhole);
    assert!(map.roads[3].lanes[0].biking_blackhole);
    assert!(!map.roads[0].lanes[0].driving_blackhole);
    assert!(!map.roads[0].lanes[0].biking_blackhole);
    assert!(map.roads[0].lanes[1].biking_blackhole);
    assert!(!map.roads[0].lanes[1].driving_blackhole);
}

#[test]
fn the_largest_group_of_lanes_is_not_a_blackhole() {
    let map = ring();
    let lane = |r, offset| LaneID { road: RoadID(r), offset };
    let groups = vec![vec![lane(3, 0)], vec![lane(0, 0), lane(2, 0), lane(1, 0)]];
    assert_eq!(map.blackholes_of(PathConstraints::Car, &groups), vec![lane(3, 0)]);
    // Of two groups of the same size, the last one is taken.
    let groups = vec![vec![lane(0, 0)], vec![lane(3, 0)], vec![lane(1, 0)]];
    assert_eq!(
        map.blackholes_of(PathConstraints::Car, &groups),
        vec![lane(0, 0), lane(2, 0), lane(3, 0)]
    );
    // Bike lanes are no place for cars, so they are no blackholes for cars.
    assert_eq!(
        map.blackholes_of(PathConstraints::Bike, &groups),
        vec![lane(0, 0), lane(0, 1), lane(1, 1), lane(2, 0), lane(2, 1), lane(3, 0), lane(3, 1)]
    );
    assert!(map.blackholes_of(PathConstraints::Car, &Vec::new()).is_empty());
}

fn private(map: &StreetMap, r: usize) -> EditCmd {
    map.edit_road_cmd(RoadID(r), |mut new: EditRoad| {
        new.access_restrictions.allow_cars = false;
        new
    })
}

#[test]
fn restricted_roads_that_meet_form_a_zone() {
    let mut map = town();
    let geom = Flat::new();
    ok(map.must_apply_edits(plus(&map, private(&map, 0)), &geom));
    ok(map.must_apply_edits(plus(&map, private(&map, 3)), &geom));
    ok(map.must_apply_edits(plus(&map, private(&map, 4)), &geom));
    assert_eq!(map.zones.len(), 2);
    assert_eq!(map.zones[0].members, vec![RoadID(0), RoadID(3)]);
    assert_eq!(map.zones[1].members, vec![RoadID(4)]);
    assert!(!map.zones[0].restrictions.allow_cars);
    assert!(map.roads[0].is_private());
    assert!(!map.roads[1].is_private());

    let mut apart = plus(&map, slower(&map, 2, 134_000));
    apart.commands.pop();
    apart.merge_zones = false;
    let effects = ok(map.must_apply_edits(apart, &geom));
    assert!(effects.changed_roads.is_empty());
    assert_eq!(map.zones.len(), 3);
    assert_eq!(map.zones[1].members, vec![RoadID(3)]);
}

#[test]
fn a_command_applied_twice_changes_nothing_more() {
    let mut map = town();
    let geom = Flat::new();
    let cmd = with_bike_lane(&map);
    let mut effects = EditEffects::new();
    assert!(cmd.targets_exist(&map));
    assert!(cmd.apply(&mut effects, &mut map, &geom).is_ok());
    assert!(effects.changed_roads.contains(RoadID(1)));
    let turns = turn_names(&map, 1);

    let mut again = EditEffects::new();
    assert!(cmd.apply(&mut again, &mut map, &geom).is_ok());
    assert!(again.changed_roads.is_empty());
    assert!(again.deleted_turns.is_empty());
    assert!(again.deleted_lanes.is_empty());
    assert_eq!(turn_names(&map, 1), turns);

    // And the command that takes it back leads back.
    let back = cmd.undo();
    assert!(back.apply(&mut again, &mut map, &geom).is_ok());
    assert!(map.get_r_edit(RoadID(1)).same_as(&map.roads[1].orig));
}

#[test]
fn turns_added_and_deleted_again_are_forgotten() {
    let mut map = town();
    let geom = Flat::new();
    let close = EditCmd::ChangeIntersection {
        i: IntersectionID(1),
        old: map.get_i_edit(IntersectionID(1)),
        new: EditIntersection::Closed,
    };
    ok(map.must_apply_edits(plus(&map, close), &geom));
    // Open it as a signal: the turns are made twice over.
    let reopen = EditCmd::ChangeIntersection {
        i: IntersectionID(1),
        old: EditIntersection::Closed,
        new: EditIntersection::TrafficSignal(TrafficSignal {
            offset: Duration(0),
            stage_durations: Vec::new(),
            entries: Vec::new(),
        }),
    };
    let effects = ok(map.must_apply_edits(plus(&map, reopen), &geom));
    assert!(effects.deleted_turns.is_empty());
    assert_eq!(effects.added_turns.elements().len(), map.intersections[1].turns.len());
    assert_eq!(map.intersections[1].intersection_type(), IntersectionType::TrafficSignal);
    // The timing of the command is lost: the signal is set up from the turns.
    match map.get_i_edit(IntersectionID(1)) {
        EditIntersection::TrafficSignal(ts) => assert!(ts.same_as(&timing(&map, 1, 30))),
        _ => panic!("no signal"),
    }
}

#[test]
fn a_signal_is_replaced_while_it_is_edited() {
    let mut map = town();
    let geom = Flat::new();
    let signal = EditCmd::ChangeIntersection {
        i: IntersectionID(2),
        old: map.get_i_edit(IntersectionID(2)),
        new: EditIntersection::TrafficSignal(timing(&map, 2, 45)),
    };
    ok(map.must_apply_edits(plus(&map, signal), &geom));
    let mut raw = timing(&map, 2, 20);
    raw.entries[0].stage = 77;
    map.incremental_edit_traffic_signal(ControlTrafficSignal { id: IntersectionID(2), timing: raw });
    match &map.intersections[2].control {
        Control::TrafficSignal(ts) => assert_eq!(ts.timing.entries[0].stage, 77),
        _ => panic!("no signal"),
    }
    assert!(map.is_well_formed());
}

#[test]
fn edits_without_a_name() {
    let mut map = town();
    let geom = Flat::new();
    assert!(!map.unsaved_edits());
    assert_eq!(map.get_edits().edits_name, "TODO temporary");
    let fresh = map.new_edits(3);
    assert_eq!(fresh.edits_name, "Untitled Proposal 3");
    assert!(fresh.commands.is_empty());
    assert!(fresh.merge_zones);

    let mut edits = map.new_edits(12);
    edits.commands.push(slower(&map, 0, 50_000));
    ok(map.must_apply_edits(edits, &geom));
    assert!(map.unsaved_edits());
    assert_eq!(map.save_edits().unwrap().edits_name, "Untitled Proposal 12");

    map.clear_edits_before_save(4);
    assert!(!map.unsaved_edits());
    assert_eq!(map.get_edits().edits_name, "Untitled Proposal 4");
    assert!(map.get_edits().commands.is_empty());
    assert_eq!(map.roads[0].speed_limit, Speed(50_000));
    // Nothing to save: no name and no change.
    assert!(map.save_edits().is_none());
}

#[test]
fn single_lanes_or_whole_roads_changed() {
    let mut map = town();
    let geom = Flat::new();
    ok(map.must_apply_edits(plus(&map, with_bike_lane(&map)), &geom));
    ok(map.must_apply_edits(plus(&map, slower(&map, 0, 50_000)), &geom));
    let (lanes, roads) = map.get_edits().changed_lanes(&map);
    assert_eq!(roads.elements(), vec![RoadID(0)]);
    assert_eq!(lanes.elements(), vec![LaneID { road: RoadID(1), offset: 1 }]);
}

#[test]
fn stop_signs_follow_from_the_roads() {
    let map = town();
    let ss = ControlStopSign::new(&map, IntersectionID(1));
    assert_eq!(ss.id, IntersectionID(1));
    assert_eq!(ss.roads.len(), 3);
    // Road 0 ends here: its rightmost driving lane leads in.
    assert_eq!(ss.roads[0].road, RoadID(0));
    assert_eq!(ss.roads[0].lane_closest_to_edge, LaneID { road: RoadID(0), offset: 2 });
    // Road 1 begins here: its leftmost driving lane leads in.
    assert_eq!(ss.roads[1].lane_closest_to_edge, LaneID { road: RoadID(1), offset: 2 });
    // The minor road has to stop.
    assert!(!ss.roads[0].must_stop);
    assert!(!ss.roads[1].must_stop);
    assert_eq!(ss.roads[2].road, RoadID(3));
    assert!(ss.roads[2].must_stop);
    match &map.intersections[1].control {
        Control::StopSign(installed) => assert!(installed.same_as(&ss)),
        _ => panic!("no stop signs"),
    }

    let mut level = town();
    level.roads[3].rank = 2;
    let ss = ControlStopSign::new(&level, IntersectionID(1));
    assert!(ss.roads.iter().all(|r| r.must_stop));

    // Where two roads meet, nobody stops.
    let ss = ControlStopSign::new(&map, IntersectionID(0));
    assert_eq!(ss.roads.len(), 1);
    assert!(!ss.roads[0].must_stop);
}

#[test]
fn turns_are_grouped_into_movements() {
    let map = town();
    let x = &map.intersections[1];
    let vehicles = x.turns.iter().filter(|t| t.turn_type == TurnType::Straight).count();
    let crossings = x.turns.iter().filter(|t| t.turn_type == TurnType::Crosswalk).count();
    // Each road has one driving lane in and one out, and one sidewalk each way.
    assert_eq!(vehicles, 6);
    assert_eq!(crossings, 6);
    assert_eq!(x.movements.len(), 12);
    for m in &x.movements {
        assert_eq!(m.members.len(), 1);
        assert_eq!(m.id.parent, IntersectionID(1));
        let turn = x.turns.iter().find(|t| t.id == m.members[0]).unwrap();
        assert_eq!(m.id.crosswalk, turn.turn_type == TurnType::Crosswalk);
        assert_eq!(m.id.from.road, turn.id.src.road);
        assert_eq!(m.id.to.road, turn.id.dst.road);
    }
}

#[test]
fn turns_that_do_not_fit_are_left_out() {
    let mut map = town();
    let mut effects = EditEffects::new();
    map.clear_turns(IntersectionID(1), &mut effects);
    assert!(map.intersections[1].turns.is_empty());
    let good = Turn {
        id: TurnID {
            parent: IntersectionID(1),
            src: LaneID { road: RoadID(0), offset: 2 },
            dst: LaneID { road: RoadID(1), offset: 3 },
        },
        turn_type: TurnType::Straight,
    };
    let elsewhere = Turn {
        id: TurnID {
            parent: IntersectionID(1),
            src: LaneID { road: RoadID(2), offset: 2 },
            dst: LaneID { road: RoadID(1), offset: 3 },
        },
        turn_type: TurnType::Straight,
    };
    let no_lane = Turn {
        id: TurnID {
            parent: IntersectionID(1),
            src: LaneID { road: RoadID(0), offset: 9 },
            dst: LaneID { road: RoadID(1), offset: 3 },
        },
        turn_type: TurnType::Straight,
    };
    let other_parent = Turn {
        id: TurnID { parent: IntersectionID(2), ..good.id },
        turn_type: TurnType::Straight,
    };
    assert!(map.turn_fits(good, IntersectionID(1)));
    assert!(!map.turn_fits(elsewhere, IntersectionID(1)));
    let mut added = EditEffects::new();
    map.install_turns(IntersectionID(1), &mut added, vec![elsewhere, good, no_lane, other_parent]);
    assert_eq!(turn_names(&map, 1), vec![good.id]);
    assert_eq!(added.added_turns.elements(), vec![good.id]);
    assert_eq!(map.intersections[1].movements.len(), 1);
    assert!(map.is_well_formed());
}

#[test]
fn turns_made_anew_are_recorded_as_deleted_and_as_added() {
    let mut map = town();
    let geom = Flat::new();
    let before_1 = turn_names(&map, 1);
    let before_2 = turn_names(&map, 2);
    let lanes_before = map.roads[1].lanes.len();

    let effects = ok(map.must_apply_edits(plus(&map, with_bike_lane(&map)), &geom));

    // Every turn that the ends had is deleted, every turn that they have is
    // added, whether or not it has the name of a turn that was there.
    for t in before_1.iter().chain(before_2.iter()) {
        assert!(effects.deleted_turns.contains(*t));
    }
    for t in turn_names(&map, 1).iter().chain(turn_names(&map, 2).iter()) {
        assert!(effects.added_turns.contains(*t));
    }
    assert_eq!(
        effects.added_turns.elements().len(),
        map.intersections[1].turns.len() + map.intersections[2].turns.len()
    );
    assert_eq!(effects.deleted_turns.elements().len(), before_1.len() + before_2.len());
    // The road, the roads that meet it, and its old lanes.
    for r in 0..5 {
        assert!(effects.changed_roads.contains(RoadID(r)));
    }
    for offset in 0..lanes_before {
        assert!(effects.deleted_lanes.contains(LaneID { road: RoadID(1), offset }));
    }
    for l in effects.deleted_lanes.elements() {
        assert!(effects.modified_lanes.contains(l));
    }
}

#[test]
fn turns_taken_away_are_deleted_though_they_were_added() {
    let mut map = town();
    let geom = Flat::new();
    let before = turn_names(&map, 1);
    let mut effects = EditEffects::new();

    map.recalculate_turns(IntersectionID(1), &mut effects, &geom);
    let made = turn_names(&map, 1);
    for t in &before {
        assert!(effects.deleted_turns.contains(*t));
    }
    for t in &made {
        assert!(effects.added_turns.contains(*t));
    }

    // A second time: what was added a moment ago is deleted, and stays added.
    let mut again = EditEffects::new();
    for t in &made {
        again.added_turns.insert(*t);
    }
    map.clear_turns(IntersectionID(1), &mut again);
    assert!(map.intersections[1].turns.is_empty());
    for t in &made {
        assert!(again.deleted_turns.contains(*t));
        assert!(again.added_turns.contains(*t));
    }
}

#[test]
fn the_turns_of_the_old_map_are_kept_as_deleted() {
    let map = town();
    let names = map.turn_names();
    assert_eq!(names.len(), map.intersections.len());
    assert_eq!(names[1], turn_names(&map, 1));
    assert!(names[0].is_empty());

    let known = names[1][0];
    let unknown = TurnID {
        parent: IntersectionID(0),
        src: LaneID { road: RoadID(0), offset: 0 },
        dst: LaneID { road: RoadID(0), offset: 1 },
    };
    let far = TurnID {
        parent: IntersectionID(77),
        src: LaneID { road: RoadID(0), offset: 0 },
        dst: LaneID { road: RoadID(0), offset: 1 },
    };
    let mut effects = EditEffects::new();
    effects.deleted_turns.insert(known);
    effects.deleted_turns.insert(unknown);
    effects.deleted_turns.insert(far);
    effects.added_turns.insert(unknown);
    StreetMap::retain_deleted_turns(&mut effects, &names);
    assert_eq!(effects.deleted_turns.elements(), vec![known]);
    assert!(effects.added_turns.contains(unknown));
}

#[test]
fn what_is_taken_back_and_what_is_applied_is_recorded() {
    let mut map = town();
    let geom = Flat::new();
    // [A, B]: A slows road 0 down, B slows road 2 down.
    let a = slower(&map, 0, 50_000);
    ok(map.must_apply_edits(plus(&map, a), &geom));
    let b = slower(&map, 2, 60_000);
    ok(map.must_apply_edits(plus(&map, b), &geom));
    let lanes_of_2 = map.roads[2].lanes.len();
    let road_0 = (map.roads[0].center_pts.pts.clone(), map.roads[0].lanes.len());
    let turns_2 = turn_names(&map, 2);

    // [A, C]: C slows road 4 down.
    let mut target = plus(&map, slower(&map, 4, 70_000));
    let c = target.commands.pop().unwrap();
    target.commands.pop();
    target.commands.push(c);
    let effects = ok(map.must_apply_edits(target, &geom));

    assert!(effects.changed_roads.contains(RoadID(2)));
    assert!(effects.changed_roads.contains(RoadID(4)));
    // The roads that meet them at intersection 2.
    assert!(effects.changed_roads.contains(RoadID(1)));
    for offset in 0..lanes_of_2 {
        assert!(effects.deleted_lanes.contains(LaneID { road: RoadID(2), offset }));
        assert!(effects.modified_lanes.contains(LaneID { road: RoadID(2), offset }));
    }
    for i in [2, 3, 5] {
        assert!(effects.changed_intersections.contains(IntersectionID(i)));
    }
    for t in &turns_2 {
        assert!(effects.deleted_turns.contains(*t));
    }
    for t in turn_names(&map, 2) {
        assert!(effects.added_turns.contains(t));
    }
    // Road 0 meets neither of them.
    assert_eq!(map.roads[0].center_pts.pts, road_0.0);
    assert_eq!(map.roads[0].lanes.len(), road_0.1);
}

#[test]
fn commands_that_no_geometry_decides_succeed() {
    let mut map = town();
    let geom = Flat::new();
    let crossings = map.get_i_crosswalks_edit(IntersectionID(1));
    let mut edits = map.get_edits().without_commands();
    edits.commands.push(EditCmd::ChangeRouteSchedule {
        id: TransitRouteID(0),
        old: vec![Time(0), Time(6_000_000)],
        new: vec![Time(0)],
    });
    edits.commands.push(EditCmd::ChangeIntersection {
        i: IntersectionID(2),
        old: map.get_i_edit(IntersectionID(2)),
        new: EditIntersection::Closed,
    });
    edits.commands.push(EditCmd::ChangeCrosswalks {
        i: IntersectionID(1),
        old: EditCrosswalks(crossings.0.clone()),
        new: EditCrosswalks(crossings.0.clone()),
    });
    let effects = ok(map.must_apply_edits(edits, &geom));
    assert!(effects.changed_roads.is_empty());
    assert!(effects.modified_lanes.is_empty());
    assert!(map.intersections[2].is_closed());
    assert_eq!(map.transit_routes[0].spawn_times, vec![Time(0)]);
}

#[test]
fn the_first_command_that_fails_ends_the_transaction() {
    let mut map = town();
    let geom = Flat::new();
    let stranger = Turn {
        id: TurnID {
            parent: IntersectionID(1),
            src: LaneID { road: RoadID(4), offset: 0 },
            dst: LaneID { road: RoadID(4), offset: 1 },
        },
        turn_type: TurnType::Crosswalk,
    };
    let mut edits = map.get_edits().without_commands();
    edits.commands.push(EditCmd::ChangeRouteSchedule {
        id: TransitRouteID(0),
        old: vec![Time(0), Time(6_000_000)],
        new: vec![Time(0)],
    });
    edits.commands.push(EditCmd::ChangeCrosswalks {
        i: IntersectionID(1),
        old: map.get_i_crosswalks_edit(IntersectionID(1)),
        new: EditCrosswalks(vec![stranger]),
    });
    edits.commands.push(EditCmd::ChangeIntersection {
        i: IntersectionID(2),
        old: map.get_i_edit(IntersectionID(2)),
        new: EditIntersection::Closed,
    });
    let e = err(map.must_apply_edits(edits, &geom));
    assert_eq!(e, ApplyError::UnknownTurn(stranger.id));
    // What came before it is applied, what came after it is not.
    assert_eq!(map.transit_routes[0].spawn_times, vec![Time(0)]);
    assert!(!map.intersections[2].is_closed());
    assert!(map.is_well_formed());
}

#[test]
fn a_road_change_keeps_the_ends_as_they_are_controlled() {
    let mut map = town();
    let geom = Flat::new();
    let close = EditCmd::ChangeIntersection {
        i: IntersectionID(1),
        old: map.get_i_edit(IntersectionID(1)),
        new: EditIntersection::Closed,
    };
    ok(map.must_apply_edits(plus(&map, close), &geom));

    let effects = ok(map.must_apply_edits(plus(&map, with_bike_lane(&map)), &geom));
    assert!(map.intersections[1].is_closed());
    assert!(map.intersections[1].turns.is_empty());
    for t in effects.added_turns.elements() {
        assert_eq!(t.parent, IntersectionID(2));
    }
    // The lanes at both ends are listed anew.
    for l in &map.roads[1].lanes {
        let at_1 = &map.intersections[1];
        let at_2 = &map.intersections[2];
        assert!(at_1.incoming_lanes.contains(&l.id) || at_1.outgoing_lanes.contains(&l.id));
        assert!(at_2.incoming_lanes.contains(&l.id) || at_2.outgoing_lanes.contains(&l.id));
    }
    assert_eq!(map.intersections[2].intersection_type(), IntersectionType::StopSign);
}

#[test]
fn which_end_of_a_centerline_is_lengthened() {
    let map = town();
    let road = &map.roads[1];
    assert_eq!(map_model::edits::shape::end_at(road, IntersectionID(1)), RoadEnd::Src);
    assert_eq!(map_model::edits::shape::end_at(road, IntersectionID(2)), RoadEnd::Dst);

    let short = PolyLine { pts: vec![pt(1, 1), pt(2, 1)] };
    let long = PolyLine { pts: vec![pt(0, 1), pt(1, 1), pt(2, 1)] };
    let kept = map_model::edits::shape::lengthened_or_kept(&short, None);
    assert_eq!(kept.pts, short.pts);
    let taken = map_model::edits::shape::lengthened_or_kept(
        &short,
        Some(PolyLine { pts: long.pts.clone() }),
    );
    assert_eq!(taken.pts, long.pts);
}

#[test]
fn of_turns_with_one_name_the_first_is_kept() {
    let mut map = town();
    let mut effects = EditEffects::new();
    map.clear_turns(IntersectionID(1), &mut effects);
    let id = TurnID {
        parent: IntersectionID(1),
        src: LaneID { road: RoadID(0), offset: 2 },
        dst: LaneID { road: RoadID(1), offset: 3 },
    };
    let first = Turn { id, turn_type: TurnType::Straight };
    let second = Turn { id, turn_type: TurnType::Left };
    map.install_turns(IntersectionID(1), &mut effects, vec![first, second, first]);
    assert_eq!(map.intersections[1].turns.len(), 1);
    assert_eq!(map.intersections[1].turns[0].turn_type, TurnType::Straight);
    assert!(map.is_well_formed());

    // A map that has a turn twice is not sound.
    map.intersections[1].turns.push(second);
    assert!(!map.is_well_formed());
    assert!(!map_model::turn::names_are_distinct(&map.intersections[1].turns));
    map.intersections[1].turns.pop();
    assert!(map_model::turn::names_are_distinct(&map.intersections[1].turns));
}

#[test]
fn the_members_of_a_zone_hang_together() {
    let mut map = town();
    let geom = Flat::new();
    // Roads 0 and 3 meet at intersection 1; road 2 meets neither.
    for r in [0, 2, 3] {
        let cmd = private(&map, r);
        ok(map.must_apply_edits(plus(&map, cmd), &geom));
    }
    let mut edits = plus(&map, slower(&map, 4, 70_000));
    edits.merge_zones = true;
    ok(map.must_apply_edits(edits, &geom));
    assert!(map.get_edits().merge_zones);
    assert_eq!(map.zones.len(), 2);
    assert_eq!(map.zones[0].members, vec![RoadID(0), RoadID(3)]);
    assert_eq!(map.zones[1].members, vec![RoadID(2)]);
}

#[test]
fn compression_leaves_the_net_changes_only() {
    let mut map = town();
    let geom = Flat::new();
    ok(map.must_apply_edits(plus(&map, slower(&map, 0, 50_000)), &geom));
    ok(map.must_apply_edits(plus(&map, slower(&map, 0, 40_000)), &geom));
    ok(map.must_apply_edits(plus(&map, slower(&map, 2, 60_000)), &geom));
    // Road 2 goes back to what it was.
    ok(map.must_apply_edits(plus(&map, slower(&map, 2, 134_000)), &geom));

    let mut edits = plus(&map, slower(&map, 4, 70_000));
    edits.commands.pop();
    assert_eq!(edits.commands.len(), 4);
    edits.changed_roads = map.get_edits().changed_roads.clone();
    assert!(map.has_recorded_targets(&edits));
    edits.compress(&map);
    // The commands that were there are gone: one command for road 0 is left.
    assert_eq!(edits.commands.len(), 1);
    match &edits.commands[0] {
        EditCmd::ChangeRoad { r, old, new } => {
            assert_eq!(*r, RoadID(0));
            assert_eq!(old.speed_limit, Speed(134_000));
            assert_eq!(new.speed_limit, Speed(40_000));
        }
        _ => panic!("not a change to a road"),
    }
    assert_eq!(edits.changed_roads, vec![RoadID(0)]);
    // Compressing again gives the same.
    edits.compress(&map);
    assert_eq!(edits.commands.len(), 1);
}

#[test]
fn the_least_free_number_is_taken() {
    assert_eq!(first_free_number(&Vec::new()), 1);
    assert_eq!(first_free_number(&vec![1, 2, 3]), 4);
    assert_eq!(first_free_number(&vec![3, 1, 5, 1]), 2);
    assert_eq!(first_free_number(&vec![0, 2]), 1);
    assert_eq!(first_free_number(&vec![2, 1, 2, 1, 4]), 3);
    let map = town();
    assert_eq!(map.new_edits(first_free_number(&vec![1])).edits_name, "Untitled Proposal 2");
}

#[test]
fn which_stored_edits_can_be_read() {
    assert!(!version_readable(0));
    assert!(!version_readable(7));
    assert!(version_readable(8));
    assert!(version_readable(12));
}

#[test]
fn crossings_name_no_turn_twice() {
    let map = town();
    let own = map.get_i_crosswalks_edit(IntersectionID(1));
    assert!(own.is_well_formed());
    let id = TurnID {
        parent: IntersectionID(1),
        src: LaneID { road: RoadID(0), offset: 2 },
        dst: LaneID { road: RoadID(1), offset: 3 },
    };
    let one = Turn { id, turn_type: TurnType::Crosswalk };
    let other = Turn { id, turn_type: TurnType::UnmarkedCrossing };
    assert!(EditCrosswalks::new(vec![one, other]).is_none());
    assert!(EditCrosswalks::new(vec![one, one]).is_none());
    let single = EditCrosswalks::new(vec![one]).unwrap();
    assert_eq!(single.0, vec![one]);
    assert!(EditCrosswalks::new(Vec::new()).unwrap().is_well_formed());
    assert!(!EditCrosswalks(vec![one, other]).is_well_formed());

    // A command that names a turn twice has no target.
    let twice = EditCmd::ChangeCrosswalks {
        i: IntersectionID(1),
        old: map.get_i_crosswalks_edit(IntersectionID(1)),
        new: EditCrosswalks(vec![one, other]),
    };
    assert!(!map.has_all_targets(&vec![twice.clone()]));
    assert!(!map.has_all_targets(&vec![twice.undo()]));
    let once = EditCmd::ChangeCrosswalks {
        i: IntersectionID(1),
        old: map.get_i_crosswalks_edit(IntersectionID(1)),
        new: EditCrosswalks(vec![one]),
    };
    assert!(map.has_all_targets(&vec![once]));
}

#[test]
fn a_change_to_an_intersection_is_recorded_and_kept() {
    let mut map = town();
    let geom = Flat::new();
    // To a signal: the kind of control changes and the timing is that of the
    // command.
    let signal = timing(&map, 1, 45);
    let cmd = EditCmd::ChangeIntersection {
        i: IntersectionID(1),
        old: map.get_i_edit(IntersectionID(1)),
        new: EditIntersection::TrafficSignal(signal.clone()),
    };
    let names = turn_names(&map, 1);
    let effects = ok(map.must_apply_edits(plus(&map, cmd), &geom));
    assert_eq!(map.intersections[1].intersection_type(), IntersectionType::TrafficSignal);
    assert!(effects.changed_intersections.contains(IntersectionID(1)));
    assert!(!effects.changed_intersections.contains(IntersectionID(2)));
    match map.get_i_edit(IntersectionID(1)) {
        EditIntersection::TrafficSignal(ts) => assert!(ts.same_as(&signal)),
        _ => panic!("no signal"),
    }
    assert_eq!(turn_names(&map, 1), names);
    assert!(effects.added_turns.is_empty());
    assert!(effects.deleted_turns.is_empty());

    // Closing the other one, and a schedule: both are done.
    let mut edits = plus(&map, EditCmd::ChangeIntersection {
        i: IntersectionID(2),
        old: map.get_i_edit(IntersectionID(2)),
        new: EditIntersection::Closed,
    });
    edits.commands.push(EditCmd::ChangeRouteSchedule {
        id: TransitRouteID(0),
        old: vec![Time(0), Time(6_000_000)],
        new: vec![Time(5)],
    });
    let effects = ok(map.must_apply_edits(edits, &geom));
    assert!(map.intersections[2].is_closed());
    assert!(map.intersections[2].turns.is_empty());
    assert_eq!(map.intersections[1].intersection_type(), IntersectionType::TrafficSignal);
    assert!(effects.changed_intersections.contains(IntersectionID(2)));
    assert!(!effects.changed_intersections.contains(IntersectionID(1)));
}

#[test]
fn crossings_get_the_types_of_the_command() {
    let mut map = town();
    let geom = Flat::new();
    let before: Vec<Turn> = map.intersections[1].turns.clone();
    let mut entries = map.get_i_crosswalks_edit(IntersectionID(1));
    assert!(!entries.0.is_empty());
    let changed = entries.0[0].id;
    entries.0[0].turn_type = if entries.0[0].turn_type == TurnType::Crosswalk {
        TurnType::UnmarkedCrossing
    } else {
        TurnType::Crosswalk
    };
    let new_type = entries.0[0].turn_type;
    // The entries in another order.
    entries.0.reverse();
    let cmd = EditCmd::ChangeCrosswalks {
        i: IntersectionID(1),
        old: map.get_i_crosswalks_edit(IntersectionID(1)),
        new: entries,
    };
    let effects = ok(map.must_apply_edits(plus(&map, cmd), &geom));
    assert!(effects.changed_intersections.contains(IntersectionID(1)));
    assert_eq!(map.intersections[1].turns.len(), before.len());
    for (now, was) in map.intersections[1].turns.iter().zip(before.iter()) {
        assert_eq!(now.id, was.id);
        if now.id == changed {
            assert_eq!(now.turn_type, new_type);
        } else {
            assert_eq!(now.turn_type, was.turn_type);
        }
    }
}

#[test]
fn moving_the_vehicles_of_a_stop_keeps_the_rest_of_it() {
    let mut map = town();
    let geom = Flat::new();
    map.transit_stops.push(TransitStop {
        id: TransitStopID(1),
        driving_pos: at(4, 1),
        sidewalk_pos: at(4, 0),
        is_train_stop: false,
    });
    map.roads[4].transit_stops.push(TransitStopID(1));
    map.transit_stops[0].sidewalk_pos = at(1, 4);
    let narrower = map.edit_road_cmd(RoadID(0), |mut new: EditRoad| {
        new.speed_limit = Speed(1);
        new
    });
    // Road 0 changes: roads 1 and 3 meet it and are changed too, road 4 is not.
    let effects = ok(map.must_apply_edits(plus(&map, narrower), &geom));
    assert!(effects.changed_roads.contains(RoadID(1)));
    assert!(!effects.changed_roads.contains(RoadID(4)));
    assert_eq!(map.transit_stops[0].id, TransitStopID(0));
    assert_eq!(map.transit_stops[0].sidewalk_pos, at(1, 4));
    assert!(!map.transit_stops[0].is_train_stop);
    assert_eq!(map.transit_stops[0].driving_pos.lane, LaneID { road: RoadID(1), offset: 3 });
    assert_eq!(map.transit_stops[1].driving_pos, at(4, 1));
    assert_eq!(map.transit_stops[1].sidewalk_pos, at(4, 0));
}

#[test]
fn a_clean_map_leaves_the_pathfinder_alone() {
    let mut map = town();
    let mut paths = Paths { rebuilt: 7 };
    assert!(!map.pathfinder_dirty);
    map.recalculate_pathfinding_after_edits(&mut paths);
    assert_eq!(paths.rebuilt, 7);
    assert!(!map.pathfinder_dirty);
}
