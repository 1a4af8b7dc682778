use map_model::edits::load::{LoadError, PermanentMapEdits};
use map_model::edits::log::{common_prefix, MapEdits};
use map_model::edits::{EditCmd, EditIntersection, EditRoad};
use map_model::geometry::{PolyLine, Polygon, Pt2D};
use map_model::id_set::IdSet;
use map_model::ids::{Direction, IntersectionID, LaneID, RoadID, TransitRouteID};
use map_model::intersection::{Control, Intersection};
use map_model::lane::{sum_widths, Lane, LaneSpec, LaneType, PathConstraints};
use map_model::map::StreetMap;
use map_model::objects::TransitRoute;
use map_model::road::{AccessRestrictions, Road};
use map_model::text::{decimal_string, join, starts_with};
use map_model::tutorial::{Mode, TutorialPointer};
use map_model::units::{Distance, RoadWidth, Speed, Time};

fn lane(road: usize, offset: usize, lane_type: LaneType, dir: Direction) -> Lane {
    Lane {
        id: LaneID { road: RoadID(road), offset },
        lane_type,
        dir,
        width: Distance(30_000),
        src_i: IntersectionID(0),
        dst_i: IntersectionID(1),
        lane_center_pts: PolyLine { pts: Vec::new() },
        driving_blackhole: false,
        biking_blackhole: false,
    }
}

fn road_with(types: Vec<LaneType>) -> Road {
    let lanes: Vec<Lane> =
        types.iter().enumerate().map(|(k, lt)| lane(0, k, *lt, Direction::Fwd)).collect();
    Road {
        id: RoadID(0),
        src_i: IntersectionID(0),
        dst_i: IntersectionID(1),
        lanes,
        speed_limit: Speed(100_000),
        access_restrictions: AccessRestrictions::new(),
        center_pts: PolyLine { pts: Vec::new() },
        untrimmed_center_pts: PolyLine { pts: Vec::new() },
        rank: 0,
        osm_tags: Vec::new(),
        orig: EditRoad {
            lanes_ltr: Vec::new(),
            speed_limit: Speed(100_000),
            access_restrictions: AccessRestrictions::new(),
        },
        transit_stops: Vec::new(),
    }
}

fn snapshot(types: Vec<(LaneType, Direction, u32)>, speed: u32) -> EditRoad {
    EditRoad {
        lanes_ltr: types
            .into_iter()
            .map(|(lt, dir, width)| LaneSpec { lt, dir, width: Distance(width) })
            .collect(),
        speed_limit: Speed(speed),
        access_restrictions: AccessRestrictions::new(),
    }
}

fn small_map() -> StreetMap {
    StreetMap {
        city: "leeds".to_string(),
        roads: vec![road_with(vec![LaneType::Driving])],
        intersections: vec![
            Intersection {
                id: IntersectionID(0),
                control: Control::Border,
                roads: vec![RoadID(0)],
                incoming_lanes: Vec::new(),
                outgoing_lanes: Vec::new(),
                turns: Vec::new(),
                movements: Vec::new(),
                polygon: Polygon { pts: Vec::new() },
            },
            Intersection {
                id: IntersectionID(1),
                control: Control::Construction,
                roads: vec![RoadID(0)],
                incoming_lanes: Vec::new(),
                outgoing_lanes: Vec::new(),
                turns: Vec::new(),
                movements: Vec::new(),
                polygon: Polygon { pts: Vec::new() },
            },
        ],
        buildings: Vec::new(),
        parking_lots: Vec::new(),
        transit_stops: Vec::new(),
        transit_routes: vec![TransitRoute {
            id: TransitRouteID(0),
            short_name: "X9".to_string(),
            spawn_times: Vec::new(),
            orig_spawn_times: Vec::new(),
        }],
        zones: Vec::new(),
        edits: MapEdits::new(),
        edits_generation: 0,
        pathfinder_dirty: false,
    }
}

#[test]
fn whole_metres() {
    assert_eq!(Distance::meters(3), Distance(30_000));
    assert_eq!(Distance::meters(0), Distance(0));
    assert_eq!(Distance::meters(429_496), Distance(4_294_960_000));
    assert_eq!(RoadWidth(7).half(), RoadWidth(3));
}

#[test]
fn numbers_in_decimal() {
    assert_eq!(decimal_string(0), "0");
    assert_eq!(decimal_string(7), "7");
    assert_eq!(decimal_string(10), "10");
    assert_eq!(decimal_string(4096), "4096");
    assert_eq!(decimal_string(usize::MAX), usize::MAX.to_string());
    assert_eq!(join("road #", "12"), "road #12");
}

#[test]
fn text_begins_with() {
    assert!(starts_with("Untitled Proposal 4", "Untitled Proposal"));
    assert!(starts_with("abc", ""));
    assert!(starts_with("abc", "abc"));
    assert!(!starts_with("ab", "abc"));
    assert!(!starts_with("Untitled proposal", "Untitled Proposal"));
}

#[test]
fn sets_of_identifiers() {
    let mut s: IdSet<RoadID> = IdSet::new();
    assert!(s.is_empty());
    s.insert(RoadID(3));
    s.insert(RoadID(1));
    s.insert(RoadID(3));
    assert!(s.contains(RoadID(3)));
    assert!(!s.contains(RoadID(2)));
    assert_eq!(s.elements(), vec![RoadID(3), RoadID(1)]);
    let mut t: IdSet<RoadID> = IdSet::new();
    t.insert(RoadID(1));
    t.insert(RoadID(8));
    s.extend(&t);
    assert_eq!(s.elements(), vec![RoadID(3), RoadID(1), RoadID(8)]);
    s.remove(RoadID(1));
    s.remove(RoadID(5));
    assert_eq!(s.elements(), vec![RoadID(3), RoadID(8)]);
    assert!(!s.is_empty());
}

#[test]
fn widths_add_up() {
    let lanes = snapshot(
        vec![
            (LaneType::Sidewalk, Direction::Back, 15_000),
            (LaneType::Driving, Direction::Back, 30_000),
            (LaneType::Driving, Direction::Fwd, 30_001),
        ],
        0,
    );
    assert_eq!(sum_widths(&lanes.lanes_ltr), RoadWidth(75_001));
    assert_eq!(sum_widths(&lanes.lanes_ltr).half(), RoadWidth(37_500));
    assert_eq!(sum_widths(&Vec::new()), RoadWidth(0));
    let many = vec![LaneSpec { lt: LaneType::Driving, dir: Direction::Fwd, width: Distance(u32::MAX) }; 3];
    assert_eq!(sum_widths(&many), RoadWidth(3 * (u32::MAX as u128)));
}

#[test]
fn who_may_use_a_lane() {
    assert!(LaneType::Sidewalk.is_walkable());
    assert!(LaneType::Shoulder.is_walkable());
    assert!(!LaneType::Driving.is_walkable());
    assert!(LaneType::Bus.is_for_moving_vehicles());
    assert!(!LaneType::Parking.is_for_moving_vehicles());
    assert!(PathConstraints::Bus.can_use(LaneType::Driving));
    assert!(PathConstraints::Bus.can_use(LaneType::Bus));
    assert!(!PathConstraints::Car.can_use(LaneType::Bus));
    assert!(PathConstraints::Bike.can_use(LaneType::Biking));
    assert!(!PathConstraints::Pedestrian.can_use(LaneType::Biking));
    assert!(PathConstraints::Train.can_use(LaneType::LightRail));
}

#[test]
fn the_nearest_lane_of_a_kind() {
    let road = road_with(vec![
        LaneType::Driving,
        LaneType::Parking,
        LaneType::Sidewalk,
        LaneType::Parking,
        LaneType::Driving,
        LaneType::Bus,
    ]);
    let from = |offset| LaneID { road: RoadID(0), offset };
    // Two driving lanes at the same distance: the left one.
    assert_eq!(road.find_closest_lane(from(2), PathConstraints::Car), Some(from(0)));
    assert_eq!(road.find_closest_lane(from(3), PathConstraints::Car), Some(from(4)));
    // Not the lane itself.
    assert_eq!(road.find_closest_lane(from(4), PathConstraints::Car), Some(from(0)));
    assert_eq!(road.find_closest_lane(from(4), PathConstraints::Bus), Some(from(5)));
    assert_eq!(road.find_closest_lane(from(0), PathConstraints::Train), None);
    assert_eq!(road.find_closest_lane(from(2), PathConstraints::Pedestrian), None);
    assert_eq!(road.find_closest_lane(from(9), PathConstraints::Pedestrian), Some(from(2)));
    assert_eq!(road.lane_specs().len(), 6);
    assert_eq!(road.lane_specs()[2].lt, LaneType::Sidewalk);
    assert_eq!(road.get_half_width(), RoadWidth(90_000));
}

#[test]
fn what_changed_between_two_roads() {
    let a = snapshot(
        vec![
            (LaneType::Sidewalk, Direction::Back, 15_000),
            (LaneType::Parking, Direction::Back, 25_000),
            (LaneType::Driving, Direction::Fwd, 30_000),
        ],
        100_000,
    );
    // Nothing changed: the number of widths is given all the same.
    assert_eq!(a.diff(&a.clone()), vec!["0 lane widths"]);

    let mut b = a.clone();
    b.lanes_ltr[1].lt = LaneType::Biking;
    assert_eq!(b.diff(&a), vec!["1 lane type", "0 lane widths"]);

    b.lanes_ltr[0].lt = LaneType::Shoulder;
    b.lanes_ltr[2].dir = Direction::Back;
    b.lanes_ltr[2].width = Distance(1);
    assert_eq!(b.diff(&a), vec!["2 lane types", "1 lane reversal", "1 lane width"]);

    b.lanes_ltr[0].dir = Direction::Fwd;
    b.lanes_ltr[0].width = Distance(2);
    b.speed_limit = Speed(1);
    b.access_restrictions.cap_vehicles_per_hour = Some(5);
    assert_eq!(
        b.diff(&a),
        vec![
            "2 lane types",
            "2 lane reversals",
            "2 lane widths",
            "speed limit",
            "access restrictions"
        ]
    );

    // Only the lanes that both have are compared.
    let mut c = a.clone();
    c.lanes_ltr.truncate(1);
    c.lanes_ltr[0].width = Distance(9);
    assert_eq!(c.diff(&a), vec!["1 lane width"]);
    assert_eq!(a.diff(&c), vec!["1 lane width"]);
}

#[test]
fn restrictions_are_compared_in_full() {
    let open = AccessRestrictions::new();
    assert!(open.same_as(&AccessRestrictions::new()));
    let mut capped = open;
    capped.cap_vehicles_per_hour = Some(10);
    assert!(!capped.same_as(&open));
    let mut other = capped;
    other.cap_vehicles_per_hour = Some(11);
    assert!(!capped.same_as(&other));
    other.cap_vehicles_per_hour = Some(10);
    assert!(capped.same_as(&other));
    other.allow_pedestrians = false;
    assert!(!capped.same_as(&other));
}

#[test]
fn commands_in_words() {
    let map = small_map();
    let a = snapshot(vec![(LaneType::Driving, Direction::Fwd, 30_000)], 100_000);
    let mut b = a.clone();
    b.speed_limit = Speed(50_000);
    let cmd = EditCmd::ChangeRoad { r: RoadID(0), old: a, new: b };
    let (summary, details) = cmd.describe(&map);
    assert_eq!(summary, "road #0");
    assert_eq!(details, vec!["0 lane widths", "speed limit"]);

    let close = EditCmd::ChangeIntersection {
        i: IntersectionID(1),
        old: EditIntersection::Closed,
        new: EditIntersection::Closed,
    };
    assert_eq!(close.describe(&map), ("close Intersection #1".to_string(), Vec::new()));
    let later = EditCmd::ChangeRouteSchedule {
        id: TransitRouteID(0),
        old: Vec::new(),
        new: vec![Time(1)],
    };
    assert_eq!(later.describe(&map).0, "reschedule route X9");
    let cross = EditCmd::ChangeCrosswalks {
        i: IntersectionID(1),
        old: map.get_i_crosswalks_edit(IntersectionID(1)),
        new: map.get_i_crosswalks_edit(IntersectionID(1)),
    };
    assert_eq!(cross.describe(&map).0, "crosswalks at Intersection #1");
}

#[test]
fn a_command_taken_back_twice_is_the_command() {
    let a = snapshot(vec![(LaneType::Driving, Direction::Fwd, 30_000)], 100_000);
    let b = snapshot(vec![(LaneType::Biking, Direction::Fwd, 20_000)], 90_000);
    let cmd = EditCmd::ChangeRoad { r: RoadID(4), old: a.clone(), new: b.clone() };
    let back = cmd.clone().undo();
    match &back {
        EditCmd::ChangeRoad { r, old, new } => {
            assert_eq!(*r, RoadID(4));
            assert!(old.same_as(&b));
            assert!(new.same_as(&a));
        }
        _ => panic!("not a change to a road"),
    }
    assert!(!back.same_as(&cmd));
    assert!(back.undo().same_as(&cmd));

    let later = EditCmd::ChangeRouteSchedule {
        id: TransitRouteID(2),
        old: vec![Time(1)],
        new: vec![Time(2), Time(3)],
    };
    match later.clone().undo() {
        EditCmd::ChangeRouteSchedule { id, old, new } => {
            assert_eq!(id, TransitRouteID(2));
            assert_eq!(old, vec![Time(2), Time(3)]);
            assert_eq!(new, vec![Time(1)]);
        }
        _ => panic!("not a change to a schedule"),
    }
    assert!(!later.same_as(&cmd));
}

#[test]
fn logs_begin_alike() {
    let a = snapshot(vec![(LaneType::Driving, Direction::Fwd, 30_000)], 100_000);
    let b = snapshot(vec![(LaneType::Biking, Direction::Fwd, 20_000)], 90_000);
    let x = EditCmd::ChangeRoad { r: RoadID(0), old: a.clone(), new: b.clone() };
    let y = EditCmd::ChangeRoad { r: RoadID(1), old: a.clone(), new: b.clone() };
    let z = EditCmd::ChangeRoad { r: RoadID(2), old: a, new: b };
    let one = vec![x.clone(), y.clone()];
    let two = vec![x.clone(), z.clone()];
    assert_eq!(common_prefix(&one, &two), 1);
    assert_eq!(common_prefix(&one, &one.clone()), 2);
    assert_eq!(common_prefix(&one, &vec![x.clone()]), 1);
    assert_eq!(common_prefix(&one, &Vec::new()), 0);
    assert_eq!(common_prefix(&vec![y, x], &two), 0);
}

#[test]
fn the_title_of_edits() {
    let mut edits = MapEdits::new();
    assert_eq!(edits.get_title(), "TODO temporary");
    assert!(edits.merge_zones);
    edits.edits_name = "lakeslice".to_string();
    assert_eq!(edits.get_title(), "lakeslice");
    edits.proposal_description = vec!["More bike lanes".to_string(), "and fewer cars".to_string()];
    assert_eq!(edits.get_title(), "More bike lanes");

    let mut other = MapEdits::new();
    assert!(!edits.same_as(&other));
    other.edits_name = "lakeslice".to_string();
    other.proposal_description = edits.proposal_description.clone();
    assert!(edits.same_as(&other));
    other.proposal_link = Some("https://example.org".to_string());
    assert!(!edits.same_as(&other));
    other.proposal_link = None;
    other.merge_zones = false;
    assert!(!edits.same_as(&other));
}

#[test]
fn the_checksum_of_saved_edits() {
    assert_eq!(
        MapEdits::get_checksum(b"abcdefghijklmnopqrstuvwxyz"),
        "c3fcd3d76192e4007dfb496cca67e13b"
    );
    assert_eq!(MapEdits::get_checksum(b""), "d41d8cd98f00b204e9800998ecf8427e");
    assert_eq!(MapEdits::get_checksum(b"a"), "0cc175b9c0f1b6a831c399e269772661");
    assert_eq!(map_model::checksum::to_hex(&[0, 9, 10, 255, 16]), "00090aff10");
}

fn saved(city: &str, commands: Vec<EditCmd>) -> PermanentMapEdits {
    PermanentMapEdits {
        city: city.to_string(),
        edits_name: "proposal".to_string(),
        commands,
        merge_zones: false,
        proposal_description: vec!["A proposal".to_string()],
        proposal_link: None,
    }
}

#[test]
fn saved_edits_are_taken_into_use() {
    let map = small_map();
    let a = snapshot(vec![(LaneType::Driving, Direction::Fwd, 30_000)], 100_000);
    let on_road = |r| EditCmd::ChangeRoad { r: RoadID(r), old: a.clone(), new: a.clone() };
    let at_border = EditCmd::ChangeIntersection {
        i: IntersectionID(0),
        old: EditIntersection::Closed,
        new: EditIntersection::Closed,
    };
    let at_closed = EditCmd::ChangeIntersection {
        i: IntersectionID(1),
        old: EditIntersection::Closed,
        new: EditIntersection::Closed,
    };
    let no_route =
        EditCmd::ChangeRouteSchedule { id: TransitRouteID(3), old: Vec::new(), new: Vec::new() };
    assert!(on_road(0).targets_exist(&map));
    assert!(!on_road(1).targets_exist(&map));
    assert!(!at_border.targets_exist(&map));
    assert!(at_closed.targets_exist(&map));
    assert!(!no_route.targets_exist(&map));

    let cmds = vec![on_road(5), at_border.clone(), on_road(0), no_route.clone(), at_closed.clone()];
    assert!(!map.has_all_targets(&cmds));
    match MapEdits::load_from_file(&map, saved("leeds", cmds)) {
        Ok(edits) => {
            assert_eq!(edits.commands.len(), 2);
            assert!(edits.commands[0].same_as(&on_road(0)));
            assert!(edits.commands[1].same_as(&at_closed));
            assert_eq!(edits.edits_name, "proposal");
            assert!(!edits.merge_zones);
            assert_eq!(edits.get_title(), "A proposal");
            assert!(map.has_all_targets(&edits.commands));
        }
        Err(e) => panic!("not taken into use: {:?}", e),
    }

    match MapEdits::load_from_file(&map, saved("leeds", vec![on_road(5), at_border, no_route])) {
        Err(e) => assert_eq!(e, LoadError::NothingApplies),
        Ok(_) => panic!("taken into use"),
    }
    match MapEdits::load_from_bytes(&map, saved("leeds", Vec::new())) {
        Err(e) => assert_eq!(e, LoadError::NothingApplies),
        Ok(_) => panic!("taken into use"),
    }
    match MapEdits::load_from_file(&map, saved("bristol", vec![on_road(0)])) {
        Err(e) => assert_eq!(e, LoadError::WrongCity),
        Ok(_) => panic!("taken into use"),
    }
    // Bytes do not say where they belong.
    assert!(MapEdits::load_from_bytes(&map, saved("bristol", vec![on_road(0)])).is_ok());
}

#[test]
fn a_place_in_a_tour() {
    let p = TutorialPointer::new(2, 5);
    assert_eq!(p.stage, 2);
    assert_eq!(p.part, 5);
    assert_eq!(p, TutorialPointer { stage: 2, part: 5 });
    assert!(TutorialPointer::new(1, 9) < TutorialPointer::new(2, 0));
    assert!(Mode::PickArea != Mode::Impact);
}

#[test]
fn points_are_compared_by_their_coordinates() {
    assert_eq!(Pt2D { x: 1, y: -2 }, Pt2D { x: 1, y: -2 });
    assert!(Pt2D { x: 1, y: 2 } != Pt2D { x: 2, y: 1 });
    let line = PolyLine { pts: vec![Pt2D { x: 0, y: 0 }, Pt2D { x: 5, y: 5 }] };
    assert_eq!(line.clone().pts, line.pts);
}

#[test]
fn a_command_is_described_without_its_target() {
    let map = small_map();
    let close = EditCmd::ChangeIntersection {
        i: IntersectionID(99),
        old: EditIntersection::Closed,
        new: EditIntersection::Closed,
    };
    assert!(!map.has_all_targets(&vec![close.clone()]));
    assert_eq!(close.describe(&map).0, "close Intersection #99");
    let a = snapshot(vec![(LaneType::Driving, Direction::Fwd, 30_000)], 100_000);
    let cmd = EditCmd::ChangeRoad { r: RoadID(77), old: a.clone(), new: a };
    assert_eq!(cmd.describe(&map).0, "road #77");
}
