use cocklike::geometry::{IVec2, Rectangle};
use cocklike::map::{draw_line_cardinal, entity_map_rooms_passages, fill_rect, rooms_passages_from_draws, RoomDraw, simple_entity_map, FloorBundle, TileKind, TileMap, WallBundle};
use cocklike::movement::{
    do_point_move, update_collidables, CollidableChangeEvent, Collidables, MapSize, MoveOutcome,
};
use cocklike::pathfinding::{dijkstra, Path};
use cocklike::color::Palette;

fn small_world(w: u32, h: u32, blockers: Vec<(u64, IVec2)>) -> Collidables {
    let mut c = Collidables::new(&MapSize { width: w, height: h });
    update_collidables(&mut c, &blockers, &vec![]);
    c
}

#[test]
fn map_size_default() {
    assert_eq!(MapSize::default(), MapSize { width: 80, height: 40 });
}

#[test]
fn rectangle_center_and_intersection() {
    let r = Rectangle::new(IVec2::new(1, 1), 6, 8);
    assert_eq!(r.center(), IVec2::new(4, 5));
    let far = Rectangle::new(IVec2::new(20, 20), 3, 3);
    assert!(!r.intersect(&far));
    assert!(!far.intersect(&r));
    let touching = Rectangle::new(IVec2::new(7, 9), 2, 2);
    assert!(r.intersect(&touching));
    assert!(touching.intersect(&r));
    let neg = Rectangle::new(IVec2::new(-5, -5), 2, 2);
    assert_eq!(neg.center(), IVec2::new(-4, -4));
}

#[test]
fn cardinal_lines() {
    let v = draw_line_cardinal(IVec2::new(2, 1), IVec2::new(2, 4));
    assert_eq!(v, vec![IVec2::new(2, 1), IVec2::new(2, 2), IVec2::new(2, 3), IVec2::new(2, 4)]);
    let h = draw_line_cardinal(IVec2::new(0, 3), IVec2::new(2, 3));
    assert_eq!(h, vec![IVec2::new(0, 3), IVec2::new(1, 3), IVec2::new(2, 3)]);
    assert!(draw_line_cardinal(IVec2::new(0, 0), IVec2::new(1, 1)).is_empty());
}

#[test]
fn fill_rect_fills_inside_only() {
    let mut m = TileMap::filled(12, 12, TileKind::Wall);
    fill_rect(&mut m, TileKind::Floor, &Rectangle::new(IVec2::new(2, 3), 2, 1));
    assert_eq!(m.get(2, 3), Some(TileKind::Floor));
    assert_eq!(m.get(4, 4), Some(TileKind::Floor));
    assert_eq!(m.get(5, 4), Some(TileKind::Wall));
    assert_eq!(m.get(1, 3), Some(TileKind::Wall));
    assert_eq!(m.get(12, 0), None);
}

#[test]
fn map_laid_from_given_attempts() {
    let size = MapSize { width: 30, height: 20 };
    let draws = vec![
        RoomDraw { w: 6, h: 6, x: 1, y: 1, horizontal_first: true },
        // Overlaps the first room: not kept.
        RoomDraw { w: 6, h: 6, x: 3, y: 3, horizontal_first: false },
        RoomDraw { w: 6, h: 6, x: 15, y: 10, horizontal_first: true },
    ];
    let (map, rooms) = rooms_passages_from_draws(&size, &draws);
    assert_eq!(
        rooms.0,
        vec![
            Rectangle { pos1: IVec2::new(1, 1), pos2: IVec2::new(7, 7) },
            Rectangle { pos1: IVec2::new(15, 10), pos2: IVec2::new(21, 16) },
        ]
    );
    // The passage runs along row 4 from (4, 4) and then down column 18 to (18, 13).
    assert_eq!(map.get(10, 4), Some(TileKind::Floor));
    assert_eq!(map.get(18, 8), Some(TileKind::Floor));
    assert_eq!(map.get(10, 5), Some(TileKind::Wall));
    assert_eq!(map.get(4, 10), Some(TileKind::Wall));
    let mut floor = 0;
    for y in 0..20 {
        for x in 0..30 {
            if map.get(x, y) == Some(TileKind::Floor) {
                floor += 1;
            }
        }
    }
    assert_eq!(floor, 49 + 49 + 11 + 5);
    // With the other leg first the passage runs down column 4 and then along row 13.
    let mut flipped = draws.clone();
    flipped[2].horizontal_first = false;
    let (map, _) = rooms_passages_from_draws(&size, &flipped);
    assert_eq!(map.get(4, 10), Some(TileKind::Floor));
    assert_eq!(map.get(10, 13), Some(TileKind::Floor));
    assert_eq!(map.get(10, 4), Some(TileKind::Wall));
}

#[test]
fn generated_map_keeps_its_laws() {
    let size = MapSize { width: 40, height: 30 };
    let (map, rooms) = entity_map_rooms_passages(&size);
    assert!(!rooms.0.is_empty() && rooms.0.len() <= 31);
    for x in 0..40 {
        assert_eq!(map.get(x, 0), Some(TileKind::Wall));
        assert_eq!(map.get(x, 29), Some(TileKind::Wall));
    }
    for (i, a) in rooms.0.iter().enumerate() {
        for y in a.pos1.y..=a.pos2.y {
            for x in a.pos1.x..=a.pos2.x {
                assert_eq!(map.get(x, y), Some(TileKind::Floor));
            }
        }
        for b in rooms.0.iter().skip(i + 1) {
            assert!(!a.intersect(b));
        }
        // Each room after the first is joined to the one before it by an
        // L-shaped passage of floor between their centres.
        if i > 0 {
            let p = rooms.0[i - 1].center();
            let c = a.center();
            let floor = |x: i32, y: i32| map.get(x, y) == Some(TileKind::Floor);
            let row = |y: i32| (p.x.min(c.x)..=p.x.max(c.x)).all(|x| floor(x, y));
            let column = |x: i32| (p.y.min(c.y)..=p.y.max(c.y)).all(|y| floor(x, y));
            assert!((row(p.y) && column(c.x)) || (column(p.x) && row(c.y)));
        }
    }
}

#[test]
fn moves_bump_stay_or_move() {
    let size = MapSize { width: 5, height: 5 };
    let c = small_world(5, 5, vec![(9, IVec2::new(2, 2))]);
    assert_eq!(do_point_move(IVec2::new(1, 2), IVec2::new(1, 0), true, &size, &c), MoveOutcome::Bump(9));
    assert_eq!(do_point_move(IVec2::new(1, 2), IVec2::new(1, 0), false, &size, &c), MoveOutcome::Stay);
    assert_eq!(do_point_move(IVec2::new(0, 0), IVec2::new(-1, 0), true, &size, &c), MoveOutcome::Stay);
    assert_eq!(do_point_move(IVec2::new(4, 4), IVec2::new(0, 1), true, &size, &c), MoveOutcome::Stay);
    assert_eq!(do_point_move(IVec2::new(1, 1), IVec2::new(1, 0), true, &size, &c), MoveOutcome::Move(IVec2::new(2, 1)));
}

#[test]
fn collidables_follow_moves() {
    let size = MapSize { width: 5, height: 5 };
    let mut c = small_world(5, 5, vec![(9, IVec2::new(2, 2))]);
    update_collidables(
        &mut c,
        &vec![],
        &vec![CollidableChangeEvent { old_position: IVec2::new(2, 2), new_position: IVec2::new(3, 2), entity: 9 }],
    );
    assert_eq!(do_point_move(IVec2::new(1, 2), IVec2::new(1, 0), true, &size, &c), MoveOutcome::Move(IVec2::new(2, 2)));
    assert_eq!(do_point_move(IVec2::new(4, 2), IVec2::new(-1, 0), true, &size, &c), MoveOutcome::Bump(9));
}

fn eight() -> Vec<IVec2> {
    vec![
        IVec2::new(1, 0), IVec2::new(0, 1), IVec2::new(-1, 0), IVec2::new(0, -1),
        IVec2::new(1, 1), IVec2::new(-1, 1), IVec2::new(-1, -1), IVec2::new(1, -1),
    ]
}

fn weights(w: u32, h: u32) -> sark_grids::Grid<u32> {
    sark_grids::Grid::filled(0, [w, h])
}

#[test]
fn dijkstra_finds_a_walk_around_a_wall() {
    // A wall across the middle column with a gap at the top.
    let blockers: Vec<(u64, IVec2)> = (0..4).map(|y| (100 + y as u64, IVec2::new(2, y))).collect();
    let c = small_world(5, 5, blockers);
    let start = IVec2::new(0, 0);
    let goal = IVec2::new(4, 0);
    let path = dijkstra(&start, &goal, &vec![IVec2::new(1, 0), IVec2::new(0, 1), IVec2::new(-1, 0), IVec2::new(0, -1)], &c.0, &weights(5, 5));
    assert_eq!(path.positions.back(), Some(&goal));
    // Each step is one of the moves and avoids the wall.
    let mut prev = start;
    for p in path.positions.iter() {
        assert_eq!((p.x - prev.x).abs() + (p.y - prev.y).abs(), 1);
        assert!(!(p.x == 2 && p.y < 4));
        prev = *p;
    }
    assert_eq!(path.positions.len(), 12);
    assert_eq!(path.cost, 12);
}

#[test]
fn dijkstra_without_route_or_to_itself() {
    let blockers: Vec<(u64, IVec2)> = (0..5).map(|y| (100 + y as u64, IVec2::new(2, y))).collect();
    let c = small_world(5, 5, blockers);
    let p = dijkstra(&IVec2::new(0, 0), &IVec2::new(4, 4), &eight(), &c.0, &weights(5, 5));
    assert!(p.positions.is_empty());
    assert_eq!(p.cost, u32::MAX);
    let p = dijkstra(&IVec2::new(1, 1), &IVec2::new(1, 1), &eight(), &c.0, &weights(5, 5));
    assert!(p.positions.is_empty());
    assert_eq!(p.cost, 0);
    let d = Path::default();
    assert!(d.positions.is_empty() && d.cost == 0);
}

#[test]
fn map_object_bundles() {
    let w = WallBundle::default();
    assert_eq!(w.renderable.base_tile.glyph, '#');
    assert_eq!(w.renderable.order, 32);
    let f = FloorBundle::default();
    assert_eq!(f.renderable.base_tile.fg_color, Palette::DarkGray);
    assert_eq!(f.renderable.order, 48);
}

#[test]
fn simple_map_walls_its_edges() {
    let size = MapSize { width: 4, height: 3 };
    let walls = simple_entity_map(&size);
    assert_eq!(walls.len(), 3 + 3 + 4 + 4 + 100);
    let edges = vec![
        IVec2::new(0, 0), IVec2::new(0, 1), IVec2::new(0, 2),
        IVec2::new(3, 0), IVec2::new(3, 1), IVec2::new(3, 2),
        IVec2::new(0, 2), IVec2::new(1, 2), IVec2::new(2, 2), IVec2::new(3, 2),
        IVec2::new(0, 0), IVec2::new(1, 0), IVec2::new(2, 0), IVec2::new(3, 0),
    ];
    assert_eq!(walls[..14].to_vec(), edges);
    assert!(walls[14..].iter().all(|p| 0 <= p.x && p.x < 4 && 0 <= p.y && p.y < 3));
    // A map one tile wide has its top and bottom rows as single tiles.
    let thin = simple_entity_map(&MapSize { width: 1, height: 2 });
    assert_eq!(thin[..6].to_vec(), vec![
        IVec2::new(0, 0), IVec2::new(0, 1), IVec2::new(0, 0), IVec2::new(0, 1), IVec2::new(0, 1), IVec2::new(0, 0),
    ]);
}

#[test]
fn dijkstra_takes_the_cheapest_route() {
    // Entering (2, 1) costs 10; going round it costs 6 in all.
    let c = small_world(5, 3, vec![]);
    let mut w = weights(5, 3);
    w[[2u32, 1u32]] = 9;
    let cardinal = vec![IVec2::new(1, 0), IVec2::new(0, 1), IVec2::new(-1, 0), IVec2::new(0, -1)];
    let path = dijkstra(&IVec2::new(0, 1), &IVec2::new(4, 1), &cardinal, &c.0, &w);
    assert_eq!(path.cost, 6);
    assert_eq!(path.positions.len(), 6);
    assert!(!path.positions.contains(&IVec2::new(2, 1)));
    // With the heavy tile gone the straight route is the cheapest.
    let path = dijkstra(&IVec2::new(0, 1), &IVec2::new(4, 1), &cardinal, &c.0, &weights(5, 3));
    assert_eq!(path.cost, 4);
    assert_eq!(path.positions.iter().copied().collect::<Vec<_>>(), vec![
        IVec2::new(1, 1), IVec2::new(2, 1), IVec2::new(3, 1), IVec2::new(4, 1),
    ]);
}
