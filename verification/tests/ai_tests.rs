use std::collections::VecDeque;

use cocklike::ai::{
    choose_target, distance_sq, engage_behavior, engage_can_route, melee_behavior, pathing_grids, ranged_behavior, targetting_behavior,
    wander_behaviour, Engages, TargetCandidate, Wanderer,
};
use cocklike::alignments::{Alignment, Relations};
use cocklike::geometry::{IVec2, Rectangle};
use cocklike::movement::{update_collidables, Collidables, MapSize, PointMoveEvent};
use cocklike::stats::{Stat, StatMap, StatType, StatVisibility, Stats};
use cocklike::turn::{ActorRemovedEvent, Turns};
use cocklike::status_effects::{
    tranced_behavior, StatusEffect, StatusEffectApplication, StatusEffectStacking, StatusEffectType, StatusEffects,
};

fn soldier_side() -> Relations {
    Relations::new(vec![Alignment::AntiCock], vec![Alignment::AntiCock], vec![Alignment::Cock])
}

fn cock_side() -> Relations {
    Relations::new(vec![Alignment::Cock], vec![Alignment::Cock], vec![Alignment::AntiCock])
}

fn candidate(entity: u64, x: i32, y: i32, visible: bool, stealth: Option<i32>) -> TargetCandidate {
    TargetCandidate {
        entity,
        position: IVec2::new(x, y),
        relations: cock_side(),
        visible,
        stats: stealth.map(|s| Stats(StatMap::from_entries(vec![(StatType::StealthRange, Stat::with_value(s, 1, 128, StatVisibility::Private))]))),
    }
}

fn turns() -> Turns {
    Turns { order: vec![1, 2], current: 0, progress: false }
}

#[test]
fn engages_default_and_target() {
    let mut e = Engages::default();
    assert_eq!(e.delay, 1);
    assert_eq!(e.get_target(), None);
    assert!(!e.get_alert());
    e.target = Some(5);
    e.delay_timer = 1;
    assert!(e.get_alert());
    assert_eq!(e.get_target(), None);
    e.delay_timer = 2;
    assert_eq!(e.get_target(), Some(5));
    assert!(!e.get_alert());
}

#[test]
fn squared_distance() {
    assert_eq!(distance_sq(IVec2::new(1, 2), IVec2::new(4, 6)), 25);
    assert_eq!(distance_sq(IVec2::new(i32::MIN, 0), IVec2::new(i32::MAX, 0)), (u32::MAX as u128) * (u32::MAX as u128));
}

#[test]
fn targetting_picks_closest_spotted_enemy() {
    let me = soldier_side();
    let mut e = Engages::default();
    let cands = vec![
        candidate(10, 5, 0, true, None),
        candidate(11, 2, 0, true, None),
        candidate(12, 1, 0, false, None),
        TargetCandidate { entity: 13, position: IVec2::new(1, 1), relations: soldier_side(), visible: true, stats: None },
    ];
    choose_target(&mut e, &vec![], &me, IVec2::new(0, 0), &cands, &vec![None, None, None, None]);
    assert_eq!(e.target, Some(11));
    assert_eq!(e.delay_timer, 1);
    assert!(e.get_alert());
    // Seen again: the timer counts up and the look stops there.
    choose_target(&mut e, &vec![], &me, IVec2::new(0, 0), &cands, &vec![None, None, None, None]);
    assert_eq!(e.target, Some(11));
    assert_eq!(e.delay_timer, 2);
    assert_eq!(e.get_target(), Some(11));
    // Engaged: nothing changes any more.
    choose_target(&mut e, &vec![], &me, IVec2::new(0, 0), &vec![], &vec![]);
    assert_eq!(e.target, Some(11));
    assert_eq!(e.delay_timer, 2);
}

#[test]
fn targetting_loses_sight_and_removed_targets() {
    let me = soldier_side();
    let mut e = Engages::default();
    e.target = Some(10);
    e.delay_timer = 1;
    let cands = vec![candidate(10, 5, 0, false, None)];
    choose_target(&mut e, &vec![], &me, IVec2::new(0, 0), &cands, &vec![None]);
    assert_eq!(e.target, None);
    assert_eq!(e.delay_timer, 0);
    let mut e = Engages::default();
    e.target = Some(10);
    e.delay_timer = 5;
    choose_target(&mut e, &vec![ActorRemovedEvent::new(10, 3)], &me, IVec2::new(0, 0), &vec![], &vec![]);
    assert_eq!(e.target, None);
    assert_eq!(e.delay_timer, 5);
}

#[test]
fn stealthy_enemy_needs_a_good_roll() {
    let me = soldier_side();
    let cands = vec![candidate(10, 3, 0, true, Some(7))];
    let mut e = Engages::default();
    choose_target(&mut e, &vec![], &me, IVec2::new(0, 0), &cands, &vec![Some(15)]);
    assert_eq!(e.target, None);
    choose_target(&mut e, &vec![], &me, IVec2::new(0, 0), &cands, &vec![Some(16)]);
    assert_eq!(e.target, Some(10));
    // Out of its stealth range it is not spotted at all.
    let far = vec![candidate(10, 8, 0, true, Some(7))];
    let mut e = Engages::default();
    choose_target(&mut e, &vec![], &me, IVec2::new(0, 0), &far, &vec![Some(20)]);
    assert_eq!(e.target, None);
}

#[test]
fn targetting_behaviour_with_real_dice() {
    let me = soldier_side();
    let mut e = Engages::default();
    targetting_behavior(&mut e, &vec![], &me, IVec2::new(0, 0), &vec![candidate(10, 3, 0, true, None)]);
    assert_eq!(e.target, Some(10));
    assert_eq!(e.delay_timer, 1);
}

#[test]
fn melee_behaviour_bumps_into_target() {
    let mut t = turns();
    let mut e = Engages::default();
    e.target = Some(2);
    let moves = vec![IVec2::new(1, 0), IVec2::new(0, 1), IVec2::new(1, 1)];
    let r = melee_behavior(&mut t, 1, IVec2::new(3, 3), &e, Some(IVec2::new(4, 4)), &moves);
    assert_eq!(r, vec![PointMoveEvent { entity: 1, movement: IVec2::new(1, 1) }]);
    assert!(t.progress);
    let mut t = turns();
    let r = melee_behavior(&mut t, 1, IVec2::new(0, 0), &e, Some(IVec2::new(4, 4)), &moves);
    assert!(r.is_empty());
    assert!(!t.progress);
}

#[test]
fn ranged_behaviour_fires_when_seen() {
    let mut t = turns();
    let mut e = Engages::default();
    e.target = Some(2);
    let r = ranged_behavior(&mut t, 1, &e, Some(IVec2::new(4, 4)), false);
    assert!(r.is_none());
    assert!(!t.progress);
    let r = ranged_behavior(&mut t, 1, &e, Some(IVec2::new(4, 4)), true).unwrap();
    assert_eq!(r.targetting_entity, 1);
    assert_eq!(r.target, IVec2::new(4, 4));
    assert!(t.progress);
}

fn world(w: u32, h: u32, blockers: Vec<(u64, IVec2)>) -> Collidables {
    let mut c = Collidables::new(&MapSize { width: w, height: h });
    update_collidables(&mut c, &blockers, &vec![]);
    c
}

#[test]
fn pathing_grids_take_actors_out() {
    let c = world(4, 4, vec![(1, IVec2::new(0, 0)), (2, IVec2::new(1, 1)), (3, IVec2::new(2, 2))]);
    let (g0, g1) = pathing_grids(&c.0, &vec![IVec2::new(0, 0), IVec2::new(1, 1)]);
    assert_eq!(g0[[0i32, 0]], None);
    assert_eq!(g0[[1i32, 1]], None);
    assert_eq!(g0[[2i32, 2]], Some(3));
    assert_eq!(g1[[0i32, 0]], 8);
    assert_eq!(g1[[1i32, 1]], 8);
    assert_eq!(g1[[2i32, 2]], 0);
}

#[test]
fn engaging_actor_steps_towards_target() {
    let c = world(6, 6, vec![(1, IVec2::new(0, 0)), (2, IVec2::new(5, 0))]);
    let moves = vec![IVec2::new(1, 0), IVec2::new(-1, 0), IVec2::new(0, 1), IVec2::new(0, -1)];
    let mut t = Turns { order: vec![1, 2], current: 0, progress: false };
    let mut e = Engages::default();
    e.target = Some(2);
    let actors = vec![IVec2::new(0, 0), IVec2::new(5, 0)];
    let ev = engage_behavior(&mut t, 1, IVec2::new(0, 0), &mut e, Some(IVec2::new(5, 0)), &moves, &c, &actors);
    assert_eq!(ev, Some(PointMoveEvent { entity: 1, movement: IVec2::new(1, 0) }));
    assert!(t.progress);
    assert_eq!(e.path.positions.back(), Some(&IVec2::new(5, 0)));
    assert_eq!(e.path.positions.len(), 4);
    // Within reach: nothing happens.
    let mut t = Turns { order: vec![1, 2], current: 0, progress: false };
    let mut e2 = Engages::default();
    e2.target = Some(2);
    e2.distance_sq = 25;
    let ev = engage_behavior(&mut t, 1, IVec2::new(0, 0), &mut e2, Some(IVec2::new(5, 0)), &moves, &c, &actors);
    assert_eq!(ev, None);
    assert!(!t.progress);
}

#[test]
fn engaging_actor_waits_when_blocked() {
    let c = world(6, 6, vec![(1, IVec2::new(0, 0)), (3, IVec2::new(1, 0))]);
    let moves = vec![IVec2::new(1, 0)];
    let mut t = Turns { order: vec![1], current: 0, progress: false };
    let mut e = Engages::default();
    e.target = Some(2);
    e.distance_sq = 4;
    e.path.positions = VecDeque::from(vec![IVec2::new(1, 0), IVec2::new(2, 0)]);
    let ev = engage_behavior(&mut t, 1, IVec2::new(0, 0), &mut e, Some(IVec2::new(5, 0)), &moves, &c, &vec![IVec2::new(0, 0)]);
    assert_eq!(ev, None);
    assert!(t.progress);
    assert_eq!(e.path.positions.len(), 2);
    // A route whose end lies out of reach is dropped and searched anew: the
    // new one goes round the blocker.
    let all = vec![IVec2::new(1, 0), IVec2::new(0, 1), IVec2::new(0, -1), IVec2::new(-1, 0)];
    let actors = vec![IVec2::new(0, 0)];
    let mut t = Turns { order: vec![1], current: 0, progress: false };
    e.distance_sq = 3;
    assert!(engage_can_route(&t, IVec2::new(0, 0), &e, Some(IVec2::new(5, 0)), &all, &c, &actors));
    let ev = engage_behavior(&mut t, 1, IVec2::new(0, 0), &mut e, Some(IVec2::new(5, 0)), &all, &c, &actors);
    assert_eq!(ev, Some(PointMoveEvent { entity: 1, movement: IVec2::new(0, 1) }));
    assert!(t.progress);
    assert_eq!(e.path.positions.back(), Some(&IVec2::new(5, 0)));
    assert_eq!(e.path.cost, 7);
    // Moving right only, no route goes round: the behaviour cannot go ahead.
    let t = Turns { order: vec![1], current: 0, progress: false };
    e.path.positions = VecDeque::from(vec![IVec2::new(1, 0), IVec2::new(2, 0)]);
    assert!(!engage_can_route(&t, IVec2::new(0, 0), &e, Some(IVec2::new(5, 0)), &moves, &c, &actors));
    // Within reach of the route's end, no search is needed.
    e.distance_sq = 4;
    assert!(engage_can_route(&t, IVec2::new(0, 0), &e, Some(IVec2::new(5, 0)), &moves, &c, &actors));
}

#[test]
fn wanderer_picks_an_area_and_a_route() {
    let c = world(10, 10, vec![(1, IVec2::new(0, 0))]);
    let rooms = vec![Rectangle::new(IVec2::new(2, 2), 2, 2)];
    let mut w = Wanderer::new(rooms.clone());
    assert_eq!(w.get_target(), rooms[0]);
    let mut t = Turns { order: vec![1], current: 0, progress: false };
    wander_behaviour(&mut t, IVec2::new(0, 0), &mut w, &vec![IVec2::new(1, 1), IVec2::new(1, 0)], &c, &vec![IVec2::new(0, 0)]);
    assert!(t.progress);
    assert_eq!(w.target_index, 0);
    assert_eq!(w.path.positions.back(), Some(&IVec2::new(3, 3)));
}

#[test]
fn tranced_actor_neither_strikes_nor_fires() {
    let mut s = StatusEffects::default();
    s.apply(&StatusEffectApplication {
        effect: StatusEffect {
            status_type: StatusEffectType::Tranced,
            from: None,
            tile_modification: None,
            duration: None,
            stat_modification: None,
        },
        stacking: StatusEffectStacking::Refreshes,
    });
    let mut t = turns();
    tranced_behavior(&mut t, Some(&s));
    let mut e = Engages::default();
    e.target = Some(2);
    let moves = vec![IVec2::new(1, 1)];
    assert!(melee_behavior(&mut t, 1, IVec2::new(3, 3), &e, Some(IVec2::new(4, 4)), &moves).is_empty());
    assert!(ranged_behavior(&mut t, 1, &e, Some(IVec2::new(4, 4)), true).is_none());
}
