use cocklike::attack::{
    attack_hit, attack_message, attack_valid, can_pay, resolve_attack, Attack, AttackEvent, AttackOutcome,
    AttackParties, AttackType,
};
use cocklike::color::Palette;
use cocklike::dice::{is_plain_dice_text, Dice};
use cocklike::geometry::IVec2;
use cocklike::healing::heal_action;
use cocklike::log::Log;
use cocklike::melee::{bump_melee_attack, MeleeAttacker};
use cocklike::movement::{update_collidables, BumpEvent, Collidables, MapSize};
use cocklike::ranged::{
    aimed_attack_goes_ahead, burst_hits, first_stopped_shot, projectile_fires, shot_end, ShotEnd,
};
use cocklike::stats::{Stat, StatMap, StatType, StatVisibility, Stats};
use cocklike::status_effects::{StatusEffect, StatusEffectApplication, StatusEffectStacking, StatusEffectType};
use cocklike::vore::{update_vore, vore_attack, Digesting, Meal};
use cocklike::turn::Turns;

fn stats_of(entries: Vec<(StatType, Stat)>) -> Stats {
    Stats(StatMap::from_entries(entries))
}

fn soldier_stats() -> Stats {
    stats_of(vec![
        (StatType::Health, Stat::new(0, 7, StatVisibility::Public)),
        (StatType::Resistance, Stat::new(0, 7, StatVisibility::Public)),
    ])
}

fn text(line: &Vec<cocklike::log::LogFragment>) -> String {
    line.iter().map(|f| f.text.clone()).collect()
}

#[test]
fn default_attack() {
    let a = Attack::default().unwrap();
    assert_eq!(a.interact_text, vec!["{attacker} hits {attacked} for {amount} damage!".to_string()]);
    assert_eq!(a.damage.expression, "1d4 * -1");
    assert!((-4..=-1).contains(&a.damage.total));
    assert_eq!(a.cost.total, 0);
    assert_eq!(a.save, 16);
    assert_eq!(a.damage_type, StatType::Health);
}

#[test]
fn dice_roll_within_bounds() {
    let mut d = Dice::new("1d20").unwrap();
    assert!((1..=20).contains(&d.total));
    let (reason, total) = d.roll().unwrap();
    assert!((1..=20).contains(&total));
    assert_eq!(d.total, total);
    assert_eq!(d.reason, reason);
    assert!(!reason.is_empty());
    assert_eq!(d.expression, "1d20");
    assert_eq!(Dice::new("7").unwrap().total, 7);
    assert!(Dice::new("not dice").is_none());
}

#[test]
fn paying_and_validity() {
    let s = stats_of(vec![(StatType::CumPoints, Stat::with_value(5, 0, 60, StatVisibility::Private))]);
    assert!(can_pay(&s, StatType::CumPoints, -4));
    assert!(!can_pay(&s, StatType::CumPoints, -5));
    assert!(!can_pay(&s, StatType::Health, -1));
    let t = soldier_stats();
    assert!(attack_valid(&t, StatType::Health, -2));
    assert!(!attack_valid(&t, StatType::Health, 2));
    assert!(!attack_valid(&t, StatType::Health, 0));
    assert!(!attack_valid(&t, StatType::Dexterity, -2));
}

fn event(attack: Attack) -> AttackEvent {
    AttackEvent { attacking_entity: 1, attacked_entity: 2, attack, attack_type: AttackType::Melee }
}

#[test]
fn resolving_attacks() {
    let mut a = Attack::default().unwrap();
    a.status_effect = Some(StatusEffectApplication {
        effect: StatusEffect { status_type: StatusEffectType::Cumblobbed, from: None, tile_modification: None, duration: Some(3), stat_modification: None },
        stacking: StatusEffectStacking::Refreshes,
    });
    a.cost_type = StatType::CumPoints;
    let ev = event(a);
    let poor = stats_of(vec![(StatType::CumPoints, Stat::with_value(1, 0, 60, StatVisibility::Private))]);
    let target = soldier_stats();
    assert_eq!(resolve_attack(&ev, -5, -2, Some(&poor), Some(&target)), AttackOutcome::CannotPay);
    match resolve_attack(&ev, 0, -2, Some(&poor), Some(&target)) {
        AttackOutcome::Hit { change, status } => {
            assert_eq!(change.stat, StatType::Health);
            assert_eq!(change.amount, -2);
            assert_eq!(change.entity, 2);
            let s = status.unwrap();
            assert_eq!(s.application.effect.from, Some(1));
            assert_eq!(s.entity, 2);
        }
        o => panic!("unexpected {:?}", o),
    }
    assert_eq!(resolve_attack(&ev, 0, 3, None, Some(&target)), AttackOutcome::NoEffect);
    assert_eq!(resolve_attack(&ev, 0, -3, None, None), AttackOutcome::NoEffect);
}

#[test]
fn attack_message_fills_in_names() {
    let a = Attack::default().unwrap();
    let m = attack_message(&a, &"Cass".to_string(), &"Soldier 0".to_string(), -3).unwrap();
    assert_eq!(m, " Cass hits Soldier 0 for -3 damage!");
    let mut bad = Attack::default().unwrap();
    bad.interact_text = vec!["{attacker's} stab".to_string()];
    assert!(attack_message(&bad, &"a".to_string(), &"b".to_string(), 1).is_none());
}

#[test]
fn attack_hit_resolves_in_order_and_stops_on_unpaid_cost() {
    let mut costly = Attack::default().unwrap();
    costly.cost = Dice::new("-5").unwrap();
    costly.cost_type = StatType::CumPoints;
    let poor = stats_of(vec![(StatType::CumPoints, Stat::with_value(1, 0, 60, StatVisibility::Private))]);
    let parties = |attacker_stats: Option<Stats>| AttackParties {
        attacker_name: "Cass".to_string(),
        attacked_name: "Soldier".to_string(),
        attacker_stats,
        attacked_stats: Some(soldier_stats()),
    };
    let events = vec![event(Attack::default().unwrap()), event(costly), event(Attack::default().unwrap())];
    let mut log = Log::default();
    let r = attack_hit(&events, &vec![parties(None), parties(Some(poor)), parties(None)], &mut log);
    assert_eq!(r.stat_changes.len(), 1);
    assert!((-4..=-1).contains(&r.stat_changes[0].amount));
    assert!(r.status_effects.is_empty());
    assert_eq!(log.lines.len(), 1);
    let line = text(&log.lines[0]);
    assert!(line.starts_with(" Cass hits Soldier for -"));
    assert!(log.lines[0].iter().all(|f| f.color == Palette::Red));
    assert_eq!(r.landed, vec![true, false, false]);
    // A landed attack without texts is told by no line.
    let mut mute = Attack::default().unwrap();
    mute.interact_text = vec![];
    let mut log = Log::default();
    let r = attack_hit(&vec![event(mute)], &vec![parties(None)], &mut log);
    assert_eq!(r.landed, vec![true]);
    assert_eq!(r.stat_changes.len(), 1);
    assert!(log.lines.is_empty());
}

#[test]
fn bumping_uses_a_usable_attack() {
    let m = MeleeAttacker { attacks: vec![Attack::default().unwrap()] };
    let ev = BumpEvent { bumping_entity: 1, bumped_entity: 2 };
    let t = soldier_stats();
    let r = bump_melee_attack(&ev, Some(&m), None, Some(&t)).unwrap();
    assert_eq!(r.attacking_entity, 1);
    assert_eq!(r.attacked_entity, 2);
    assert_eq!(r.attack_type, AttackType::Melee);
    assert!((-4..=-1).contains(&r.attack.damage.total));
    // A target at its minimum cannot be hit by a lowering attack.
    let low = stats_of(vec![(StatType::Health, Stat::with_value(0, 0, 7, StatVisibility::Public))]);
    assert!(bump_melee_attack(&ev, Some(&m), None, Some(&low)).is_none());
    assert!(bump_melee_attack(&ev, None, None, Some(&t)).is_none());
    assert!(bump_melee_attack(&ev, Some(&m), None, None).is_none());
}

#[test]
fn bumping_judges_each_attack_afresh() {
    let ev = BumpEvent { bumping_entity: 1, bumped_entity: 2 };
    let t = soldier_stats();
    let mut odd = Attack::default().unwrap();
    odd.damage_type = StatType::Dexterity;
    let m = MeleeAttacker { attacks: vec![Attack::default().unwrap(), odd.clone()] };
    for _ in 0..20 {
        let r = bump_melee_attack(&ev, Some(&m), None, Some(&t)).unwrap();
        assert_eq!(r.attack.damage_type, StatType::Health);
    }
    // An attack on a stat the target lacks is never made.
    let only_odd = MeleeAttacker { attacks: vec![odd] };
    assert!(bump_melee_attack(&ev, Some(&only_odd), None, Some(&t)).is_none());
    // A costly attack needs an attacker that can pay.
    let mut costly = Attack::default().unwrap();
    costly.cost = Dice::new("-5").unwrap();
    costly.cost_type = StatType::CumPoints;
    let m2 = MeleeAttacker { attacks: vec![costly] };
    assert!(bump_melee_attack(&ev, Some(&m2), None, Some(&t)).is_none());
    let rich = stats_of(vec![(StatType::CumPoints, Stat::with_value(10, 0, 60, StatVisibility::Private))]);
    assert!(bump_melee_attack(&ev, Some(&m2), Some(&rich), Some(&t)).is_some());
}

#[test]
fn plain_dice_expressions() {
    assert!(is_plain_dice_text("1d4 * -1"));
    assert!(is_plain_dice_text("(2d6 + 3) - 1d20"));
    assert!(!is_plain_dice_text("99999999999999999999d6"));
    assert!(!is_plain_dice_text("1d1ie1"));
    assert!(!is_plain_dice_text("2 * 3 * 4"));
    assert!(!is_plain_dice_text("6 / 2"));
    assert!(Dice::new("1d1ie1").is_none());
    assert!(Dice::new("99999999999999999999d6").is_none());
    let d = Dice::new("2d1 + 3").unwrap();
    assert_eq!(d.total, 5);
    assert_eq!(d.rolled_total(), 5);
    assert!(Dice::new("0d6").is_none());
}

fn world(blockers: Vec<(u64, IVec2)>) -> Collidables {
    let mut c = Collidables::new(&MapSize { width: 6, height: 6 });
    update_collidables(&mut c, &blockers, &vec![]);
    c
}

#[test]
fn shots_stop_at_first_blocker() {
    let c = world(vec![(1, IVec2::new(0, 0)), (7, IVec2::new(3, 0)), (8, IVec2::new(4, 0))]);
    let line: Vec<IVec2> = (0..6).map(|x| IVec2::new(x, 0)).collect();
    assert_eq!(shot_end(&line, &c), ShotEnd::Hit(3, 7));
    let clear: Vec<IVec2> = (0..3).map(|y| IVec2::new(0, y)).collect();
    assert_eq!(shot_end(&clear, &c), ShotEnd::Clear);
    let off = vec![IVec2::new(5, 5), IVec2::new(6, 5)];
    assert_eq!(shot_end(&off, &c), ShotEnd::OffMap(1));
    let a = Attack::default().unwrap();
    let hits = burst_hits(1, &a, &vec![line.clone(), clear.clone(), line], &c).unwrap();
    assert_eq!(hits.len(), 2);
    assert!(hits.iter().all(|h| h.attacked_entity == 7 && h.attacking_entity == 1 && h.attack_type == AttackType::Ranged));
    assert!(burst_hits(1, &a, &vec![off], &c).is_none());
}

#[test]
fn projectile_cost_decisions() {
    let s = stats_of(vec![(StatType::CumPoints, Stat::with_value(6, 0, 60, StatVisibility::Private))]);
    assert!(aimed_attack_goes_ahead(&s, StatType::CumPoints, 0));
    assert!(aimed_attack_goes_ahead(&s, StatType::CumPoints, -5));
    assert!(!aimed_attack_goes_ahead(&s, StatType::CumPoints, -6));
    assert!(!aimed_attack_goes_ahead(&s, StatType::Health, -1));
    assert!(aimed_attack_goes_ahead(&s, StatType::Health, 0));
    assert!(projectile_fires(-5, StatType::CumPoints, Some(&s)));
    assert!(!projectile_fires(-6, StatType::CumPoints, Some(&s)));
    assert!(projectile_fires(0, StatType::CumPoints, Some(&s)));
    assert!(!projectile_fires(-1, StatType::Health, Some(&s)));
    assert!(!projectile_fires(0, StatType::CumPoints, None));
}

#[test]
fn healing_spends_cum_points() {
    let s = stats_of(vec![
        (StatType::Health, Stat::with_value(5, 0, 7, StatVisibility::Public)),
        (StatType::CumPoints, Stat::with_value(5, 0, 60, StatVisibility::Private)),
    ]);
    let mut log = Log::default();
    let r = heal_action(3, &"Cass".to_string(), &s, &mut log);
    assert_eq!(r.len(), 2);
    assert_eq!((r[0].stat, r[0].amount, r[0].entity), (StatType::CumPoints, -5, 3));
    assert_eq!((r[1].stat, r[1].amount, r[1].entity), (StatType::Health, 1, 3));
    assert_eq!(text(&log.lines[0]), " Cass uses 5 cum points to heal for 1 health.");
    assert!(log.lines[0].iter().all(|f| f.color == Palette::Green));
    let full = stats_of(vec![
        (StatType::Health, Stat::new(0, 7, StatVisibility::Public)),
        (StatType::CumPoints, Stat::with_value(50, 0, 60, StatVisibility::Private)),
    ]);
    assert!(heal_action(3, &"Cass".to_string(), &full, &mut log).is_empty());
    let poor = stats_of(vec![(StatType::CumPoints, Stat::with_value(4, 0, 60, StatVisibility::Private))]);
    assert!(heal_action(3, &"Cass".to_string(), &poor, &mut log).is_empty());
    assert_eq!(log.lines.len(), 1);
}

#[test]
fn devouring_and_digesting() {
    let mut log = Log::default();
    let ev = BumpEvent { bumping_entity: 1, bumped_entity: 2 };
    assert_eq!(vore_attack(&ev, false, true, &"S".to_string(), &"Cass".to_string(), &mut log), None);
    assert_eq!(
        vore_attack(&ev, true, true, &"Soldier 0".to_string(), &"Cass".to_string(), &mut log),
        Some(Digesting { turns_to_digest: 4 })
    );
    assert_eq!(text(&log.lines[0]), " Cass devours Soldier 0!");
    let mut stats = stats_of(vec![(StatType::CumPoints, Stat::with_value(10, 0, 60, StatVisibility::Private))]);
    let mut meals = vec![
        Meal { prey: 2, name: "Soldier 0".to_string(), digesting: Some(Digesting { turns_to_digest: 2 }) },
        Meal { prey: 3, name: "Soldier 1".to_string(), digesting: Some(Digesting { turns_to_digest: 1 }) },
        Meal { prey: 4, name: "Hat".to_string(), digesting: None },
    ];
    let turns = Turns { order: vec![1], current: 0, progress: true };
    let mut log = Log::default();
    let removed = update_vore(&turns, 1, &"Cass".to_string(), &mut stats, &mut meals, 7, &mut log);
    assert_eq!(removed.len(), 1);
    assert_eq!(removed[0].removed_actor, 3);
    assert_eq!(removed[0].turn, 7);
    assert_eq!(stats.get_base(&StatType::CumPoints), 25);
    assert_eq!(meals[0].digesting, Some(Digesting { turns_to_digest: 1 }));
    assert_eq!(meals[1].digesting, Some(Digesting { turns_to_digest: 0 }));
    assert_eq!(log.lines.len(), 2);
    assert_eq!(text(&log.lines[0]), " 1 turns until Soldier 0 is digested by Cass.");
    assert!(log.lines[0].iter().all(|f| f.color == Palette::White));
    assert_eq!(text(&log.lines[1]), " Soldier 1 has been melted into 15 cum points worth of stinky smelly goo.");
    // Not the predator's finished turn: nothing happens.
    let turns = Turns { order: vec![1], current: 0, progress: false };
    let removed = update_vore(&turns, 1, &"Cass".to_string(), &mut stats, &mut meals, 7, &mut log);
    assert!(removed.is_empty());
    assert_eq!(log.lines.len(), 2);
}

#[test]
fn digesting_never_goes_over_the_cum_point_maximum() {
    let mut stats = stats_of(vec![(StatType::CumPoints, Stat::with_value(50, 0, 60, StatVisibility::Private))]);
    let mut meals = vec![
        Meal { prey: 2, name: "A".to_string(), digesting: Some(Digesting { turns_to_digest: 1 }) },
        Meal { prey: 3, name: "B".to_string(), digesting: Some(Digesting { turns_to_digest: 1 }) },
    ];
    let turns = Turns { order: vec![1], current: 0, progress: true };
    let mut log = Log::default();
    let removed = update_vore(&turns, 1, &"Cass".to_string(), &mut stats, &mut meals, 2, &mut log);
    assert_eq!(removed.len(), 2);
    assert_eq!(stats.get_base(&StatType::CumPoints), 60);
    assert_eq!(stats.get_max(&StatType::CumPoints), 60);
}

#[test]
fn first_stopped_shot_of_a_burst() {
    let c = world(vec![(1, IVec2::new(0, 0)), (7, IVec2::new(3, 0))]);
    let hit: Vec<IVec2> = (0..6).map(|x| IVec2::new(x, 0)).collect();
    let clear: Vec<IVec2> = (0..3).map(|y| IVec2::new(0, y)).collect();
    let off = vec![IVec2::new(5, 5), IVec2::new(6, 5)];
    assert_eq!(first_stopped_shot(&vec![clear.clone(), hit.clone(), off.clone()], &c), Some((1, ShotEnd::Hit(3, 7))));
    assert_eq!(first_stopped_shot(&vec![clear.clone(), off, hit], &c), Some((1, ShotEnd::OffMap(1))));
    assert_eq!(first_stopped_shot(&vec![clear.clone(), clear], &c), None);
    assert_eq!(first_stopped_shot(&vec![], &c), None);
}

#[test]
fn swallowed_prey_melts_on_the_fourth_turn() {
    let mut log = Log::default();
    let ev = BumpEvent { bumping_entity: 1, bumped_entity: 2 };
    let d = vore_attack(&ev, true, true, &"Soldier 0".to_string(), &"Cass".to_string(), &mut log);
    let mut meals = vec![Meal { prey: 2, name: "Soldier 0".to_string(), digesting: d }];
    let mut stats = stats_of(vec![(StatType::CumPoints, Stat::with_value(10, 0, 60, StatVisibility::Private))]);
    let turns = Turns { order: vec![1], current: 0, progress: true };
    for turn in 1..=3u32 {
        let removed = update_vore(&turns, 1, &"Cass".to_string(), &mut stats, &mut meals, turn, &mut log);
        assert!(removed.is_empty());
        assert_eq!(meals[0].digesting, Some(Digesting { turns_to_digest: 4 - turn as u8 }));
    }
    let removed = update_vore(&turns, 1, &"Cass".to_string(), &mut stats, &mut meals, 4, &mut log);
    assert_eq!(removed.len(), 1);
    assert_eq!(removed[0].removed_actor, 2);
    assert_eq!(stats.get_base(&StatType::CumPoints), 25);
}
