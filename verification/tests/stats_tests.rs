use cocklike::color::Palette;
use cocklike::log::Log;
use cocklike::stats::{fatal_fate, FatalFate};
use cocklike::stats::{
    collect_fatalities, do_stat_change, fatal_effect_for, modifications_apply, update_effective_stats, update_fatal, FatalCheck,
    FatalEffect, FatalStats, Operation, Stat, StatChangeEvent, StatMap, StatModification, StatType, StatVisibility,
    Stats,
};

fn stats_of(entries: Vec<(StatType, Stat)>) -> Stats {
    Stats(StatMap::from_entries(entries))
}

#[test]
fn stat_new_starts_at_max() {
    let s = Stat::new(0, 7, StatVisibility::Public);
    assert_eq!(s.base, 7);
    assert_eq!(s.effective, 7);
    assert_eq!(s.min, 0);
    assert_eq!(s.max, 7);
}

#[test]
fn stats_default_has_health_three() {
    let s = Stats::default();
    assert!(s.contains_key(&StatType::Health));
    assert!(!s.contains_key(&StatType::CumPoints));
    assert_eq!(s.get_base(&StatType::Health), 3);
    assert_eq!(s.get_max(&StatType::Health), 3);
    assert_eq!(s.get_min(&StatType::Health), 0);
    assert_eq!(s.get_effective(&StatType::CumPoints), 0);
}

#[test]
fn fatal_stats_default_is_health_corpse() {
    let f = FatalStats::default();
    assert_eq!(f.0.get(&StatType::Health), Some((0, FatalEffect::Corpse)));
    assert_eq!(f.0.get(&StatType::Resistance), None);
}

#[test]
fn stat_change_clamps_to_bounds() {
    let mut s = stats_of(vec![(StatType::Health, Stat::new(0, 7, StatVisibility::Public))]);
    do_stat_change(&mut s, &StatChangeEvent::new(StatType::Health, -3, 1));
    assert_eq!(s.get_base(&StatType::Health), 4);
    do_stat_change(&mut s, &StatChangeEvent::new(StatType::Health, -10, 1));
    assert_eq!(s.get_base(&StatType::Health), 0);
    do_stat_change(&mut s, &StatChangeEvent::new(StatType::Health, 100, 1));
    assert_eq!(s.get_base(&StatType::Health), 7);
    // The effective value is left to the effective-stat update.
    assert_eq!(s.get_effective(&StatType::Health), 7);
}

#[test]
fn zero_change_leaves_stat() {
    let mut s = stats_of(vec![(StatType::CumPoints, Stat::with_value(15, 0, 60, StatVisibility::Private))]);
    do_stat_change(&mut s, &StatChangeEvent::new(StatType::CumPoints, 0, 1));
    assert_eq!(s.0.get(&StatType::CumPoints), Some(Stat::with_value(15, 0, 60, StatVisibility::Private)));
}

#[test]
fn operations_compute() {
    assert_eq!(Operation::Add(3).compute(4), 7);
    assert_eq!(Operation::Divide(2).compute(7), 3);
    assert_eq!(Operation::Divide(2).compute(-7), -3);
    assert_eq!(Operation::DivideRound(2).compute(7), 4);
    assert_eq!(Operation::DivideRound(2).compute(-7), -4);
    assert_eq!(Operation::DivideRound(2).compute(6), 3);
    assert_eq!(Operation::DivideRound(3).compute(7), 2);
    assert_eq!(Operation::Add(1).priority(), 2);
    assert_eq!(Operation::Divide(1).priority(), 1);
    assert_eq!(Operation::DivideRound(1).priority(), 1);
}

#[test]
fn effective_stats_apply_modifications_in_order() {
    let mut s = stats_of(vec![(StatType::StealthRange, Stat::with_value(7, 1, 128, StatVisibility::Private))]);
    let halve = StatModification { stat_type: StatType::StealthRange, operation: Operation::DivideRound(2) };
    let plus = StatModification { stat_type: StatType::StealthRange, operation: Operation::Add(1) };
    update_effective_stats(&mut s, &vec![Some(halve), Some(plus)]);
    assert_eq!(s.get_effective(&StatType::StealthRange), 5);
    assert_eq!(s.get_base(&StatType::StealthRange), 7);
    // No modifications: the effective value goes back to the base.
    update_effective_stats(&mut s, &vec![None]);
    assert_eq!(s.get_effective(&StatType::StealthRange), 7);
}

#[test]
fn fatal_effect_when_value_reaches_fatal() {
    let mut s = stats_of(vec![(StatType::Resistance, Stat::new(0, 7, StatVisibility::Public))]);
    let f = FatalStats(StatMap::from_entries(vec![(StatType::Resistance, (0, FatalEffect::Trance))]));
    assert_eq!(fatal_effect_for(&s, &f, &StatType::Resistance), None);
    update_effective_stats(&mut s, &vec![]);
    do_stat_change(&mut s, &StatChangeEvent::new(StatType::Resistance, -7, 1));
    update_effective_stats(&mut s, &vec![]);
    assert_eq!(fatal_effect_for(&s, &f, &StatType::Resistance), Some(FatalEffect::Trance));
    assert_eq!(fatal_effect_for(&s, &f, &StatType::Health), None);
}

#[test]
fn fatalities_keep_each_pair_once() {
    let c = vec![
        (1, Some(FatalEffect::Corpse)),
        (2, None),
        (1, Some(FatalEffect::Corpse)),
        (1, Some(FatalEffect::Trance)),
        (3, Some(FatalEffect::Disintegrate)),
    ];
    assert_eq!(
        collect_fatalities(&c),
        vec![(1, FatalEffect::Corpse), (1, FatalEffect::Trance), (3, FatalEffect::Disintegrate)]
    );
}

#[test]
fn update_fatal_tells_and_removes() {
    let dead = stats_of(vec![(StatType::Health, Stat::with_value(0, 0, 7, StatVisibility::Public))]);
    let tranced = stats_of(vec![(StatType::Resistance, Stat::with_value(0, 0, 7, StatVisibility::Public))]);
    let fatal = FatalStats(StatMap::from_entries(vec![
        (StatType::Health, (0, FatalEffect::Corpse)),
        (StatType::Resistance, (0, FatalEffect::Trance)),
    ]));
    let checks = vec![
        FatalCheck { entity: 5, name: "Soldier 0".to_string(), stat: StatType::Health, stats: Some((dead, fatal)) },
        FatalCheck { entity: 5, name: "Soldier 0".to_string(), stat: StatType::Health, stats: Some((dead, fatal)) },
        FatalCheck { entity: 6, name: "Soldier 1".to_string(), stat: StatType::Resistance, stats: Some((tranced, fatal)) },
        FatalCheck { entity: 7, name: "x".to_string(), stat: StatType::Health, stats: None },
    ];
    let mut log = Log::default();
    let out = update_fatal(&checks, 9, &mut log);
    assert_eq!(out.fatalities, vec![(5, FatalEffect::Corpse), (6, FatalEffect::Trance)]);
    assert_eq!(out.removals.len(), 1);
    assert_eq!(out.removals[0].removed_actor, 5);
    assert_eq!(out.removals[0].turn, 9);
    assert!(out.removals[0].frame_valid());
    assert_eq!(out.trances.len(), 1);
    assert_eq!(out.trances[0].entity, 6);
    assert_eq!(out.fates.len(), 2);
    assert_eq!(out.fates[0], (5, fatal_fate(FatalEffect::Corpse)));
    assert_eq!(out.fates[1].1.ground, Some(Palette::Pink));
    assert_eq!(log.lines.len(), 2);
    let first: String = log.lines[0].iter().map(|f| f.text.clone()).collect();
    assert_eq!(first, " Soldier 0 has died!");
    assert!(log.lines[0].iter().all(|f| f.color == Palette::OrangeRed));
    let second: String = log.lines[1].iter().map(|f| f.text.clone()).collect();
    assert_eq!(second, " Soldier 1 has fallen under a trance!");
    assert!(log.lines[1].iter().all(|f| f.color == Palette::Pink));
}

#[test]
fn stat_names_colors_abbreviations() {
    assert_eq!(StatType::CumPoints.name(), "cum points");
    assert_eq!(StatType::StealthRange.abbreviate(), "sth");
    assert_eq!(StatType::Health.color(), Palette::Red);
    assert_eq!(StatType::from_ordinal(6), StatType::StealthRange);
    assert_eq!(StatType::Dexterity.ordinal(), 3);
}

#[test]
fn stat_map_entries_in_kind_order() {
    let m = StatMap::from_entries(vec![(StatType::StealthRange, 1), (StatType::Health, 2), (StatType::Health, 3)]);
    assert_eq!(m.entries(), vec![(StatType::Health, 3), (StatType::StealthRange, 1)]);
}

#[test]
fn modifications_are_checked_before_applying() {
    let s = stats_of(vec![(StatType::StealthRange, Stat::with_value(7, 1, 128, StatVisibility::Private))]);
    let halve = StatModification { stat_type: StatType::StealthRange, operation: Operation::DivideRound(2) };
    let by_zero = StatModification { stat_type: StatType::StealthRange, operation: Operation::Divide(0) };
    let health = StatModification { stat_type: StatType::Health, operation: Operation::Add(1) };
    let huge = StatModification { stat_type: StatType::StealthRange, operation: Operation::Add(i32::MAX) };
    assert!(modifications_apply(&s, &vec![]));
    assert!(modifications_apply(&s, &vec![Some(halve), None]));
    assert!(!modifications_apply(&s, &vec![Some(by_zero)]));
    assert!(!modifications_apply(&s, &vec![Some(halve), Some(health)]));
    assert!(!modifications_apply(&s, &vec![Some(huge)]));
    // Halving first brings the value low enough for the addition to fit.
    let almost = StatModification { stat_type: StatType::StealthRange, operation: Operation::Add(i32::MAX - 4) };
    assert!(modifications_apply(&s, &vec![Some(halve), Some(almost)]));
    assert!(!modifications_apply(&s, &vec![Some(almost), Some(almost)]));
    assert_eq!(Operation::Add(1).is_defined_on(i32::MAX), false);
    assert_eq!(Operation::Divide(-1).is_defined_on(i32::MIN), false);
    assert_eq!(Operation::DivideRound(0).is_defined_on(3), true);
}

#[test]
fn effective_stats_are_held_within_bounds() {
    let mut s = stats_of(vec![(StatType::StealthRange, Stat::with_value(7, 1, 128, StatVisibility::Private))]);
    let up = StatModification { stat_type: StatType::StealthRange, operation: Operation::Add(200) };
    update_effective_stats(&mut s, &vec![Some(up)]);
    assert_eq!(s.get_effective(&StatType::StealthRange), 128);
    let down = StatModification { stat_type: StatType::StealthRange, operation: Operation::Add(-50) };
    update_effective_stats(&mut s, &vec![Some(down)]);
    assert_eq!(s.get_effective(&StatType::StealthRange), 1);
    assert_eq!(s.get_base(&StatType::StealthRange), 7);
}

#[test]
fn what_fatalities_do_to_the_body() {
    assert_eq!(
        fatal_fate(FatalEffect::Disintegrate),
        FatalFate { despawned: true, loses_turns: true, loses_collision: true, ground: None }
    );
    assert_eq!(
        fatal_fate(FatalEffect::Corpse),
        FatalFate { despawned: false, loses_turns: true, loses_collision: true, ground: Some(Palette::OrangeRed) }
    );
    assert_eq!(
        fatal_fate(FatalEffect::Trance),
        FatalFate { despawned: false, loses_turns: false, loses_collision: false, ground: Some(Palette::Pink) }
    );
}

#[test]
fn updating_effective_stats_twice_changes_nothing_more() {
    let mut s = stats_of(vec![
        (StatType::StealthRange, Stat::with_value(7, 1, 128, StatVisibility::Private)),
        (StatType::Health, Stat::new(0, 7, StatVisibility::Public)),
    ]);
    let mods = vec![
        Some(StatModification { stat_type: StatType::StealthRange, operation: Operation::DivideRound(2) }),
        None,
        Some(StatModification { stat_type: StatType::Health, operation: Operation::Add(-9) }),
    ];
    update_effective_stats(&mut s, &mods);
    let once = (s.get_effective(&StatType::StealthRange), s.get_effective(&StatType::Health));
    assert_eq!(once, (4, 0));
    update_effective_stats(&mut s, &mods);
    assert_eq!((s.get_effective(&StatType::StealthRange), s.get_effective(&StatType::Health)), once);
}
