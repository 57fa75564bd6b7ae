use cocklike::ai::Engages;
use cocklike::color::Palette;
use cocklike::stats::{Operation, StatModification, StatType};
use cocklike::status_effects::{
    apply_status_effects, cumblobbed_behavior, tranced_behavior, update_status_effects, StatusEffect,
    StatusEffectApplication, StatusEffectEvent, StatusEffectStacking, StatusEffectType, StatusEffects,
    TileModification,
};
use cocklike::turn::Turns;

fn effect(t: StatusEffectType, duration: Option<u32>, op: Option<Operation>, from: Option<u64>) -> StatusEffect {
    StatusEffect {
        status_type: t,
        from,
        tile_modification: None,
        duration,
        stat_modification: op.map(|o| StatModification { stat_type: StatType::StealthRange, operation: o }),
    }
}

fn app(e: StatusEffect, s: StatusEffectStacking) -> StatusEffectApplication {
    StatusEffectApplication { effect: e, stacking: s }
}

#[test]
fn statuses_kept_in_priority_order() {
    let mut s = StatusEffects::default();
    s.apply(&app(effect(StatusEffectType::Sneaking, Some(2), Some(Operation::Add(1)), None), StatusEffectStacking::Stacks));
    s.apply(&app(effect(StatusEffectType::Restrained, Some(2), Some(Operation::Divide(2)), None), StatusEffectStacking::Stacks));
    s.apply(&app(effect(StatusEffectType::Tranced, None, None, None), StatusEffectStacking::Stacks));
    let kinds: Vec<StatusEffectType> = s.effects().iter().map(|e| e.status_type).collect();
    assert_eq!(kinds, vec![StatusEffectType::Tranced, StatusEffectType::Restrained, StatusEffectType::Sneaking]);
}

#[test]
fn refreshing_replaces_duration_and_adding_extends_it() {
    let mut s = StatusEffects::default();
    s.apply(&app(effect(StatusEffectType::Sneaking, Some(2), None, None), StatusEffectStacking::Refreshes));
    s.apply(&app(effect(StatusEffectType::Sneaking, Some(5), None, None), StatusEffectStacking::Refreshes));
    assert_eq!(s.effects().len(), 1);
    assert_eq!(s.effects()[0].duration, Some(5));
    s.apply(&app(effect(StatusEffectType::Sneaking, Some(3), None, None), StatusEffectStacking::Adds));
    assert_eq!(s.effects().len(), 1);
    assert_eq!(s.effects()[0].duration, Some(8));
    assert!(s.has_status_effect(&StatusEffectType::Sneaking));
    assert!(!s.has_status_effect(&StatusEffectType::Tranced));
}

#[test]
fn ticking_removes_expired() {
    let mut s = StatusEffects::default();
    s.apply(&app(effect(StatusEffectType::Sneaking, Some(1), None, None), StatusEffectStacking::Stacks));
    s.apply(&app(effect(StatusEffectType::Cumblobbed, Some(3), None, Some(4)), StatusEffectStacking::Stacks));
    s.apply(&app(effect(StatusEffectType::Tranced, None, None, None), StatusEffectStacking::Stacks));
    assert!(s.tick());
    assert_eq!(s.effects().len(), 2);
    assert_eq!(s.effects()[0].duration, Some(2));
    assert_eq!(s.effects()[1].duration, None);
    assert!(!s.tick());
}

#[test]
fn status_update_only_after_own_turn() {
    let mut s = StatusEffects::default();
    s.apply(&app(effect(StatusEffectType::Sneaking, Some(1), None, None), StatusEffectStacking::Stacks));
    let turns = Turns { order: vec![1, 2], current: 0, progress: false };
    assert!(!update_status_effects(&turns, 1, &mut s));
    assert_eq!(s.effects().len(), 1);
    let turns = Turns { order: vec![1, 2], current: 0, progress: true };
    assert!(!update_status_effects(&turns, 2, &mut s));
    assert!(update_status_effects(&turns, 1, &mut s));
    assert_eq!(s.effects().len(), 0);
}

#[test]
fn apply_event_and_source() {
    let mut s = StatusEffects::default();
    let ev = StatusEffectEvent {
        application: app(
            StatusEffect {
                status_type: StatusEffectType::Cumblobbed,
                from: Some(9),
                tile_modification: Some(TileModification { glyph: None, fg_color: None, bg_color: Some(Palette::AntiqueWhite) }),
                duration: Some(3),
                stat_modification: None,
            },
            StatusEffectStacking::Refreshes,
        ),
        entity: 1,
    };
    apply_status_effects(&mut s, &ev);
    assert_eq!(s.status_from(&StatusEffectType::Cumblobbed), Some(Some(9)));
    assert_eq!(s.status_from(&StatusEffectType::Tranced), None);
}

#[test]
fn tranced_actor_skips_turn() {
    let mut s = StatusEffects::default();
    s.apply(&app(effect(StatusEffectType::Tranced, None, None, None), StatusEffectStacking::Refreshes));
    let mut turns = Turns { order: vec![1], current: 0, progress: false };
    tranced_behavior(&mut turns, Some(&s));
    assert!(turns.progress);
    let mut turns = Turns { order: vec![1], current: 0, progress: false };
    tranced_behavior(&mut turns, Some(&StatusEffects::default()));
    assert!(!turns.progress);
}

#[test]
fn cumblobbed_actor_turns_on_source() {
    let mut s = StatusEffects::default();
    s.apply(&app(effect(StatusEffectType::Cumblobbed, Some(3), None, Some(42)), StatusEffectStacking::Refreshes));
    let mut turns = Turns { order: vec![1], current: 0, progress: false };
    let mut e = Engages::default();
    e.delay = 3;
    cumblobbed_behavior(&mut turns, Some(&s), Some(&mut e));
    assert!(turns.progress);
    assert_eq!(e.target, Some(42));
    assert_eq!(e.delay_timer, 3);
    // Already acted: nothing happens.
    let mut e2 = Engages::default();
    cumblobbed_behavior(&mut turns, Some(&s), Some(&mut e2));
    assert_eq!(e2.target, None);
}

#[test]
fn status_names() {
    assert_eq!(StatusEffectType::Cumblobbed.name(), "cumblobbed");
}

#[test]
fn added_durations_must_fit() {
    let mut s = StatusEffects::default();
    s.apply(&app(effect(StatusEffectType::Sneaking, Some(u32::MAX - 1), None, None), StatusEffectStacking::Adds));
    assert!(s.fits(&app(effect(StatusEffectType::Sneaking, Some(1), None, None), StatusEffectStacking::Adds)));
    assert!(!s.fits(&app(effect(StatusEffectType::Sneaking, Some(2), None, None), StatusEffectStacking::Adds)));
    assert!(s.fits(&app(effect(StatusEffectType::Sneaking, Some(2), None, None), StatusEffectStacking::Refreshes)));
    assert!(s.fits(&app(effect(StatusEffectType::Tranced, Some(9), None, None), StatusEffectStacking::Adds)));
    assert!(s.fits(&app(effect(StatusEffectType::Sneaking, None, None, None), StatusEffectStacking::Adds)));
}
