use cocklike::turn::{update_turn, update_turn_order, ActorRemovedEvent, Turns};

#[test]
fn turns_go_round() {
    let mut t = Turns::default();
    update_turn_order(&mut t, true, vec![10, 20, 30]);
    assert_eq!(t.current_entity(), Some(10));
    assert!(t.is_turn(&10));
    for expected in [20u64, 30, 10, 20] {
        t.progress_turn();
        assert!(t.was_turn(&t.order[t.current].clone()));
        update_turn(&mut t, false);
        assert_eq!(t.current_entity(), Some(expected));
        assert!(!t.progress);
    }
}

#[test]
fn halted_turn_does_not_advance() {
    let mut t = Turns { order: vec![1, 2], current: 0, progress: true };
    update_turn(&mut t, true);
    assert_eq!(t.current, 0);
    assert!(t.progress);
    update_turn(&mut t, false);
    assert_eq!(t.current, 1);
}

#[test]
fn turn_order_only_changes_when_asked() {
    let mut t = Turns { order: vec![1, 2], current: 1, progress: false };
    update_turn_order(&mut t, false, vec![7]);
    assert_eq!(t.order, vec![1, 2]);
    update_turn_order(&mut t, true, vec![7]);
    assert_eq!(t.order, vec![7]);
    assert_eq!(t.current, 1);
}

#[test]
fn actor_removed_event_runs_once() {
    let mut e = ActorRemovedEvent::new(4, 12);
    assert_eq!(e.get_turn(), 12);
    assert!(e.frame_valid());
    e.update();
    assert!(!e.frame_valid());
    assert_eq!(e.removed_actor, 4);
}
