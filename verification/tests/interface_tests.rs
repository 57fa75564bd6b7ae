use cocklike::actors::{setup_actors, Moves, PlayerBundle, SoldierBundle};
use cocklike::ai::Engages;
use cocklike::color::Palette;
use cocklike::ending::{player_death, player_victory};
use cocklike::geometry::{IVec2, Rectangle};
use cocklike::input::{
    help_input, key_direction, name_character, player_input_game, player_input_meta_general,
    player_input_meta_playing, start_help, targetting_controls, visible_lines, CurrentHelpPage, GameCommand,
    GameState, HelpCommand, HelpPage, Key, MetaCommand, PlayerName,
};
use cocklike::log::{Log, LogFragment};
use cocklike::movement::MapSize;
use cocklike::panels::{render_actor_info, render_stats_and_log, ActorInfo, EngagementInfo};
use cocklike::rendering::{
    change_size, mark_fatality, put_string_vec, restart_log, setup, update_effective_tiles, update_render_order, BottomSize, Effect,
    EffectFragment, LeftSize, Renderable, SpriteMagnification, Tile, WindowChangeEvent,
};
use cocklike::stats::{FatalEffect, Operation, Stat, StatMap, StatType, StatVisibility, Stats};
use cocklike::status_effects::{
    StatusEffect, StatusEffectApplication, StatusEffectStacking, StatusEffectType, StatusEffects, TileModification,
};
use cocklike::text::{decimal_string, unsigned_string};
use cocklike::turn::{ActorRemovedEvent, Turns};

fn text(line: &Vec<LogFragment>) -> String {
    line.iter().map(|f| f.text.clone()).collect()
}

#[test]
fn keys_move_the_player() {
    assert_eq!(key_direction(Key::Numpad7), Some(IVec2::new(-1, 1)));
    assert_eq!(key_direction(Key::Comma), Some(IVec2::new(0, -1)));
    assert_eq!(key_direction(Key::V), None);
    let mut t = Turns { order: vec![1], current: 0, progress: false };
    let r = player_input_game(&mut t, 1, IVec2::new(3, 3), &vec![Key::C, Key::Other]);
    assert_eq!(r, vec![GameCommand::StartTargetting(IVec2::new(3, 3))]);
    assert!(!t.progress);
    let r = player_input_game(&mut t, 1, IVec2::new(3, 3), &vec![Key::L, Key::K, Key::V]);
    assert_eq!(r.len(), 3);
    assert_eq!(r[0], GameCommand::Move(cocklike::movement::PointMoveEvent { entity: 1, movement: IVec2::new(1, 0) }));
    match r[1] {
        GameCommand::Status(ev) => {
            assert_eq!(ev.entity, 1);
            assert_eq!(ev.application.effect.status_type, StatusEffectType::Sneaking);
            assert_eq!(ev.application.effect.duration, Some(2));
            assert_eq!(ev.application.effect.stat_modification.unwrap().operation, Operation::DivideRound(2));
            assert_eq!(ev.application.stacking, StatusEffectStacking::Refreshes);
        }
        _ => panic!("expected a status"),
    }
    assert_eq!(r[2], GameCommand::Heal(cocklike::healing::HealActionEvent { healing_entity: 1 }));
    assert!(t.progress);
}

#[test]
fn meta_keys() {
    assert_eq!(
        player_input_meta_general(&vec![Key::Equals, Key::Minus, Key::R], false),
        vec![MetaCommand::Resize(1), MetaCommand::Resize(-1)]
    );
    assert_eq!(player_input_meta_general(&vec![Key::R], true), vec![MetaCommand::Restart]);
    assert_eq!(
        player_input_meta_playing(&vec!['?', 'a', '?'], &vec![Key::Escape, Key::I]),
        vec![MetaCommand::Help, MetaCommand::Help, MetaCommand::Exit]
    );
}

#[test]
fn aiming_keys_and_clamp() {
    let size = MapSize { width: 10, height: 5 };
    let r = targetting_controls(&vec![Key::I, Key::Numpad3, Key::Return], IVec2::new(12, -3), &size);
    assert_eq!(r.moves, vec![IVec2::new(0, 1), IVec2::new(1, -1)]);
    assert!(r.selected);
    assert_eq!(r.next_state, Some(GameState::Playing));
    assert_eq!(r.target, IVec2::new(9, 0));
    let r = targetting_controls(&vec![Key::Escape], IVec2::new(4, 4), &size);
    assert!(!r.selected);
    assert_eq!(r.next_state, Some(GameState::Playing));
    let r = targetting_controls(&vec![Key::J], IVec2::new(4, 4), &size);
    assert_eq!(r.next_state, None);
    assert_eq!(r.target, IVec2::new(4, 4));
}

#[test]
fn help_pages() {
    assert_eq!(HelpPage::Stealth.path(), "assets/help/stealth.txt");
    assert_eq!(start_help(), HelpCommand::Page(HelpPage::Intro));
    assert_eq!(
        help_input(&vec![Key::Up, Key::X, Key::Slash, Key::Escape], false),
        vec![HelpCommand::Scroll(-1), HelpCommand::Page(HelpPage::Combat), HelpCommand::State(GameState::Playing)]
    );
    assert_eq!(help_input(&vec![Key::Slash], true), vec![HelpCommand::State(GameState::Playing)]);
    let p = CurrentHelpPage::default();
    assert_eq!(p.page, HelpPage::Intro);
    assert_eq!(visible_lines(3, 10), (0, 3));
    assert_eq!(visible_lines(30, 10), (20, 30));
}

#[test]
fn naming_keeps_ten_bytes() {
    let mut n = PlayerName::default();
    assert_eq!(n.0, "Cock");
    let screen = name_character(&mut n, &vec!['\u{8}', '\n', 'y', ' ', 'M', 'c', 'C', 'o', 'c', 'k', 'f'], false, (80, 50));
    assert_eq!(n.0, "Cocy McCoc");
    assert_eq!(screen.prompt, "Name: Cock");
    assert_eq!(screen.prompt_at, (35, 25));
    assert_eq!(screen.next_state, None);
    let screen = name_character(&mut n, &vec!['é'], true, (80, 50));
    assert_eq!(n.0, "Cocy McCoc");
    assert!(n.0.len() <= 10);
    assert_eq!(screen.prompt, "Name: Cocy McCoc");
    assert_eq!(screen.prompt_at, (32, 25));
    assert_eq!(screen.next_state, Some(GameState::Restart));
}

#[test]
fn tiles_follow_statuses() {
    let base = Tile { glyph: 'H', fg_color: Palette::Gray, bg_color: Palette::Transparent };
    let mut r = Renderable::new(base, 128);
    let mut s = StatusEffects::default();
    s.apply(&StatusEffectApplication {
        effect: StatusEffect {
            status_type: StatusEffectType::Cumblobbed,
            from: None,
            tile_modification: Some(TileModification { glyph: None, fg_color: None, bg_color: Some(Palette::AntiqueWhite) }),
            duration: Some(3),
            stat_modification: None,
        },
        stacking: StatusEffectStacking::Refreshes,
    });
    update_effective_tiles(&mut r, Some(&s));
    assert_eq!(r.effective_tile, Tile { glyph: 'H', fg_color: Palette::Gray, bg_color: Palette::AntiqueWhite });
    assert_eq!(r.base_tile, base);
    update_effective_tiles(&mut r, None);
    assert_eq!(r.effective_tile, base);
}

#[test]
fn render_order_is_stable_by_order() {
    let r = update_render_order(&vec![(1, 128), (2, 32), (3, 48), (4, 32), (5, 0)]);
    assert_eq!(r.0, vec![5, 2, 4, 3, 1]);
}

#[test]
fn window_sizes() {
    assert_eq!(BottomSize::default().height, 10);
    assert_eq!(LeftSize::default().width, 20);
    let mut m = SpriteMagnification::default();
    assert_eq!(m.0, 1);
    let size = MapSize::default();
    assert_eq!(change_size(Some(WindowChangeEvent(1)), &size, &BottomSize::default(), &mut m), Some((1280, 800)));
    assert_eq!(m.0, 2);
    assert_eq!(change_size(Some(WindowChangeEvent(10)), &size, &BottomSize::default(), &mut m), Some((2560, 1600)));
    assert_eq!(m.0, 4);
    assert_eq!(change_size(Some(WindowChangeEvent(-10)), &size, &BottomSize::default(), &mut m), Some((640, 400)));
    assert_eq!(m.0, 1);
    assert_eq!(change_size(None, &size, &BottomSize::default(), &mut m), None);
    assert_eq!(setup(), (WindowChangeEvent(1), GameState::Restart));
}

#[test]
fn effect_frames_by_time() {
    let mut e = Effect::default();
    e.fragments.push(EffectFragment { duration_nanos: 250, tiles: vec![] });
    e.fragments.push(EffectFragment { duration_nanos: 250, tiles: vec![] });
    assert!(std::ptr::eq(e.fragment_from_time(0).unwrap(), &e.fragments[0]));
    assert!(std::ptr::eq(e.fragment_from_time(250).unwrap(), &e.fragments[0]));
    assert!(std::ptr::eq(e.fragment_from_time(251).unwrap(), &e.fragments[1]));
    assert!(e.fragment_from_time(501).is_none());
}

#[test]
fn new_game_log() {
    let log = restart_log();
    assert_eq!(log.lines.len(), 1);
    assert!(text(&log.lines[0]).starts_with(" Welcome to Cock's Conquest!  \n"));
    assert!(log.lines[0].iter().all(|f| f.color == Palette::Cyan));
}

#[test]
fn bundles() {
    let p = PlayerBundle::default().unwrap();
    assert_eq!(p.renderable.base_tile.glyph, '@');
    assert_eq!(p.stats.get_base(&StatType::CumPoints), 15);
    assert_eq!(p.stats.get_max(&StatType::StealthRange), 128);
    assert_eq!(p.melee_attacker.attacks.len(), 1);
    assert_eq!(p.melee_attacker.attacks[0].damage_type, StatType::Resistance);
    assert_eq!(p.projectile_cost.total, -5);
    assert_eq!(p.projectile_cost_type, StatType::CumPoints);
    assert_eq!(p.projectile_count, 1);
    assert_eq!(p.projectile_attack.status_effect.unwrap().effect.status_type, StatusEffectType::Cumblobbed);
    let s = SoldierBundle::default().unwrap();
    assert_eq!(s.renderable.base_tile.glyph, 'H');
    assert_eq!(s.engages.distance_sq, 12);
    assert_eq!(s.fatal_stats.0.get(&StatType::Resistance), Some((0, FatalEffect::Trance)));
    assert_eq!(s.moves.0.len(), 8);
    assert_eq!(s.projectile_count, 3);
    assert_eq!(s.projectile_cost_type, StatType::Health);
    assert!((-2..=-1).contains(&s.projectile_attack.damage.total));
    assert_eq!(Moves::default().0[4], IVec2::new(1, 1));
}

#[test]
fn actors_placed_in_rooms() {
    let rooms = vec![
        Rectangle::new(IVec2::new(1, 1), 2, 2),
        Rectangle::new(IVec2::new(10, 1), 2, 2),
        Rectangle::new(IVec2::new(20, 1), 2, 2),
    ];
    let p = setup_actors(&rooms);
    assert_eq!(p.player, IVec2::new(2, 2));
    assert_eq!(p.player_name, "Cass Cock".to_string());
    assert_eq!(p.soldiers, vec![(IVec2::new(21, 2), "Soldier 0".to_string()), (IVec2::new(11, 2), "Soldier 1".to_string())]);
    assert_eq!(p.wanderers.len(), 2);
    assert!(p.wanderers.iter().all(|w| w.locations == rooms && w.target_index == 0 && w.path.positions.is_empty()));
    assert_eq!(p.next_state, cocklike::input::GameState::FinishSetup);
}

#[test]
fn endings_are_told() {
    let mut log = Log::default();
    let removals = vec![ActorRemovedEvent::new(5, 1)];
    player_victory(&removals, true, &mut log);
    assert!(log.lines.is_empty());
    player_victory(&removals, false, &mut log);
    assert_eq!(text(&log.lines[0]), " You win! Press shift+r to start over.");
    let mut handled = ActorRemovedEvent::new(1, 1);
    handled.update();
    player_death(&vec![ActorRemovedEvent::new(5, 1), handled, ActorRemovedEvent::new(1, 2)], Some(1), &mut log);
    assert_eq!(log.lines.len(), 2);
    assert_eq!(text(&log.lines[1]), " You have died! Press shift+r to try again.");
    assert!(log.lines[1].iter().all(|f| f.color == Palette::Yellow));
}

#[test]
fn panels() {
    let stats = Stats(StatMap::from_entries(vec![
        (StatType::StealthRange, Stat::with_value(7, 1, 128, StatVisibility::Private)),
        (StatType::Health, Stat::new(0, 7, StatVisibility::Public)),
        (StatType::Dexterity, Stat::new(0, 5, StatVisibility::Hidden)),
    ]));
    let f = render_stats_and_log(&"Cass".to_string(), &stats, false);
    let texts: Vec<String> = f.iter().map(|x| x.text.clone()).collect();
    assert_eq!(texts.concat(), " Cass    Health: 7  Stealth Range: 7  ");
    assert_eq!(f.last().unwrap().color, Palette::Gray);
    let all = render_stats_and_log(&"Cass".to_string(), &stats, true);
    assert!(all.iter().map(|x| x.text.clone()).collect::<String>().contains("Dexterity: 5  "));
    let actors = vec![
        ActorInfo { name: "Cass".to_string(), visible: true, is_player: true, stats: None, engagement: None },
        ActorInfo {
            name: "Soldier 0".to_string(),
            visible: true,
            is_player: false,
            stats: Some(stats),
            engagement: Some(EngagementInfo { target_name: Some("Cass".to_string()), alert: true }),
        },
        ActorInfo { name: "Soldier 1".to_string(), visible: false, is_player: false, stats: None, engagement: None },
    ];
    let info = render_actor_info(&actors, false);
    let s: String = info.iter().map(|x| x.text.clone()).collect();
    assert_eq!(s, "Soldier 0 \n HTH: 7  \n Alert: Cass  \n \n ");
    let _ = Engages::default();
}

#[test]
fn hidden_stats_leave_the_panel_alone() {
    let stats_with = |dex: i32, stealth: i32| {
        Stats(StatMap::from_entries(vec![
            (StatType::StealthRange, Stat::with_value(stealth, 1, 128, StatVisibility::Private)),
            (StatType::Health, Stat::new(0, 7, StatVisibility::Public)),
            (StatType::Dexterity, Stat::new(0, dex, StatVisibility::Hidden)),
        ]))
    };
    let actor = |s: Stats| ActorInfo {
        name: "Soldier 0".to_string(),
        visible: true,
        is_player: false,
        stats: Some(s),
        engagement: None,
    };
    let seen = |v: Vec<LogFragment>| v.iter().map(|f| (f.text.clone(), f.color)).collect::<Vec<_>>();
    let a = seen(render_actor_info(&vec![actor(stats_with(5, 7))], false));
    let b = seen(render_actor_info(&vec![actor(stats_with(2, 40))], false));
    assert_eq!(a, b);
    let c = seen(render_actor_info(&vec![actor(stats_with(2, 40))], true));
    assert_ne!(a, c);
}

#[test]
fn numbers_in_decimal() {
    assert_eq!(decimal_string(-305), "-305");
    assert_eq!(decimal_string(0), "0");
    assert_eq!(decimal_string(i64::MIN), i64::MIN.to_string());
    assert_eq!(unsigned_string(u64::MAX), u64::MAX.to_string());
}

#[test]
fn log_lines() {
    let mut log = Log::default();
    log.log_string("a b".to_string());
    assert_eq!(log.lines[0].len(), 2);
    assert_eq!(log.lines[0][0].text, "a ");
    assert_eq!(log.lines[0][0].color, Palette::LogGray);
    let lines = Log::string_to_lines_by_width("one two three\nfour".to_string(), Palette::White, 8);
    let texts: Vec<String> = lines.iter().map(|l| text(l)).collect();
    // A piece goes on the line only with a column to spare.
    assert_eq!(texts, vec!["one ".to_string(), "two ".to_string(), "three".to_string(), "four".to_string()]);
    let lines = Log::string_to_lines_by_width("one two".to_string(), Palette::White, 9);
    assert_eq!(text(&lines[0]), "one two");
    // The line after a newline starts empty.
    let lines = Log::string_to_lines_by_width("abcd\nef gh".to_string(), Palette::Red, 6);
    let texts: Vec<Vec<String>> = lines.iter().map(|l| l.iter().map(|f| f.text.clone()).collect()).collect();
    assert_eq!(texts, vec![vec!["abcd".to_string()], vec!["ef ".to_string(), "gh".to_string()]]);
    assert!(lines.iter().all(|l| l.iter().all(|f| f.color == Palette::Red)));
}

#[test]
fn render_order_keeps_every_entity() {
    let items = vec![(7, 200), (3, 0), (7, 5), (9, 200), (3, 5), (1, 255)];
    let r = update_render_order(&items);
    assert_eq!(r.0, vec![3, 7, 3, 7, 9, 1]);
    let mut given: Vec<u64> = items.iter().map(|(e, _)| *e).collect();
    let mut drawn = r.0.clone();
    given.sort();
    drawn.sort();
    assert_eq!(given, drawn);
    assert_eq!(update_render_order(&vec![]).0, Vec::<u64>::new());
}

#[test]
fn struck_actors_take_the_colour_of_their_fate() {
    let tile = Tile { glyph: 'H', fg_color: Palette::Gray, bg_color: Palette::Transparent };
    let mut r = Renderable::new(tile, 128);
    mark_fatality(&mut r, FatalEffect::Trance);
    assert_eq!(r.base_tile.bg_color, Palette::Pink);
    assert_eq!(r.effective_tile.bg_color, Palette::Pink);
    assert_eq!(r.base_tile.glyph, 'H');
    assert_eq!(r.order, 128);
    mark_fatality(&mut r, FatalEffect::Corpse);
    assert_eq!(r.effective_tile.bg_color, Palette::OrangeRed);
    assert_eq!(r.effective_tile.fg_color, Palette::Gray);
}

#[test]
fn plain_strings_move_down_when_full() {
    let strings: Vec<String> = vec!["ab".to_string(), "\n ".to_string(), "cde".to_string(), "fgh".to_string()];
    let (placed, x, y) = put_string_vec(IVec2::new(0, 2), &strings, (5, 3));
    assert_eq!(placed, vec![(IVec2::new(0, 2), 0), (IVec2::new(0, 1), 2), (IVec2::new(0, 0), 3)]);
    assert_eq!((x, y), (3, 0));
    // A string as wide as the terminal never fits: placing stops there.
    let wide: Vec<String> = vec!["ab".to_string(), "vwxyz".to_string(), "c".to_string()];
    let (placed, x, y) = put_string_vec(IVec2::new(0, 2), &wide, (5, 3));
    assert_eq!(placed, vec![(IVec2::new(0, 2), 0)]);
    assert_eq!((x, y), (0, 1));
}
