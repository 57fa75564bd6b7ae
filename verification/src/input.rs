use vstd::prelude::*;

use crate::entity::EntityId;
use crate::geometry::IVec2;
use crate::healing::HealActionEvent;
use crate::log::{LogFragment, byte_len, byte_len_exceeds, chars_of, lemma_byte_len_push, string_of};
use crate::movement::{MapSize, PointMoveEvent};
use crate::stats::{Operation, StatModification, StatType};
use crate::status_effects::{
    StatusEffect, StatusEffectApplication, StatusEffectEvent, StatusEffectStacking, StatusEffectType,
};
use crate::turn::Turns;

verus! {

/// The states the game moves through.
#[derive(Clone, Copy, PartialEq, Eq, Structural, Debug, Hash)]
pub enum GameState {
    Setup,
    MapGen,
    SpawnActors,
    FinishSetup,
    Playing,
    Targetting,
    Restart,
    Help,
}

/// The keys the game listens to; every other key is `Other`.
#[derive(Clone, Copy, PartialEq, Eq, Structural, Debug)]
pub enum Key {
    I,
    Numpad8,
    Comma,
    Numpad2,
    J,
    Numpad4,
    L,
    Numpad6,
    U,
    Numpad7,
    O,
    Numpad9,
    M,
    Numpad1,
    Period,
    Numpad3,
    K,
    Numpad5,
    V,
    C,
    X,
    S,
    T,
    R,
    Return,
    Space,
    Escape,
    Slash,
    Up,
    Down,
    NumpadAdd,
    Equals,
    NumpadSubtract,
    Minus,
    Other,
}

/// Marks the actor the player controls.
#[derive(Clone, Copy, PartialEq, Eq, Structural, Debug)]
pub struct Player;

/// The step a movement key stands for: `i`/`,`/`j`/`l` (numpad 8, 2, 4, 6)
/// move up, down, left and right, `u`/`o`/`m`/`.` (numpad 7, 9, 1, 3) move
/// diagonally.
pub open spec fn spec_key_direction(key: Key) -> Option<IVec2> {
    match key {
        Key::I | Key::Numpad8 => Some(IVec2 { x: 0, y: 1 }),
        Key::Comma | Key::Numpad2 => Some(IVec2 { x: 0, y: -1i32 }),
        Key::J | Key::Numpad4 => Some(IVec2 { x: -1i32, y: 0 }),
        Key::L | Key::Numpad6 => Some(IVec2 { x: 1, y: 0 }),
        Key::U | Key::Numpad7 => Some(IVec2 { x: -1i32, y: 1 }),
        Key::O | Key::Numpad9 => Some(IVec2 { x: 1, y: 1 }),
        Key::M | Key::Numpad1 => Some(IVec2 { x: -1i32, y: -1i32 }),
        Key::Period | Key::Numpad3 => Some(IVec2 { x: 1, y: -1i32 }),
        _ => None,
    }
}

/// The step a movement key stands for, if it is one.
pub fn key_direction(key: Key) -> (r: Option<IVec2>)
    ensures
        r == spec_key_direction(key),
{
    match key {
        Key::I | Key::Numpad8 => Some(IVec2 { x: 0, y: 1 }),
        Key::Comma | Key::Numpad2 => Some(IVec2 { x: 0, y: -1 }),
        Key::J | Key::Numpad4 => Some(IVec2 { x: -1, y: 0 }),
        Key::L | Key::Numpad6 => Some(IVec2 { x: 1, y: 0 }),
        Key::U | Key::Numpad7 => Some(IVec2 { x: -1, y: 1 }),
        Key::O | Key::Numpad9 => Some(IVec2 { x: 1, y: 1 }),
        Key::M | Key::Numpad1 => Some(IVec2 { x: -1, y: -1 }),
        Key::Period | Key::Numpad3 => Some(IVec2 { x: 1, y: -1 }),
        _ => None,
    }
}

/// What a key press asks of the game while the player acts.
#[derive(Clone, Copy, PartialEq, Eq, Structural, Debug)]
pub enum GameCommand {
    Move(PointMoveEvent),
    Status(StatusEffectEvent),
    Heal(HealActionEvent),
    /// Start aiming the first ranged attack from the player's position.
    StartTargetting(IVec2),
}

/// The sneaking the player falls into when waiting: for two turns its
/// stealth range is halved (rounding to nearest), refreshed on repeat.
pub open spec fn sneak_of(player: EntityId) -> StatusEffectEvent {
    StatusEffectEvent {
        application: StatusEffectApplication {
            effect: StatusEffect {
                status_type: StatusEffectType::Sneaking,
                from: Some(player),
                tile_modification: None,
                duration: Some(2u32),
                stat_modification: Some(
                    StatModification { stat_type: StatType::StealthRange, operation: Operation::DivideRound(2) },
                ),
            },
            stacking: StatusEffectStacking::Refreshes,
        },
        entity: player,
    }
}

/// What a key press asks while the player acts, and whether it takes the
/// turn: a movement key moves, `k` (numpad 5) waits and sneaks, `v` heals,
/// and `c` starts aiming (which does not take the turn yet).
pub open spec fn spec_game_command(key: Key, player: EntityId, pos: IVec2) -> Option<(GameCommand, bool)> {
    match spec_key_direction(key) {
        Some(d) => Some((GameCommand::Move(PointMoveEvent { entity: player, movement: d }), true)),
        None => match key {
            Key::K | Key::Numpad5 => Some((GameCommand::Status(sneak_of(player)), true)),
            Key::V => Some((GameCommand::Heal(HealActionEvent { healing_entity: player }), true)),
            Key::C => Some((GameCommand::StartTargetting(pos), false)),
            _ => None,
        },
    }
}

/// The commands of the keys pressed, in order.
pub open spec fn game_commands(keys: Seq<Key>, player: EntityId, pos: IVec2) -> Seq<GameCommand>
    decreases keys.len(),
{
    if keys.len() == 0 {
        Seq::empty()
    } else {
        let rest = game_commands(keys.drop_last(), player, pos);
        match spec_game_command(keys.last(), player, pos) {
            Some((c, _)) => rest.push(c),
            None => rest,
        }
    }
}

/// Whether one of the keys pressed takes the turn.
pub open spec fn takes_turn(keys: Seq<Key>, player: EntityId, pos: IVec2) -> bool {
    exists|i: int| 0 <= i < keys.len() && (#[trigger] spec_game_command(keys[i], player, pos)) matches Some((_, true))
}

/// The player's input while it is the player's turn: each key pressed, in
/// order, gives its command; the turn is taken if any of them takes it.
pub fn player_input_game(turns: &mut Turns, player: EntityId, player_pos: IVec2, keys: &Vec<Key>) -> (r: Vec<
    GameCommand,
>)
    ensures
        r@ == game_commands(keys@, player, player_pos),
        final(turns).order@ == old(turns).order@,
        final(turns).current == old(turns).current,
        final(turns).progress == (old(turns).progress || takes_turn(keys@, player, player_pos)),
{
    let mut commands: Vec<GameCommand> = Vec::new();
    let mut i: usize = 0;
    while i < keys.len()
        invariant
            i <= keys@.len(),
            commands@ == game_commands(keys@.take(i as int), player, player_pos),
            turns.order@ == old(turns).order@,
            turns.current == old(turns).current,
            turns.progress == (old(turns).progress || takes_turn(keys@.take(i as int), player, player_pos)),
        decreases keys@.len() - i,
    {
        let key = keys[i];
        proof {
            assert(keys@.take(i as int + 1).drop_last() =~= keys@.take(i as int));
            assert(keys@.take(i as int + 1).last() == key);
            let pre = keys@.take(i as int);
            let post = keys@.take(i as int + 1);
            assert(takes_turn(post, player, player_pos) == (takes_turn(pre, player, player_pos) || spec_game_command(
                key,
                player,
                player_pos,
            ) matches Some((_, true)))) by {
                if takes_turn(pre, player, player_pos) {
                    let w = choose|w: int|
                        0 <= w < pre.len() && (#[trigger] spec_game_command(pre[w], player, player_pos)) matches Some((_, true));
                    assert(post[w] == pre[w]);
                }
                if takes_turn(post, player, player_pos) {
                    let w = choose|w: int|
                        0 <= w < post.len() && (#[trigger] spec_game_command(post[w], player, player_pos)) matches Some((_, true));
                    if w < i {
                        assert(pre[w] == post[w]);
                    }
                }
                if spec_game_command(key, player, player_pos) matches Some((_, true)) {
                    assert(post[i as int] == key);
                }
            }
        }
        match key_direction(key) {
            Some(d) => {
                commands.push(GameCommand::Move(PointMoveEvent { entity: player, movement: d }));
                turns.progress_turn();
            },
            None => match key {
                Key::K | Key::Numpad5 => {
                    commands.push(
                        GameCommand::Status(
                            StatusEffectEvent {
                                application: StatusEffectApplication {
                                    effect: StatusEffect {
                                        status_type: StatusEffectType::Sneaking,
                                        from: Some(player),
                                        tile_modification: None,
                                        duration: Some(2),
                                        stat_modification: Some(
                                            StatModification {
                                                stat_type: StatType::StealthRange,
                                                operation: Operation::DivideRound(2),
                                            },
                                        ),
                                    },
                                    stacking: StatusEffectStacking::Refreshes,
                                },
                                entity: player,
                            },
                        ),
                    );
                    turns.progress_turn();
                },
                Key::V => {
                    commands.push(GameCommand::Heal(HealActionEvent { healing_entity: player }));
                    turns.progress_turn();
                },
                Key::C => {
                    commands.push(GameCommand::StartTargetting(player_pos));
                },
                _ => {},
            },
        }
        i = i + 1;
    }
    assert(keys@.take(keys@.len() as int) =~= keys@);
    commands
}

/// What a key press asks of the game itself.
#[derive(Clone, Copy, PartialEq, Eq, Structural, Debug)]
pub enum MetaCommand {
    /// Change the sprite magnification by this much.
    Resize(i32),
    /// Start a new game.
    Restart,
    /// Show the help pages.
    Help,
    /// Quit.
    Exit,
}

/// What a key asks at any time: `+`/`=` enlarge, `-` shrink, and shift+`r`
/// restarts.
pub open spec fn spec_meta_general(key: Key, shift: bool) -> Option<MetaCommand> {
    match key {
        Key::NumpadAdd | Key::Equals => Some(MetaCommand::Resize(1i32)),
        Key::NumpadSubtract | Key::Minus => Some(MetaCommand::Resize(-1i32)),
        Key::R => if shift {
            Some(MetaCommand::Restart)
        } else {
            None
        },
        _ => None,
    }
}

/// The commands of the keys, in order, by `f`.
pub open spec fn meta_commands(keys: Seq<Key>, shift: bool) -> Seq<MetaCommand>
    decreases keys.len(),
{
    if keys.len() == 0 {
        Seq::empty()
    } else {
        let rest = meta_commands(keys.drop_last(), shift);
        match spec_meta_general(keys.last(), shift) {
            Some(c) => rest.push(c),
            None => rest,
        }
    }
}

/// The game's own keys, pressed in order (`shift` tells whether a shift key
/// is held).
pub fn player_input_meta_general(keys: &Vec<Key>, shift: bool) -> (r: Vec<MetaCommand>)
    ensures
        r@ == meta_commands(keys@, shift),
{
    let mut r: Vec<MetaCommand> = Vec::new();
    let mut i: usize = 0;
    while i < keys.len()
        invariant
            i <= keys@.len(),
            r@ == meta_commands(keys@.take(i as int), shift),
        decreases keys@.len() - i,
    {
        assert(keys@.take(i as int + 1).drop_last() =~= keys@.take(i as int));
        match keys[i] {
            Key::NumpadAdd | Key::Equals => r.push(MetaCommand::Resize(1)),
            Key::NumpadSubtract | Key::Minus => r.push(MetaCommand::Resize(-1)),
            Key::R => {
                if shift {
                    r.push(MetaCommand::Restart);
                }
            },
            _ => {},
        }
        i = i + 1;
    }
    assert(keys@.take(keys@.len() as int) =~= keys@);
    r
}

/// How often the character occurs.
pub open spec fn char_count(s: Seq<char>, c: char) -> nat
    decreases s.len(),
{
    if s.len() == 0 {
        0
    } else {
        char_count(s.drop_last(), c) + if s.last() == c {
            1nat
        } else {
            0nat
        }
    }
}

/// How often the key occurs.
pub open spec fn key_count(s: Seq<Key>, k: Key) -> nat
    decreases s.len(),
{
    if s.len() == 0 {
        0
    } else {
        key_count(s.drop_last(), k) + if s.last() == k {
            1nat
        } else {
            0nat
        }
    }
}

/// The commands while playing: each `?` typed opens the help, then each
/// escape pressed quits.
pub open spec fn playing_commands(chars: Seq<char>, keys: Seq<Key>) -> Seq<MetaCommand> {
    Seq::new(char_count(chars, '?'), |i: int| MetaCommand::Help) + Seq::new(
        key_count(keys, Key::Escape),
        |i: int| MetaCommand::Exit,
    )
}

fn count_chars(chars: &Vec<char>, wanted: char) -> (n: usize)
    ensures
        n == char_count(chars@, wanted),
{
    let mut n: usize = 0;
    let mut i: usize = 0;
    while i < chars.len()
        invariant
            i <= chars@.len(),
            n == char_count(chars@.take(i as int), wanted),
            n <= i,
        decreases chars@.len() - i,
    {
        assert(chars@.take(i as int + 1).drop_last() =~= chars@.take(i as int));
        if chars[i] == wanted {
            n = n + 1;
        }
        i = i + 1;
    }
    assert(chars@.take(chars@.len() as int) =~= chars@);
    n
}

fn count_keys(keys: &Vec<Key>, wanted: Key) -> (n: usize)
    ensures
        n == key_count(keys@, wanted),
{
    let mut n: usize = 0;
    let mut i: usize = 0;
    while i < keys.len()
        invariant
            i <= keys@.len(),
            n == key_count(keys@.take(i as int), wanted),
            n <= i,
        decreases keys@.len() - i,
    {
        assert(keys@.take(i as int + 1).drop_last() =~= keys@.take(i as int));
        if keys[i] == wanted {
            n = n + 1;
        }
        i = i + 1;
    }
    assert(keys@.take(keys@.len() as int) =~= keys@);
    n
}

/// The game's keys while playing: `?` typed opens the help pages and escape
/// quits.
pub fn player_input_meta_playing(chars: &Vec<char>, keys: &Vec<Key>) -> (r: Vec<MetaCommand>)
    ensures
        r@ == playing_commands(chars@, keys@),
{
    let helps = count_chars(chars, '?');
    let exits = count_keys(keys, Key::Escape);
    let mut r: Vec<MetaCommand> = Vec::new();
    let mut i: usize = 0;
    while i < helps
        invariant
            i <= helps,
            r@ == Seq::new(i as nat, |j: int| MetaCommand::Help),
        decreases helps - i,
    {
        r.push(MetaCommand::Help);
        i = i + 1;
        assert(r@ =~= Seq::new(i as nat, |j: int| MetaCommand::Help));
    }
    let mut k: usize = 0;
    while k < exits
        invariant
            k <= exits,
            r@ == Seq::new(helps as nat, |j: int| MetaCommand::Help) + Seq::new(k as nat, |j: int| MetaCommand::Exit),
        decreases exits - k,
    {
        r.push(MetaCommand::Exit);
        k = k + 1;
        assert(r@ =~= Seq::new(helps as nat, |j: int| MetaCommand::Help) + Seq::new(k as nat, |j: int| MetaCommand::Exit));
    }
    r
}

/// What the keys come to while aiming: the reticle moves asked for, in
/// order, whether a target was picked, the state to go to (if any), and the
/// reticle kept on the map.
pub struct TargettingInput {
    pub moves: Vec<IVec2>,
    pub selected: bool,
    pub next_state: Option<GameState>,
    pub target: IVec2,
}

/// The reticle moves the keys ask for, in order.
pub open spec fn reticle_moves(keys: Seq<Key>) -> Seq<IVec2>
    decreases keys.len(),
{
    if keys.len() == 0 {
        Seq::empty()
    } else {
        let rest = reticle_moves(keys.drop_last());
        match spec_key_direction(keys.last()) {
            Some(d) => rest.push(d),
            None => rest,
        }
    }
}

/// Whether the key picks the target (return, space or `c`).
pub open spec fn selects(k: Key) -> bool {
    k == Key::Return || k == Key::Space || k == Key::C
}

/// The value brought within `lo..=hi`.
pub open spec fn clamp_to(v: int, lo: int, hi: int) -> int {
    if v < lo {
        lo
    } else if v > hi {
        hi
    } else {
        v
    }
}

/// Aiming controls: movement keys ask to move the reticle; return, space or
/// `c` pick the target and escape cancels, both going back to play; the
/// reticle is kept on the map.
pub fn targetting_controls(keys: &Vec<Key>, target: IVec2, map_size: &MapSize) -> (r: TargettingInput)
    requires
        1 <= map_size.width <= i32::MAX,
        1 <= map_size.height <= i32::MAX,
    ensures
        r.moves@ == reticle_moves(keys@),
        r.selected == exists|i: int| 0 <= i < keys@.len() && selects(#[trigger] keys@[i]),
        r.next_state == (if exists|i: int|
            0 <= i < keys@.len() && (selects(#[trigger] keys@[i]) || keys@[i] == Key::Escape) {
            Some(GameState::Playing)
        } else {
            None::<GameState>
        }),
        r.target.x == clamp_to(target.x as int, 0, map_size.width - 1),
        r.target.y == clamp_to(target.y as int, 0, map_size.height - 1),
{
    let mut moves: Vec<IVec2> = Vec::new();
    let mut selected = false;
    let mut leave = false;
    let mut i: usize = 0;
    while i < keys.len()
        invariant
            i <= keys@.len(),
            moves@ == reticle_moves(keys@.take(i as int)),
            selected == exists|j: int| 0 <= j < i && selects(#[trigger] keys@[j]),
            leave == exists|j: int| 0 <= j < i && (selects(#[trigger] keys@[j]) || keys@[j] == Key::Escape),
        decreases keys@.len() - i,
    {
        assert(keys@.take(i as int + 1).drop_last() =~= keys@.take(i as int));
        let k = keys[i];
        match key_direction(k) {
            Some(d) => moves.push(d),
            None => {},
        }
        if k == Key::Return || k == Key::Space || k == Key::C {
            selected = true;
            leave = true;
        }
        if k == Key::Escape {
            leave = true;
        }
        i = i + 1;
    }
    assert(keys@.take(keys@.len() as int) =~= keys@);
    let w = (map_size.width - 1) as i32;
    let h = (map_size.height - 1) as i32;
    let x = if target.x < 0 {
        0
    } else if target.x > w {
        w
    } else {
        target.x
    };
    let y = if target.y < 0 {
        0
    } else if target.y > h {
        h
    } else {
        target.y
    };
    TargettingInput {
        moves,
        selected,
        next_state: if leave {
            Some(GameState::Playing)
        } else {
            None
        },
        target: IVec2 { x, y },
    }
}

/// The pages of help.
#[derive(Clone, Copy, PartialEq, Eq, Structural, Debug)]
pub enum HelpPage {
    Intro,
    Controls,
    Combat,
    Stealth,
    Tips,
}

impl HelpPage {
    pub open spec fn spec_path(self) -> Seq<char> {
        match self {
            HelpPage::Intro => "assets/help/intro.txt"@,
            HelpPage::Controls => "assets/help/controls.txt"@,
            HelpPage::Combat => "assets/help/combat.txt"@,
            HelpPage::Stealth => "assets/help/stealth.txt"@,
            HelpPage::Tips => "assets/help/tips.txt"@,
        }
    }

    /// The file the page is read from.
    pub fn path(&self) -> (r: &'static str)
        ensures
            r@ == self.spec_path(),
    {
        match self {
            HelpPage::Intro => "assets/help/intro.txt",
            HelpPage::Controls => "assets/help/controls.txt",
            HelpPage::Combat => "assets/help/combat.txt",
            HelpPage::Stealth => "assets/help/stealth.txt",
            HelpPage::Tips => "assets/help/tips.txt",
        }
    }
}

/// What a key press asks while the help is shown.
#[derive(Clone, Copy, PartialEq, Eq, Structural, Debug)]
pub enum HelpCommand {
    /// Go to the state.
    State(GameState),
    /// Scroll the page by this many lines.
    Scroll(i32),
    /// Show the page.
    Page(HelpPage),
}

/// What a key asks while the help is shown: escape (or `?`, shift+`/`) goes
/// back to play, the arrows scroll, and `i`, `c`, `x`, `s`, `t` open the
/// intro, controls, combat, stealth and tips pages.
pub open spec fn spec_help_command(key: Key, shift: bool) -> Option<HelpCommand> {
    match key {
        Key::Escape => Some(HelpCommand::State(GameState::Playing)),
        Key::Slash => if shift {
            Some(HelpCommand::State(GameState::Playing))
        } else {
            None
        },
        Key::Up => Some(HelpCommand::Scroll(-1i32)),
        Key::Down => Some(HelpCommand::Scroll(1i32)),
        Key::I => Some(HelpCommand::Page(HelpPage::Intro)),
        Key::C => Some(HelpCommand::Page(HelpPage::Controls)),
        Key::X => Some(HelpCommand::Page(HelpPage::Combat)),
        Key::S => Some(HelpCommand::Page(HelpPage::Stealth)),
        Key::T => Some(HelpCommand::Page(HelpPage::Tips)),
        _ => None,
    }
}

/// The help commands of the keys, in order.
pub open spec fn help_commands(keys: Seq<Key>, shift: bool) -> Seq<HelpCommand>
    decreases keys.len(),
{
    if keys.len() == 0 {
        Seq::empty()
    } else {
        let rest = help_commands(keys.drop_last(), shift);
        match spec_help_command(keys.last(), shift) {
            Some(c) => rest.push(c),
            None => rest,
        }
    }
}

/// Help controls, for the keys pressed in order (`shift` tells whether a
/// shift key is held).
pub fn help_input(keys: &Vec<Key>, shift: bool) -> (r: Vec<HelpCommand>)
    ensures
        r@ == help_commands(keys@, shift),
{
    let mut r: Vec<HelpCommand> = Vec::new();
    let mut i: usize = 0;
    while i < keys.len()
        invariant
            i <= keys@.len(),
            r@ == help_commands(keys@.take(i as int), shift),
        decreases keys@.len() - i,
    {
        assert(keys@.take(i as int + 1).drop_last() =~= keys@.take(i as int));
        let c = match keys[i] {
            Key::Escape => Some(HelpCommand::State(GameState::Playing)),
            Key::Slash => if shift {
                Some(HelpCommand::State(GameState::Playing))
            } else {
                None
            },
            Key::Up => Some(HelpCommand::Scroll(-1)),
            Key::Down => Some(HelpCommand::Scroll(1)),
            Key::I => Some(HelpCommand::Page(HelpPage::Intro)),
            Key::C => Some(HelpCommand::Page(HelpPage::Controls)),
            Key::X => Some(HelpCommand::Page(HelpPage::Combat)),
            Key::S => Some(HelpCommand::Page(HelpPage::Stealth)),
            Key::T => Some(HelpCommand::Page(HelpPage::Tips)),
            _ => None,
        };
        match c {
            Some(c) => r.push(c),
            None => {},
        }
        i = i + 1;
    }
    assert(keys@.take(keys@.len() as int) =~= keys@);
    r
}

/// Asks to show a help page.
#[derive(Clone, Copy, PartialEq, Eq, Structural, Debug)]
pub struct HelpPageChangeEvent(pub HelpPage);

/// Asks to scroll the help page by this many lines.
#[derive(Clone, Copy, PartialEq, Eq, Structural, Debug)]
pub struct HelpPageScrollEvent(pub i32);

/// Asks to move the aiming reticle by an offset.
#[derive(Clone, Copy, PartialEq, Eq, Structural, Debug)]
pub struct MoveTargetEvent(pub IVec2);

/// The help opens on its first page.
pub fn start_help() -> (r: HelpCommand)
    ensures
        r == HelpCommand::Page(HelpPage::Intro),
{
    HelpCommand::Page(HelpPage::Intro)
}

/// The page shown, its lines, and how far it is scrolled.
pub struct CurrentHelpPage {
    pub page: HelpPage,
    pub contents: Vec<Vec<LogFragment>>,
    pub scrolling: usize,
}

impl CurrentHelpPage {
    /// The intro page, with no lines yet, not scrolled.
    pub fn default() -> (r: CurrentHelpPage)
        ensures
            r.page == HelpPage::Intro,
            r.contents@.len() == 0,
            r.scrolling == 0,
    {
        CurrentHelpPage { page: HelpPage::Intro, contents: Vec::new(), scrolling: 0 }
    }
}

/// The range of lines of a page that fits a screen of `height` lines: all
/// of them, or the last `height`.
pub fn visible_lines(line_count: usize, height: usize) -> (r: (usize, usize))
    ensures
        r.1 == line_count,
        r.0 == if line_count < height {
            0
        } else {
            line_count - height
        },
{
    if line_count < height {
        (0, line_count)
    } else {
        (line_count - height, line_count)
    }
}

/// The player's name.
pub struct PlayerName(pub String);

impl PlayerName {
    /// `Cock`.
    pub fn default() -> (r: PlayerName)
        ensures
            r.0@ == "Cock"@,
    {
        PlayerName(String::from_str("Cock"))
    }
}

/// The name after one typed character: line breaks, tabs and vertical tabs
/// are ignored, backspace takes the last character off, anything else is
/// added; a name longer than 10 bytes loses its last character.
pub open spec fn typed_char(name: Seq<char>, c: char) -> Seq<char> {
    let n = if c == '\n' || c == '\r' || c == '\t' || c == '\u{b}' {
        name
    } else if c == '\u{8}' {
        if name.len() > 0 {
            name.drop_last()
        } else {
            name
        }
    } else {
        name.push(c)
    };
    if byte_len(n) > 10 && n.len() > 0 {
        n.drop_last()
    } else {
        n
    }
}

/// The name after the characters typed, in order.
pub open spec fn typed_name(name: Seq<char>, chars: Seq<char>) -> Seq<char>
    decreases chars.len(),
{
    if chars.len() == 0 {
        name
    } else {
        typed_char(typed_name(name, chars.drop_last()), chars.last())
    }
}

/// A name that fits in 10 bytes still fits after any typing: the game keeps
/// names to at most 10 bytes.
pub proof fn lemma_typed_name_fits(name: Seq<char>, chars: Seq<char>)
    requires
        byte_len(name) <= 10,
    ensures
        byte_len(typed_name(name, chars)) <= 10,
    decreases chars.len(),
{
    if chars.len() > 0 {
        lemma_typed_name_fits(name, chars.drop_last());
        let pre = typed_name(name, chars.drop_last());
        let c = chars.last();
        if pre.len() > 0 {
            lemma_byte_len_push(pre.drop_last(), pre.last());
            assert(pre.drop_last().push(pre.last()) =~= pre);
        }
        lemma_byte_len_push(pre, c);
        assert(pre.push(c).drop_last() =~= pre);
    }
}

/// What the naming screen shows and decides in a frame: the prompt (`Name: `
/// and the name as it stood before the frame's typing), the cell where it
/// starts so that it stands centred, and the state the game moves to, a
/// restart where Return was just pressed.
pub struct NameScreen {
    pub prompt: String,
    pub prompt_at: (i64, i64),
    pub next_state: Option<GameState>,
}

/// Naming the character: the characters typed edit the name; the prompt
/// shows the name as it stood, centred in the terminal; Return restarts the
/// game.
pub fn name_character(name: &mut PlayerName, chars: &Vec<char>, return_pressed: bool, term_size: (u32, u32)) -> (r:
    NameScreen)
    ensures
        final(name).0@ == typed_name(old(name).0@, chars@),
        r.prompt@ == "Name: "@ + old(name).0@,
        r.prompt_at.0 == (term_size.0 / 2) as int - ((byte_len(r.prompt@) as usize) / 2) as int,
        r.prompt_at.1 == (term_size.1 / 2) as int,
        r.next_state == (if return_pressed {
            Some(GameState::Restart)
        } else {
            None
        }),
{
    let mut prompt = String::from_str("Name: ");
    prompt.append(name.0.as_str());
    let half: i64 = (prompt.as_str().len() / 2) as i64;
    let prompt_at: (i64, i64) = ((term_size.0 / 2) as i64 - half, (term_size.1 / 2) as i64);
    let mut cur = chars_of(name.0.as_str());
    let mut i: usize = 0;
    while i < chars.len()
        invariant
            i <= chars@.len(),
            cur@ == typed_name(old(name).0@, chars@.take(i as int)),
        decreases chars@.len() - i,
    {
        assert(chars@.take(i as int + 1).drop_last() =~= chars@.take(i as int));
        let c = chars[i];
        if c == '\n' || c == '\r' || c == '\t' || c == '\u{b}' {
        } else if c == '\u{8}' {
            if cur.len() > 0 {
                cur.pop();
            }
        } else {
            cur.push(c);
        }
        let ghost mid = cur@;
        let too_long = byte_len_exceeds(&cur, 10);
        if too_long && cur.len() > 0 {
            cur.pop();
        }
        proof {
            let pre = typed_name(old(name).0@, chars@.take(i as int));
            if c == '\n' || c == '\r' || c == '\t' || c == '\u{b}' {
                assert(mid == pre);
            } else if c == '\u{8}' {
                assert(pre.len() > 0 ==> mid =~= pre.drop_last());
            } else {
                assert(mid =~= pre.push(c));
            }
            assert(cur@ =~= typed_char(pre, c));
        }
        i = i + 1;
    }
    assert(chars@.take(chars@.len() as int) =~= chars@);
    name.0 = string_of(&cur);
    let next_state = if return_pressed {
        Some(GameState::Restart)
    } else {
        None
    };
    NameScreen { prompt, prompt_at, next_state }
}

/// Whether the key gives the step `(x, y)`.
pub open spec fn steps(key: Key, x: int, y: int) -> bool {
    spec_key_direction(key) matches Some(d) && d.x == x && d.y == y
}

/// The movement keys are laid out as a ring around `k` (and numpad 5): `i`
/// is up and `j` left, the keys across from them go the opposite way, each
/// corner key (`u`, `o`, `m`, `.`) takes the two steps of the keys beside
/// it, and each numpad key steps as the letter key in its place. No other key
/// moves.
pub proof fn lemma_movement_keys_layout()
    ensures
        steps(Key::I, 0, 1),
        steps(Key::J, -1, 0),
        forall|x: int, y: int| steps(Key::I, x, y) ==> steps(Key::Comma, -x, -y),
        forall|x: int, y: int| steps(Key::J, x, y) ==> steps(Key::L, -x, -y),
        forall|a: int, b: int, c: int, d: int|
            steps(Key::I, a, b) && steps(Key::J, c, d) ==> steps(Key::U, a + c, b + d),
        forall|a: int, b: int, c: int, d: int|
            steps(Key::I, a, b) && steps(Key::L, c, d) ==> steps(Key::O, a + c, b + d),
        forall|a: int, b: int, c: int, d: int|
            steps(Key::Comma, a, b) && steps(Key::J, c, d) ==> steps(Key::M, a + c, b + d),
        forall|a: int, b: int, c: int, d: int|
            steps(Key::Comma, a, b) && steps(Key::L, c, d) ==> steps(Key::Period, a + c, b + d),
        spec_key_direction(Key::Numpad8) == spec_key_direction(Key::I),
        spec_key_direction(Key::Numpad2) == spec_key_direction(Key::Comma),
        spec_key_direction(Key::Numpad4) == spec_key_direction(Key::J),
        spec_key_direction(Key::Numpad6) == spec_key_direction(Key::L),
        spec_key_direction(Key::Numpad7) == spec_key_direction(Key::U),
        spec_key_direction(Key::Numpad9) == spec_key_direction(Key::O),
        spec_key_direction(Key::Numpad1) == spec_key_direction(Key::M),
        spec_key_direction(Key::Numpad3) == spec_key_direction(Key::Period),
        spec_key_direction(Key::K) is None,
        spec_key_direction(Key::Numpad5) is None,
        forall|k: Key|
            (#[trigger] spec_key_direction(k)) is Some ==> (k is I || k is Numpad8 || k is Comma || k is Numpad2 || k is J
                || k is Numpad4 || k is L || k is Numpad6 || k is U || k is Numpad7 || k is O || k is Numpad9 || k is M
                || k is Numpad1 || k is Period || k is Numpad3),
{
}

/// The eight movement keys step to the eight different neighbouring tiles.
pub proof fn lemma_movement_keys_distinct()
    ensures
        ({
            let keys = seq![Key::I, Key::Comma, Key::J, Key::L, Key::U, Key::O, Key::M, Key::Period];
            &&& forall|i: int|
                0 <= i < 8 ==> (spec_key_direction(#[trigger] keys[i]) matches Some(d) && -1 <= d.x <= 1 && -1 <= d.y
                    <= 1 && (d.x != 0 || d.y != 0))
            &&& forall|i: int, j: int|
                0 <= i < j < 8 ==> spec_key_direction(#[trigger] keys[i]) != spec_key_direction(#[trigger] keys[j])
        }),
{
    let keys = seq![Key::I, Key::Comma, Key::J, Key::L, Key::U, Key::O, Key::M, Key::Period];
    assert(keys[0] == Key::I && keys[1] == Key::Comma && keys[2] == Key::J && keys[3] == Key::L);
    assert(keys[4] == Key::U && keys[5] == Key::O && keys[6] == Key::M && keys[7] == Key::Period);
}

} // verus!
