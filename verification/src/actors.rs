use vstd::prelude::*;

use crate::ai::{Engages, Wanderer};
use crate::alignments::{Alignment, Relations};
use crate::attack::Attack;
use crate::color::Palette;
use crate::dice::{Dice, lemma_game_dice_are_plain, rolls_within_i32};
use crate::geometry::{IVec2, Position, Rectangle};
use crate::input::GameState;
use crate::melee::MeleeAttacker;
use crate::rendering::{Renderable, Tile};
use crate::stats::{FatalEffect, FatalStats, Stat, StatMap, StatType, StatVisibility, Stats};
use crate::status_effects::{
    StatusEffect, StatusEffectApplication, StatusEffectStacking, StatusEffectType, StatusEffects,
    TileModification,
};

verus! {

/// Registers the actors' events and resources.
pub struct ActorPlugin;

/// Marks an actor that takes turns.
#[derive(Clone, Copy, PartialEq, Eq, Structural, Debug)]
pub struct TakesTurns;

/// The steps an actor can take.
#[derive(Clone)]
pub struct Moves(pub Vec<IVec2>);

/// The eight steps: the four cardinal ones first, going round as angles do,
/// then the four diagonal ones.
pub open spec fn eight_moves() -> Seq<IVec2> {
    seq![
        IVec2 { x: 1, y: 0 },
        IVec2 { x: 0, y: 1 },
        IVec2 { x: -1i32, y: 0 },
        IVec2 { x: 0, y: -1i32 },
        IVec2 { x: 1, y: 1 },
        IVec2 { x: -1i32, y: 1 },
        IVec2 { x: -1i32, y: -1i32 },
        IVec2 { x: 1, y: -1i32 },
    ]
}

impl Moves {
    /// The eight steps.
    pub fn default() -> (r: Moves)
        ensures
            r.0@ == eight_moves(),
    {
        let mut v: Vec<IVec2> = Vec::new();
        v.push(IVec2 { x: 1, y: 0 });
        v.push(IVec2 { x: 0, y: 1 });
        v.push(IVec2 { x: -1, y: 0 });
        v.push(IVec2 { x: 0, y: -1 });
        v.push(IVec2 { x: 1, y: 1 });
        v.push(IVec2 { x: -1, y: 1 });
        v.push(IVec2 { x: -1, y: -1 });
        v.push(IVec2 { x: 1, y: -1 });
        assert(v@ =~= eight_moves());
        Moves(v)
    }
}

fn stats_from(entries: Vec<(StatType, Stat)>) -> (r: Stats)
    ensures
        r.view() == crate::stats::map_of_entries(entries@),
{
    Stats(StatMap::from_entries(entries))
}

fn texts2(a: &str, b: &str) -> (r: Vec<String>)
    ensures
        r@.len() == 2,
        r@[0]@ == a@,
        r@[1]@ == b@,
{
    let mut v: Vec<String> = Vec::new();
    v.push(String::from_str(a));
    v.push(String::from_str(b));
    v
}

fn texts1(a: &str) -> (r: Vec<String>)
    ensures
        r@.len() == 1,
        r@[0]@ == a@,
{
    let mut v: Vec<String> = Vec::new();
    v.push(String::from_str(a));
    v
}

/// The parts of the player character that the game's rules read: where it
/// stands, how it is drawn, its stats and fatal stats, its sides, its melee
/// attacks, its statuses, and the attack and cost of its one projectile.
pub struct PlayerBundle {
    pub position: Position,
    pub renderable: Renderable,
    pub stats: Stats,
    pub fatal_stats: FatalStats,
    pub relations: Relations,
    pub melee_attacker: MeleeAttacker,
    pub status_effects: StatusEffects,
    pub projectile_attack: Attack,
    pub projectile_cost: Dice,
    pub projectile_cost_type: StatType,
    pub projectile_count: u32,
}

/// The player's stats: 7 health, 15 of at most 60 cum points, and a stealth
/// range of 7 (between 1 and 128).
pub open spec fn player_stats() -> Map<StatType, Stat> {
    map![
        StatType::Health => Stat { base: 7, effective: 7, min: 0, max: 7, visibility: StatVisibility::Public },
        StatType::CumPoints => Stat { base: 15, effective: 15, min: 0, max: 60, visibility: StatVisibility::Private },
        StatType::StealthRange => Stat { base: 7, effective: 7, min: 1, max: 128, visibility: StatVisibility::Private },
    ]
}

/// A soldier's stats: 7 health and 7 resistance, with 5 perception and 5
/// dexterity kept hidden.
pub open spec fn soldier_stats() -> Map<StatType, Stat> {
    map![
        StatType::Health => Stat { base: 7, effective: 7, min: 0, max: 7, visibility: StatVisibility::Public },
        StatType::Resistance => Stat { base: 7, effective: 7, min: 0, max: 7, visibility: StatVisibility::Public },
        StatType::Perception => Stat { base: 5, effective: 5, min: 0, max: 5, visibility: StatVisibility::Hidden },
        StatType::Dexterity => Stat { base: 5, effective: 5, min: 0, max: 5, visibility: StatVisibility::Hidden },
    ]
}

/// The cumblob the player's projectile leaves: for three turns the target is
/// drawn on an antique white ground, refreshed on repeat.
pub open spec fn cumblob() -> StatusEffectApplication {
    StatusEffectApplication {
        effect: StatusEffect {
            status_type: StatusEffectType::Cumblobbed,
            from: None,
            tile_modification: Some(TileModification { glyph: None, fg_color: None, bg_color: Some(Palette::AntiqueWhite) }),
            duration: Some(3u32),
            stat_modification: None,
        },
        stacking: StatusEffectStacking::Refreshes,
    }
}

impl PlayerBundle {
    /// The player character: a red `@` drawn at order 128, on the side of the
    /// cock against the anti-cock, whose breath and kisses lower resistance
    /// by 1 to 4, and whose projectile (costing 5 cum points) lowers
    /// resistance by 1 to 4 and cumblobs its target, fired one at a time.
    /// `None` where rolling one of its dice fails, which cannot happen where
    /// each of its expressions rolls within an `i32`.
    pub fn default() -> (r: Option<PlayerBundle>)
        ensures
            rolls_within_i32("1d4 * -1"@) && rolls_within_i32("0"@) && rolls_within_i32("-5"@) ==> r is Some,
            r matches Some(b) ==> {
                &&& b.position == Position(IVec2 { x: 0, y: 0 })
                &&& b.renderable == (Renderable {
                    base_tile: Tile { glyph: '@', fg_color: Palette::Red, bg_color: Palette::Transparent },
                    effective_tile: Tile { glyph: '@', fg_color: Palette::Red, bg_color: Palette::Transparent },
                    order: 128,
                })
                &&& b.stats.view() == player_stats()
                &&& b.fatal_stats.view() == map![StatType::Health => (0i32, FatalEffect::Corpse)]
                &&& b.relations.alignments@.to_set() == set![Alignment::Cock]
                &&& b.relations.friends@.to_set() == set![Alignment::Cock]
                &&& b.relations.enemies@.to_set() == set![Alignment::AntiCock]
                &&& b.melee_attacker.attacks@.len() == 1
                &&& b.melee_attacker.attacks@[0].interact_text@.len() == 2
                &&& b.melee_attacker.attacks@[0].interact_text@[0]@
                    == "{attacker} breathes their stink into {attacked}'s head, lowering their resistance by {amount}!"@
                &&& b.melee_attacker.attacks@[0].interact_text@[1]@
                    == "{attacker} gives {attacked} a big smelly kiss with their cockmaw, lowering their resistance by {amount}!"@
                &&& b.melee_attacker.attacks@[0].damage.expression@ == "1d4 * -1"@
                &&& b.melee_attacker.attacks@[0].damage_type == StatType::Resistance
                &&& b.melee_attacker.attacks@[0].cost.expression@ == "0"@
                &&& b.melee_attacker.attacks@[0].cost_type == StatType::Health
                &&& b.melee_attacker.attacks@[0].save == 16
                &&& b.melee_attacker.attacks@[0].save_type == StatType::Dexterity
                &&& b.melee_attacker.attacks@[0].status_effect is None
                &&& b.status_effects.view().len() == 0
                &&& b.projectile_attack.damage.expression@ == "1d4 * -1"@
                &&& b.projectile_attack.damage_type == StatType::Resistance
                &&& b.projectile_attack.cost.expression@ == "0"@
                &&& b.projectile_attack.cost_type == StatType::CumPoints
                &&& b.projectile_attack.status_effect == Some(cumblob())
                &&& b.projectile_cost.expression@ == "-5"@
                &&& b.projectile_cost_type == StatType::CumPoints
                &&& b.projectile_count == 1
            },
    {
        proof {
            lemma_game_dice_are_plain();
        }
        let stats = stats_from(
            vec![
                (StatType::Health, Stat::new(0, 7, StatVisibility::Public)),
                (StatType::CumPoints, Stat::with_value(15, 0, 60, StatVisibility::Private)),
                (StatType::StealthRange, Stat::with_value(7, 1, 128, StatVisibility::Private)),
            ],
        );
        assert(stats.view() =~= player_stats()) by {
            reveal_with_fuel(crate::stats::map_of_entries, 4);
        }
        let mut melee = match Attack::default() {
            Some(a) => a,
            None => {
                return None;
            },
        };
        melee.interact_text = texts2(
            "{attacker} breathes their stink into {attacked}'s head, lowering their resistance by {amount}!",
            "{attacker} gives {attacked} a big smelly kiss with their cockmaw, lowering their resistance by {amount}!",
        );
        melee.damage = match Dice::new("1d4 * -1") {
            Some(d) => d,
            None => {
                return None;
            },
        };
        melee.damage_type = StatType::Resistance;
        melee.cost = match Dice::new("0") {
            Some(d) => d,
            None => {
                return None;
            },
        };
        melee.cost_type = StatType::Health;
        let mut shot = match Attack::default() {
            Some(a) => a,
            None => {
                return None;
            },
        };
        shot.damage = match Dice::new("1d4 * -1") {
            Some(d) => d,
            None => {
                return None;
            },
        };
        shot.damage_type = StatType::Resistance;
        shot.cost = match Dice::new("0") {
            Some(d) => d,
            None => {
                return None;
            },
        };
        shot.cost_type = StatType::CumPoints;
        shot.status_effect = Some(
            StatusEffectApplication {
                effect: StatusEffect {
                    status_type: StatusEffectType::Cumblobbed,
                    from: None,
                    tile_modification: Some(
                        TileModification { glyph: None, fg_color: None, bg_color: Some(Palette::AntiqueWhite) },
                    ),
                    duration: Some(3),
                    stat_modification: None,
                },
                stacking: StatusEffectStacking::Refreshes,
            },
        );
        let shot_cost = match Dice::new("-5") {
            Some(d) => d,
            None => {
                return None;
            },
        };
        let mut attacks: Vec<Attack> = Vec::new();
        attacks.push(melee);
        let relations = Relations::new(vec![Alignment::Cock], vec![Alignment::Cock], vec![Alignment::AntiCock]);
        proof {
            assert(seq![Alignment::Cock].to_set() =~= set![Alignment::Cock]) by {
                assert(seq![Alignment::Cock][0] == Alignment::Cock);
            }
            assert(seq![Alignment::AntiCock].to_set() =~= set![Alignment::AntiCock]) by {
                assert(seq![Alignment::AntiCock][0] == Alignment::AntiCock);
            }
        }
        Some(
            PlayerBundle {
                position: Position(IVec2 { x: 0, y: 0 }),
                renderable: Renderable::new(
                    Tile { glyph: '@', fg_color: Palette::Red, bg_color: Palette::Transparent },
                    128,
                ),
                stats,
                fatal_stats: FatalStats::default(),
                relations,
                melee_attacker: MeleeAttacker { attacks },
                status_effects: StatusEffects::default(),
                projectile_attack: shot,
                projectile_cost: shot_cost,
                projectile_cost_type: StatType::CumPoints,
                projectile_count: 1,
            },
        )
    }
}

/// The parts of a soldier that the game's rules read: how it is drawn, its
/// steps, statuses, stats and fatal stats, its sides, how it engages, its
/// melee attacks, and the attack and cost of its one projectile.
pub struct SoldierBundle {
    pub position: Position,
    pub renderable: Renderable,
    pub moves: Moves,
    pub status_effects: StatusEffects,
    pub stats: Stats,
    pub fatal_stats: FatalStats,
    pub relations: Relations,
    pub engages: Engages,
    pub melee_attacker: MeleeAttacker,
    pub projectile_attack: Attack,
    pub projectile_cost: Dice,
    pub projectile_cost_type: StatType,
    pub projectile_count: u32,
}

impl SoldierBundle {
    /// A soldier: a grey `H` drawn at order 128, with the eight steps, on the
    /// side of the anti-cock against the cock; it dies at 0 health and falls
    /// into a trance at 0 resistance; it keeps its place within a distance of
    /// 3.5 of its target (a squared distance of 12); it stabs or slashes for
    /// 1 to 4 health, which a dexterity save of 16 dodges; and its projectile
    /// takes 1 to 2 health, fired three at a time at no cost in health. `None`
    /// where rolling one of its dice fails, which cannot happen where each of
    /// its expressions rolls within an `i32`.
    pub fn default() -> (r: Option<SoldierBundle>)
        ensures
            rolls_within_i32("1d4 * -1"@) && rolls_within_i32("0"@) && rolls_within_i32("1d2 * -1"@) ==> r is Some,
            r matches Some(b) ==> {
                &&& b.position == Position(IVec2 { x: 0, y: 0 })
                &&& b.renderable == (Renderable {
                    base_tile: Tile { glyph: 'H', fg_color: Palette::Gray, bg_color: Palette::Transparent },
                    effective_tile: Tile { glyph: 'H', fg_color: Palette::Gray, bg_color: Palette::Transparent },
                    order: 128,
                })
                &&& b.moves.0@ == eight_moves()
                &&& b.status_effects.view().len() == 0
                &&& b.stats.view() == soldier_stats()
                &&& b.fatal_stats.view() == map![
                    StatType::Health => (0i32, FatalEffect::Corpse),
                    StatType::Resistance => (0i32, FatalEffect::Trance),
                ]
                &&& b.relations.alignments@.to_set() == set![Alignment::AntiCock]
                &&& b.relations.friends@.to_set() == set![Alignment::AntiCock]
                &&& b.relations.enemies@.to_set() == set![Alignment::Cock]
                &&& b.engages.target is None
                &&& b.engages.delay == 1
                &&& b.engages.delay_timer == 0
                &&& b.engages.distance_sq == 12
                &&& b.engages.path.positions@.len() == 0
                &&& b.melee_attacker.attacks@.len() == 1
                &&& b.melee_attacker.attacks@[0].interact_text@.len() == 2
                &&& b.melee_attacker.attacks@[0].interact_text@[0]@ == "{attacker} stabs {attacked} for {amount} damage!"@
                &&& b.melee_attacker.attacks@[0].interact_text@[1]@ == "{attacker} slashes {attacked} for {amount} damage!"@
                &&& b.melee_attacker.attacks@[0].damage.expression@ == "1d4 * -1"@
                &&& b.melee_attacker.attacks@[0].damage_type == StatType::Health
                &&& b.melee_attacker.attacks@[0].cost.expression@ == "0"@
                &&& b.melee_attacker.attacks@[0].cost_type == StatType::Health
                &&& b.melee_attacker.attacks@[0].save_text@.len() == 1
                &&& b.melee_attacker.attacks@[0].save_text@[0]@ == "{attacked} maneuvers out of {attacker's} stab!"@
                &&& b.melee_attacker.attacks@[0].save == 16
                &&& b.melee_attacker.attacks@[0].save_type == StatType::Dexterity
                &&& b.melee_attacker.attacks@[0].status_effect is None
                &&& b.projectile_attack.damage.expression@ == "1d2 * -1"@
                &&& b.projectile_attack.damage_type == StatType::Health
                &&& b.projectile_attack.cost.expression@ == "0"@
                &&& b.projectile_attack.cost_type == StatType::Health
                &&& b.projectile_attack.status_effect is None
                &&& b.projectile_cost.expression@ == "0"@
                &&& b.projectile_cost_type == StatType::Health
                &&& b.projectile_count == 3
            },
    {
        proof {
            lemma_game_dice_are_plain();
        }
        let stats = stats_from(
            vec![
                (StatType::Health, Stat::new(0, 7, StatVisibility::Public)),
                (StatType::Resistance, Stat::new(0, 7, StatVisibility::Public)),
                (StatType::Perception, Stat::new(0, 5, StatVisibility::Hidden)),
                (StatType::Dexterity, Stat::new(0, 5, StatVisibility::Hidden)),
            ],
        );
        assert(stats.view() =~= soldier_stats()) by {
            reveal_with_fuel(crate::stats::map_of_entries, 5);
        }
        let fatal = FatalStats(
            StatMap::from_entries(
                vec![(StatType::Health, (0i32, FatalEffect::Corpse)), (StatType::Resistance, (0i32, FatalEffect::Trance))],
            ),
        );
        assert(fatal.view() =~= map![
                    StatType::Health => (0i32, FatalEffect::Corpse),
                    StatType::Resistance => (0i32, FatalEffect::Trance),
                ]) by {
            reveal_with_fuel(crate::stats::map_of_entries, 3);
        }
        let mut melee = match Attack::default() {
            Some(a) => a,
            None => {
                return None;
            },
        };
        melee.interact_text = texts2(
            "{attacker} stabs {attacked} for {amount} damage!",
            "{attacker} slashes {attacked} for {amount} damage!",
        );
        melee.damage = match Dice::new("1d4 * -1") {
            Some(d) => d,
            None => {
                return None;
            },
        };
        melee.damage_type = StatType::Health;
        melee.cost = match Dice::new("0") {
            Some(d) => d,
            None => {
                return None;
            },
        };
        melee.cost_type = StatType::Health;
        melee.save_text = texts1("{attacked} maneuvers out of {attacker's} stab!");
        melee.save = 16;
        melee.save_type = StatType::Dexterity;
        let mut shot = match Attack::default() {
            Some(a) => a,
            None => {
                return None;
            },
        };
        shot.damage = match Dice::new("1d2 * -1") {
            Some(d) => d,
            None => {
                return None;
            },
        };
        let shot_cost = match Dice::new("0") {
            Some(d) => d,
            None => {
                return None;
            },
        };
        let mut attacks: Vec<Attack> = Vec::new();
        attacks.push(melee);
        let mut engages = Engages::default();
        engages.distance_sq = 12;
        let relations = Relations::new(vec![Alignment::AntiCock], vec![Alignment::AntiCock], vec![Alignment::Cock]);
        proof {
            assert(seq![Alignment::Cock].to_set() =~= set![Alignment::Cock]) by {
                assert(seq![Alignment::Cock][0] == Alignment::Cock);
            }
            assert(seq![Alignment::AntiCock].to_set() =~= set![Alignment::AntiCock]) by {
                assert(seq![Alignment::AntiCock][0] == Alignment::AntiCock);
            }
        }
        Some(
            SoldierBundle {
                position: Position(IVec2 { x: 0, y: 0 }),
                renderable: Renderable::new(
                    Tile { glyph: 'H', fg_color: Palette::Gray, bg_color: Palette::Transparent },
                    128,
                ),
                moves: Moves::default(),
                status_effects: StatusEffects::default(),
                stats,
                fatal_stats: fatal,
                relations,
                engages,
                melee_attacker: MeleeAttacker { attacks },
                projectile_attack: shot,
                projectile_cost: shot_cost,
                projectile_cost_type: StatType::Health,
                projectile_count: 3,
            },
        )
    }
}

/// Where the actors of a new game start: the player, named `Cass Cock`, at
/// the centre of the first room, and a soldier at the centre of each other room, named
/// `Soldier 0`, `Soldier 1`, and so on; the other rooms are taken with the
/// last room moved into the first one's place. Each soldier wanders between
/// all the rooms, and the game then moves on to finishing its setup.
pub struct ActorPlacements {
    pub player: IVec2,
    pub player_name: String,
    pub soldiers: Vec<(IVec2, String)>,
    pub wanderers: Vec<Wanderer>,
    pub next_state: GameState,
}

/// The other rooms, the last moved into the first one's place.
pub open spec fn other_rooms(rooms: Seq<Rectangle>) -> Seq<Rectangle> {
    rooms.update(0, rooms.last()).drop_last()
}

/// Places the actors of a new game in the rooms (see `ActorPlacements`);
/// every soldier also wanders between all the rooms.
pub fn setup_actors(rooms: &Vec<Rectangle>) -> (r: ActorPlacements)
    requires
        rooms@.len() > 0,
        crate::ai::centers_fit(rooms@),
    ensures
        r.player == rooms@[0].spec_center(),
        r.player_name@ == "Cass Cock"@,
        r.soldiers@.len() == rooms@.len() - 1,
        forall|i: int|
            0 <= i < r.soldiers@.len() ==> (#[trigger] r.soldiers@[i]).0 == other_rooms(rooms@)[i].spec_center()
                && r.soldiers@[i].1@ == "Soldier "@ + crate::text::decimal(i),
        r.wanderers@.len() == r.soldiers@.len(),
        forall|i: int|
            0 <= i < r.wanderers@.len() ==> (#[trigger] r.wanderers@[i]).locations@ == rooms@
                && r.wanderers@[i].target_index == 0 && r.wanderers@[i].path.positions@.len() == 0,
        r.next_state == GameState::FinishSetup,
{
    let mut others: Vec<Rectangle> = rooms.clone();
    let first = others.swap_remove(0);
    assert(others@ == other_rooms(rooms@));
    let player = first.center();
    let mut soldiers: Vec<(IVec2, String)> = Vec::new();
    let mut wanderers: Vec<Wanderer> = Vec::new();
    let mut i: usize = 0;
    while i < others.len()
        invariant
            i <= others@.len(),
            wanderers@.len() == i,
            forall|k: int|
                0 <= k < i ==> (#[trigger] wanderers@[k]).locations@ == rooms@ && wanderers@[k].target_index == 0
                    && wanderers@[k].path.positions@.len() == 0,
            others@ == other_rooms(rooms@),
            rooms@.len() > 0,
            crate::ai::centers_fit(rooms@),
            soldiers@.len() == i,
            forall|k: int|
                0 <= k < i ==> (#[trigger] soldiers@[k]).0 == others@[k].spec_center() && soldiers@[k].1@
                    == "Soldier "@ + crate::text::decimal(k),
        decreases others@.len() - i,
    {
        let room = others[i];
        assert(i + 1 < rooms@.len());
        assert(room == rooms@[if i == 0 { rooms@.len() - 1 } else { i as int }]);
        let mut name = String::from_str("Soldier ");
        let number = crate::text::unsigned_string(i as u64);
        name.append(number.as_str());
        let c = room.center();
        let ghost old_soldiers = soldiers@;
        soldiers.push((c, name));
        let ghost old_wanderers = wanderers@;
        wanderers.push(Wanderer::new(rooms.clone()));
        assert(forall|k: int| 0 <= k < i ==> wanderers@[k] == old_wanderers[k]);
        proof {
            assert(soldiers@[i as int].1@ == "Soldier "@ + crate::text::decimal(i as int));
            assert(soldiers@[i as int].0 == others@[i as int].spec_center());
            assert forall|k: int| 0 <= k < i implies soldiers@[k] == old_soldiers[k] by {}
        }
        i = i + 1;
    }
    let player_name = String::from_str("Cass Cock");
    proof {
        reveal_strlit("Cass Cock");
    }
    ActorPlacements { player, player_name, soldiers, wanderers, next_state: GameState::FinishSetup }
}

} // verus!
