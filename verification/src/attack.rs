use vstd::prelude::*;

use std::collections::HashMap;

use crate::color::Palette;
use crate::dice::{Dice, lemma_game_dice_are_plain, rolled_from, rolls_within_i32};
use crate::entity::EntityId;
use crate::log::Log;
use crate::rng::random_in_range;
use crate::stats::{StatChangeEvent, StatType, Stats, stats_of};
use crate::text::{decimal, decimal_string};
use crate::vore::logged;
use crate::log::{all_colored, line_texts, split_inclusive};
use crate::status_effects::{StatusEffectApplication, StatusEffectEvent};

verus! {

/// How an attack is delivered.
#[derive(Clone, Copy, PartialEq, Eq, Structural, Debug)]
pub enum AttackType {
    Ranged,
    Melee,
    Digestion,
}

/// An attack: the texts it is told with (`{attacker}`, `{attacked}` and
/// `{amount}` are filled in), the dice of its effect on a stat of the target
/// and of its cost to a stat of the attacker, a save the target may roll,
/// and a status it may inflict.
#[derive(Clone)]
pub struct Attack {
    pub interact_text: Vec<String>,
    pub damage: Dice,
    pub damage_type: StatType,
    pub cost: Dice,
    pub cost_type: StatType,
    pub save_text: Vec<String>,
    pub save: i32,
    pub save_type: StatType,
    pub status_effect: Option<StatusEffectApplication>,
}

/// Sent when one actor attacks another.
pub struct AttackEvent {
    pub attacking_entity: EntityId,
    pub attacked_entity: EntityId,
    pub attack: Attack,
    pub attack_type: AttackType,
}

/// Whether two lists of texts read the same.
pub open spec fn same_texts(a: Seq<String>, b: Seq<String>) -> bool {
    &&& a.len() == b.len()
    &&& forall|i: int| 0 <= i < a.len() ==> (#[trigger] a[i])@ == b[i]@
}

impl Dice {
    /// Whether the two dice read the same and show the same outcome.
    pub open spec fn same_as(self, other: Dice) -> bool {
        &&& self.expression@ == other.expression@
        &&& self.reason@ == other.reason@
        &&& self.total == other.total
    }

    /// A copy of the dice.
    pub fn duplicate(&self) -> (r: Dice)
        ensures
            r.same_as(*self),
    {
        Dice { expression: self.expression.clone(), reason: self.reason.clone(), total: self.total }
    }
}

fn duplicate_texts(v: &Vec<String>) -> (r: Vec<String>)
    ensures
        same_texts(r@, v@),
{
    let mut r: Vec<String> = Vec::new();
    let mut i: usize = 0;
    while i < v.len()
        invariant
            i <= v@.len(),
            r@.len() == i,
            forall|j: int| 0 <= j < i ==> (#[trigger] r@[j])@ == v@[j]@,
        decreases v@.len() - i,
    {
        r.push(v[i].clone());
        i = i + 1;
    }
    r
}

impl Attack {
    /// Whether the two attacks read the same (texts and dice by what they
    /// say).
    pub open spec fn same_as(self, other: Attack) -> bool {
        &&& same_texts(self.interact_text@, other.interact_text@)
        &&& self.damage.same_as(other.damage)
        &&& self.damage_type == other.damage_type
        &&& self.cost.same_as(other.cost)
        &&& self.cost_type == other.cost_type
        &&& same_texts(self.save_text@, other.save_text@)
        &&& self.save == other.save
        &&& self.save_type == other.save_type
        &&& self.status_effect == other.status_effect
    }

    /// Whether `self` is `other` with its dice rolled anew to the given
    /// totals.
    pub open spec fn rolled_from(self, other: Attack, cost_total: i32, damage_total: i32) -> bool {
        &&& same_texts(self.interact_text@, other.interact_text@)
        &&& self.damage.expression@ == other.damage.expression@
        &&& self.damage.total == damage_total
        &&& self.damage_type == other.damage_type
        &&& self.cost.expression@ == other.cost.expression@
        &&& self.cost.total == cost_total
        &&& self.cost_type == other.cost_type
        &&& same_texts(self.save_text@, other.save_text@)
        &&& self.save == other.save
        &&& self.save_type == other.save_type
        &&& self.status_effect == other.status_effect
    }

    /// A copy of the attack.
    pub fn duplicate(&self) -> (r: Attack)
        ensures
            r.same_as(*self),
    {
        Attack {
            interact_text: duplicate_texts(&self.interact_text),
            damage: self.damage.duplicate(),
            damage_type: self.damage_type,
            cost: self.cost.duplicate(),
            cost_type: self.cost_type,
            save_text: duplicate_texts(&self.save_text),
            save: self.save,
            save_type: self.save_type,
            status_effect: self.status_effect,
        }
    }

    /// A plain hit of one to four points of health, at no cost, that can be
    /// dodged with a dexterity save of 16; `None` where rolling its dice
    /// fails, which cannot happen where both expressions roll within an
    /// `i32`.
    pub fn default() -> (r: Option<Attack>)
        ensures
            rolls_within_i32("1d4 * -1"@) && rolls_within_i32("0"@) ==> r is Some,
            r matches Some(a) ==> {
                &&& a.interact_text@.len() == 1
                &&& a.interact_text@[0]@ == "{attacker} hits {attacked} for {amount} damage!"@
                &&& a.damage.expression@ == "1d4 * -1"@
                &&& a.damage_type == StatType::Health
                &&& a.cost.expression@ == "0"@
                &&& a.cost_type == StatType::Health
                &&& a.save_text@.len() == 1
                &&& a.save_text@[0]@ == "{attacked} dodges {attacker}'s attack!"@
                &&& a.save == 16
                &&& a.save_type == StatType::Dexterity
                &&& a.status_effect is None
            },
    {
        proof {
            lemma_game_dice_are_plain();
        }
        let damage = match Dice::new("1d4 * -1") {
            Some(d) => d,
            None => {
                return None;
            },
        };
        let cost = match Dice::new("0") {
            Some(d) => d,
            None => {
                return None;
            },
        };
        let mut interact_text: Vec<String> = Vec::new();
        interact_text.push(String::from_str("{attacker} hits {attacked} for {amount} damage!"));
        let mut save_text: Vec<String> = Vec::new();
        save_text.push(String::from_str("{attacked} dodges {attacker}'s attack!"));
        Some(
            Attack {
                interact_text,
                damage,
                damage_type: StatType::Health,
                cost,
                cost_type: StatType::Health,
                save_text,
                save: 16,
                save_type: StatType::Dexterity,
                status_effect: None,
            },
        )
    }
}

/// Whether an actor with these stats can pay a cost of `total` (a negative
/// number) in the stat: it has the stat and its effective value stays above
/// zero after paying.
pub open spec fn spec_can_pay(stats: Stats, cost_type: StatType, total: int) -> bool {
    stats.view().contains_key(cost_type) && stats.view()[cost_type].effective + total > 0
}

/// Whether the actor can pay a cost of `total` in the stat.
pub fn can_pay(stats: &Stats, cost_type: StatType, total: i32) -> (r: bool)
    ensures
        r == spec_can_pay(*stats, cost_type, total as int),
{
    stats.contains_key(&cost_type) && stats.get_effective(&cost_type) as i64 + total as i64 > 0
}

/// Whether an attack of `total` on the stat would change anything: the
/// target has the stat, and a lowering attack finds it above its minimum or a
/// raising one below its maximum.
pub open spec fn spec_attack_valid(stats: Stats, damage_type: StatType, total: int) -> bool {
    &&& stats.view().contains_key(damage_type)
    &&& ((total < 0 && stats.view()[damage_type].effective > stats.view()[damage_type].min) || (total > 0
        && stats.view()[damage_type].effective < stats.view()[damage_type].max))
}

/// Whether an attack of `total` on the stat would change anything.
pub fn attack_valid(stats: &Stats, damage_type: StatType, total: i32) -> (r: bool)
    ensures
        r == spec_attack_valid(*stats, damage_type, total as int),
{
    if !stats.contains_key(&damage_type) {
        return false;
    }
    let effective = stats.get_effective(&damage_type);
    (total < 0 && effective > stats.get_min(&damage_type)) || (total > 0 && effective < stats.get_max(
        &damage_type,
    ))
}

/// What an attack comes to.
#[derive(Clone, Copy, PartialEq, Eq, Structural, Debug)]
pub enum AttackOutcome {
    /// The attacker cannot pay the attack's cost; no further attack is
    /// resolved this frame.
    CannotPay,
    /// The attack would change nothing.
    NoEffect,
    /// The attack lands: the target's stat changes, and it may gain a status
    /// that comes from the attacker.
    Hit { change: StatChangeEvent, status: Option<StatusEffectEvent> },
}

/// The outcome of an attack whose dice rolled `cost_total` and
/// `damage_total`, given the stats of the attacker and of the target (where
/// they have any).
pub open spec fn spec_resolve(
    attacker: EntityId,
    attacked: EntityId,
    attack: Attack,
    cost_total: i32,
    damage_total: i32,
    attacker_stats: Option<Stats>,
    attacked_stats: Option<Stats>,
) -> AttackOutcome {
    if cost_total != 0 && (attacker_stats matches Some(s) && !spec_can_pay(s, attack.cost_type, cost_total as int)) {
        AttackOutcome::CannotPay
    } else if attacked_stats matches Some(t) && spec_attack_valid(t, attack.damage_type, damage_total as int) {
        AttackOutcome::Hit {
            change: StatChangeEvent { stat: attack.damage_type, amount: damage_total, entity: attacked },
            status: match attack.status_effect {
                Some(a) => Some(
                    StatusEffectEvent {
                        application: StatusEffectApplication {
                            effect: crate::status_effects::StatusEffect {
                                from: Some(attacker),
                                ..a.effect
                            },
                            stacking: a.stacking,
                        },
                        entity: attacked,
                    },
                ),
                None => None,
            },
        }
    } else {
        AttackOutcome::NoEffect
    }
}

/// Resolves an attack whose dice rolled the given totals: an attacker with
/// stats that cannot pay a nonzero cost calls it off; otherwise it hits
/// where it would change the target's stat, inflicting its status (as coming
/// from the attacker) if it has one.
pub fn resolve_attack(
    ev: &AttackEvent,
    cost_total: i32,
    damage_total: i32,
    attacker_stats: Option<&Stats>,
    attacked_stats: Option<&Stats>,
) -> (r: AttackOutcome)
    ensures
        r == spec_resolve(
            ev.attacking_entity,
            ev.attacked_entity,
            ev.attack,
            cost_total,
            damage_total,
            stats_of(attacker_stats),
            stats_of(attacked_stats),
        ),
{
    if cost_total != 0 {
        match attacker_stats {
            Some(s) => {
                if !can_pay(s, ev.attack.cost_type, cost_total) {
                    return AttackOutcome::CannotPay;
                }
            },
            None => {},
        }
    }
    let valid = match attacked_stats {
        Some(t) => attack_valid(t, ev.attack.damage_type, damage_total),
        None => false,
    };
    if !valid {
        return AttackOutcome::NoEffect;
    }
    let status = match ev.attack.status_effect {
        Some(a) => {
            let mut effect = a.effect;
            effect.from = Some(ev.attacking_entity);
            Some(
                StatusEffectEvent {
                    application: StatusEffectApplication { effect, stacking: a.stacking },
                    entity: ev.attacked_entity,
                },
            )
        },
        None => None,
    };
    AttackOutcome::Hit {
        change: StatChangeEvent { stat: ev.attack.damage_type, amount: damage_total, entity: ev.attacked_entity },
        status,
    }
}

/// What `strfmt::strfmt` makes of the template with the three names standing
/// for the given texts: the filled-in text, or `None` where the template
/// does not format.
pub uninterp spec fn formatted_with(
    template: Seq<char>,
    name1: Seq<char>,
    text1: Seq<char>,
    name2: Seq<char>,
    text2: Seq<char>,
    name3: Seq<char>,
    text3: Seq<char>,
) -> Option<Seq<char>>;

/// An attack text filled in: `{attacker}`, `{attacked}` and `{amount}` stand
/// for the given texts.
pub open spec fn filled_attack_text(
    template: Seq<char>,
    attacker: Seq<char>,
    attacked: Seq<char>,
    amount: Seq<char>,
) -> Option<Seq<char>> {
    formatted_with(template, "attacker"@, attacker, "attacked"@, attacked, "amount"@, amount)
}

/// Fills in a template with `strfmt::strfmt`, each of the three names mapped
/// to its text. The result is taken to depend on the seven texts alone (it
/// is `formatted_with` of them); what the formatting does is not stated
/// beyond that.
#[verifier::external_body]
fn format_with(
    template: &str,
    name1: &str,
    text1: &str,
    name2: &str,
    text2: &str,
    name3: &str,
    text3: &str,
) -> (r: Option<String>)
    ensures
        match r {
            Some(s) => formatted_with(template@, name1@, text1@, name2@, text2@, name3@, text3@) == Some(s@),
            None => formatted_with(template@, name1@, text1@, name2@, text2@, name3@, text3@) is None,
        },
{
    let vars: HashMap<String, String> = HashMap::from([
        (name1.to_string(), text1.to_string()),
        (name2.to_string(), text2.to_string()),
        (name3.to_string(), text3.to_string()),
    ]);
    strfmt::strfmt(template, &vars).ok()
}

/// Whether `m` tells the attack with one of its texts: a space followed by
/// that text filled in with the names and the amount.
pub open spec fn tells_attack(m: Seq<char>, texts: Seq<String>, attacker: Seq<char>, attacked: Seq<char>, amount: int) -> bool {
    exists|k: int|
        0 <= k < texts.len() && #[trigger] filled_attack_text(texts[k]@, attacker, attacked, decimal(amount))
            == Some(m.drop_first()) && m.len() > 0 && m[0] == ' '
}

/// The log message of a hit: one of the attack's texts, picked at random,
/// filled in; `None` where that text does not format, so that a message is
/// always given when every text formats.
pub fn attack_message(attack: &Attack, attacker_name: &String, attacked_name: &String, amount: i32) -> (r: Option<String>)
    requires
        attack.interact_text@.len() > 0,
    ensures
        r matches Some(m) ==> tells_attack(m@, attack.interact_text@, attacker_name@, attacked_name@, amount as int),
        r is None ==> exists|k: int|
            0 <= k < attack.interact_text@.len() && #[trigger] filled_attack_text(
                attack.interact_text@[k]@,
                attacker_name@,
                attacked_name@,
                decimal(amount as int),
            ) is None,
{
    let k = random_in_range(0, attack.interact_text.len());
    let amount_text = decimal_string(amount as i64);
    match format_with(
        attack.interact_text[k].as_str(),
        "attacker",
        attacker_name.as_str(),
        "attacked",
        attacked_name.as_str(),
        "amount",
        amount_text.as_str(),
    ) {
        Some(t) => {
            let m = String::from_str(" ").concat(t.as_str());
            proof {
                reveal_strlit(" ");
                assert(m@.drop_first() =~= t@);
                assert(filled_attack_text(attack.interact_text@[k as int]@, attacker_name@, attacked_name@, decimal(amount as int)) == Some(m@.drop_first()));
            }
            Some(m)
        },
        None => {
            assert(filled_attack_text(
                attack.interact_text@[k as int]@,
                attacker_name@,
                attacked_name@,
                decimal(amount as int),
            ) is None);
            None
        },
    }
}

/// The names and stats (where they have any) of the two actors of an attack.
pub struct AttackParties {
    pub attacker_name: String,
    pub attacked_name: String,
    pub attacker_stats: Option<Stats>,
    pub attacked_stats: Option<Stats>,
}

/// The events that landed attacks send.
pub struct AttackEffects {
    pub stat_changes: Vec<StatChangeEvent>,
    pub status_effects: Vec<StatusEffectEvent>,
    /// For each attack, whether it landed.
    pub landed: Vec<bool>,
}

/// The stat changes and statuses sent by the first `n` attacks, whose dice
/// rolled `costs` and `damages`, and whether an attacker that could not pay
/// has called off the rest.
pub open spec fn attack_batch(
    events: Seq<AttackEvent>,
    parties: Seq<AttackParties>,
    costs: Seq<i32>,
    damages: Seq<i32>,
    n: nat,
) -> (Seq<StatChangeEvent>, Seq<StatusEffectEvent>, bool)
    decreases n,
{
    if n == 0 {
        (Seq::empty(), Seq::empty(), false)
    } else {
        let prev = attack_batch(events, parties, costs, damages, (n - 1) as nat);
        let i = n - 1;
        if prev.2 {
            prev
        } else {
            match spec_resolve(
                events[i].attacking_entity,
                events[i].attacked_entity,
                events[i].attack,
                costs[i],
                damages[i],
                parties[i].attacker_stats,
                parties[i].attacked_stats,
            ) {
                AttackOutcome::CannotPay => (prev.0, prev.1, true),
                AttackOutcome::NoEffect => prev,
                AttackOutcome::Hit { change, status } => (
                    prev.0.push(change),
                    match status {
                        Some(e) => prev.1.push(e),
                        None => prev.1,
                    },
                    false,
                ),
            }
        }
    }
}

/// Whether attack `j` lands: no attack before it was called off, and it
/// changes the target's stat.
pub open spec fn landed(
    events: Seq<AttackEvent>,
    parties: Seq<AttackParties>,
    costs: Seq<i32>,
    damages: Seq<i32>,
    j: int,
) -> bool {
    &&& !attack_batch(events, parties, costs, damages, j as nat).2
    &&& spec_resolve(
        events[j].attacking_entity,
        events[j].attacked_entity,
        events[j].attack,
        costs[j],
        damages[j],
        parties[j].attacker_stats,
        parties[j].attacked_stats,
    ) is Hit
}

/// Whether every text of the attack formats with the names and the amount.
pub open spec fn texts_format(texts: Seq<String>, attacker: Seq<char>, attacked: Seq<char>, amount: int) -> bool {
    forall|k: int| 0 <= k < texts.len() ==> #[trigger] filled_attack_text(texts[k]@, attacker, attacked, decimal(amount)) is Some
}

/// Whether `m` is what the log is told of an attack: nothing where it did
/// not land; where it landed, one of its texts filled in, which is always
/// told where it has texts and every one formats.
pub open spec fn told_right(ev: AttackEvent, p: AttackParties, damage: i32, lands: bool, m: Option<Seq<char>>) -> bool {
    &&& !lands ==> m is None
    &&& m matches Some(t) ==> tells_attack(t, ev.attack.interact_text@, p.attacker_name@, p.attacked_name@, damage as int)
    &&& lands && ev.attack.interact_text@.len() > 0 && texts_format(
        ev.attack.interact_text@,
        p.attacker_name@,
        p.attacked_name@,
        damage as int,
    ) ==> m is Some
}

/// The red log lines of the messages told, in order.
pub open spec fn told_lines(told: Seq<Option<Seq<char>>>) -> Seq<(Seq<char>, Palette)>
    decreases told.len(),
{
    if told.len() == 0 {
        Seq::empty()
    } else {
        let rest = told_lines(told.drop_last());
        match told.last() {
            Some(m) => rest.push((m, Palette::Red)),
            None => rest,
        }
    }
}

/// Messages left untold add no lines.
proof fn lemma_told_lines_untold(told: Seq<Option<Seq<char>>>, n: nat)
    ensures
        told_lines(told + Seq::new(n, |j: int| None::<Seq<char>>)) == told_lines(told),
    decreases n,
{
    let more = told + Seq::new(n, |j: int| None::<Seq<char>>);
    if n == 0 {
        assert(more =~= told);
    } else {
        assert(more.drop_last() =~= told + Seq::new((n - 1) as nat, |j: int| None::<Seq<char>>));
        lemma_told_lines_untold(told, (n - 1) as nat);
    }
}

/// Resolves the attacks of a frame in order, each with its dice rolled anew:
/// a landed attack sends its stat change (and status), and is told in the
/// log in one red line with one of its texts, picked at random and filled
/// in; an attacker with stats that cannot pay a nonzero cost calls off the
/// rest of the frame's attacks. A landed attack without texts is told by no
/// line; which attacks landed is returned.
pub fn attack_hit(events: &Vec<AttackEvent>, parties: &Vec<AttackParties>, log: &mut Log) -> (r: AttackEffects)
    requires
        parties@.len() == events@.len(),
    ensures
        exists|costs: Seq<i32>, damages: Seq<i32>, told: Seq<Option<Seq<char>>>|
            costs.len() == events@.len() && damages.len() == events@.len() && told.len() == events@.len() && {
                let b = #[trigger] attack_batch(events@, parties@, costs, damages, events@.len() as nat);
                &&& r.stat_changes@ == b.0
                &&& r.status_effects@ == b.1
                &&& forall|j: int|
                    0 <= j < events@.len() && !(#[trigger] attack_batch(events@, parties@, costs, damages, j as nat)).2
                        ==> rolled_from(events@[j].attack.cost, costs[j]) && rolled_from(events@[j].attack.damage, damages[j])
                &&& forall|j: int|
                    0 <= j < events@.len() ==> told_right(
                        events@[j],
                        parties@[j],
                        damages[j],
                        landed(events@, parties@, costs, damages, j),
                        #[trigger] told[j],
                    )
                &&& logged(old(log).lines@, final(log).lines@, #[trigger] told_lines(told))
                &&& r.landed@.len() == events@.len()
                &&& forall|j: int| 0 <= j < events@.len() ==> #[trigger] r.landed@[j] == landed(events@, parties@, costs, damages, j)
            },
{
    let mut changes: Vec<StatChangeEvent> = Vec::new();
    let mut statuses: Vec<StatusEffectEvent> = Vec::new();
    let ghost mut costs: Seq<i32> = Seq::empty();
    let ghost mut damages: Seq<i32> = Seq::empty();
    let ghost mut told: Seq<Option<Seq<char>>> = Seq::empty();
    let mut lands: Vec<bool> = Vec::new();
    let mut stopped = false;
    let mut i: usize = 0;
    while i < events.len() && !stopped
        invariant
            i <= events@.len(),
            parties@.len() == events@.len(),
            costs.len() == i,
            lands@.len() == i,
            forall|j: int| 0 <= j < i ==> #[trigger] lands@[j] == landed(events@, parties@, costs, damages, j),
            damages.len() == i,
            ({
                let b = attack_batch(events@, parties@, costs, damages, i as nat);
                &&& changes@ == b.0
                &&& statuses@ == b.1
                &&& stopped == b.2
            }),
            forall|j: int| 0 <= j < i ==> rolled_from(events@[j].attack.cost, #[trigger] costs[j])
                && rolled_from(events@[j].attack.damage, damages[j]),
            told.len() == i,
            forall|j: int|
                0 <= j < i ==> told_right(
                    events@[j],
                    parties@[j],
                    damages[j],
                    landed(events@, parties@, costs, damages, j),
                    #[trigger] told[j],
                ),
            logged(old(log).lines@, log.lines@, told_lines(told)),
        decreases events@.len() - i,
    {
        let ev = &events[i];
        let p = &parties[i];
        let cost_total = ev.attack.cost.rolled_total();
        let damage_total = ev.attack.damage.rolled_total();
        let ghost old_lines = log.lines@;
        let outcome = resolve_attack(ev, cost_total, damage_total, p.attacker_stats.as_ref(), p.attacked_stats.as_ref());
        assert(outcome == spec_resolve(
            events@[i as int].attacking_entity,
            events@[i as int].attacked_entity,
            events@[i as int].attack,
            cost_total,
            damage_total,
            parties@[i as int].attacker_stats,
            parties@[i as int].attacked_stats,
        ));
        let ghost costs0 = costs;
        let ghost damages0 = damages;
        proof {
            costs = costs.push(cost_total);
            damages = damages.push(damage_total);
            assert(costs.drop_last() =~= costs0);
            assert(damages.drop_last() =~= damages0);
            assert(attack_batch(events@, parties@, costs, damages, i as nat) == attack_batch(
                events@,
                parties@,
                costs.drop_last(),
                damages.drop_last(),
                i as nat,
            )) by {
                lemma_attack_batch_prefix(events@, parties@, costs.drop_last(), damages.drop_last(), costs, damages, i as nat);
            }
            assert forall|j: int| 0 <= j < i implies told_right(
                events@[j],
                parties@[j],
                damages[j],
                landed(events@, parties@, costs, damages, j),
                #[trigger] told[j],
            ) by {
                lemma_attack_batch_prefix(events@, parties@, costs0, damages0, costs, damages, j as nat);
                assert(costs[j] == costs0[j] && damages[j] == damages0[j]);
                assert(landed(events@, parties@, costs, damages, j) == landed(events@, parties@, costs0, damages0, j));
            }
            assert forall|j: int| 0 <= j < i implies #[trigger] lands@[j] == landed(events@, parties@, costs, damages, j) by {
                lemma_attack_batch_prefix(events@, parties@, costs0, damages0, costs, damages, j as nat);
                assert(costs[j] == costs0[j] && damages[j] == damages0[j]);
                assert(landed(events@, parties@, costs, damages, j) == landed(events@, parties@, costs0, damages0, j));
            }
        }
        let ghost told0 = told;
        let ghost lands0 = lands@;
        let ghost lines0 = log.lines@;
        match outcome {
            AttackOutcome::CannotPay => {
                stopped = true;
                lands.push(false);
                proof {
                    told = told.push(None);
                }
            },
            AttackOutcome::NoEffect => {
                lands.push(false);
                proof {
                    told = told.push(None);
                }
            },
            AttackOutcome::Hit { change, status } => {
                changes.push(change);
                lands.push(true);
                match status {
                    Some(e) => statuses.push(e),
                    None => {},
                }
                if ev.attack.interact_text.len() > 0 {
                    match attack_message(&ev.attack, &p.attacker_name, &p.attacked_name, damage_total) {
                        Some(m) => {
                            proof {
                                told = told.push(Some(m@));
                            }
                            log.log_string_formatted(m, Palette::Red);
                        },
                        None => {
                            proof {
                                told = told.push(None);
                            }
                        },
                    }
                } else {
                    proof {
                        told = told.push(None);
                    }
                }
            },
        }
        proof {
            assert(told.drop_last() =~= told0);
            assert forall|j: int| 0 <= j < i implies lands@[j] == lands0[j] by {}
            assert(told[i as int] == told.last());
            assert forall|j: int| 0 <= j < i implies told[j] == told0[j] by {}
            let lines = told_lines(told);
            assert forall|j: int| 0 <= j < lines.len() implies line_texts(
                (#[trigger] log.lines@[old(log).lines@.len() + j])@,
            ) == split_inclusive(lines[j].0, false) && all_colored(log.lines@[old(log).lines@.len() + j]@, lines[j].1) by {
                if j < told_lines(told0).len() {
                    assert(log.lines@[old(log).lines@.len() + j] == lines0[old(log).lines@.len() + j]);
                } else {
                    assert(log.lines@[old(log).lines@.len() + j] == log.lines@.last());
                }
            }
        }
        assert(costs[i as int] == cost_total && damages[i as int] == damage_total);
        i = i + 1;
    }
    proof {
        if i < events@.len() {
            lemma_attack_batch_stopped(events@, parties@, costs, damages, i as nat);
        }
    }
    let ghost lands_rolled = lands@;
    assert(forall|j: int| 0 <= j < i ==> lands_rolled[j] == landed(events@, parties@, costs, damages, j));
    let mut k: usize = i;
    while k < events.len()
        invariant
            i <= k <= events@.len(),
            lands_rolled.len() == i,
            lands@.len() == k,
            forall|j: int| 0 <= j < i ==> lands@[j] == lands_rolled[j],
            forall|j: int| i <= j < k ==> !lands@[j],
        decreases events@.len() - k,
    {
        lands.push(false);
        k = k + 1;
    }
    // The rolls of the attacks after a call-off are never made; any will do.
    let ghost all_costs = costs + Seq::new((events@.len() - i) as nat, |j: int| 0i32);
    let ghost all_damages = damages + Seq::new((events@.len() - i) as nat, |j: int| 0i32);
    let ghost all_told = told + Seq::new((events@.len() - i) as nat, |j: int| None::<Seq<char>>);
    proof {
        lemma_attack_batch_prefix(events@, parties@, costs, damages, all_costs, all_damages, i as nat);
        if i < events@.len() {
            lemma_attack_batch_stopped(events@, parties@, all_costs, all_damages, i as nat);
        }
        assert(all_costs.len() == events@.len());
        assert forall|j: int|
            0 <= j < events@.len() && !(#[trigger] attack_batch(events@, parties@, all_costs, all_damages, j as nat)).2
            implies rolled_from(events@[j].attack.cost, all_costs[j]) && rolled_from(events@[j].attack.damage, all_damages[j]) by {
            if j >= i {
                lemma_attack_batch_prefix(events@, parties@, costs, damages, all_costs, all_damages, i as nat);
                lemma_attack_batch_stays_stopped(events@, parties@, all_costs, all_damages, i as nat, j as nat);
            } else {
                assert(all_costs[j] == costs[j] && all_damages[j] == damages[j]);
            }
        }
        lemma_told_lines_untold(told, (events@.len() - i) as nat);
        assert forall|j: int| 0 <= j < events@.len() implies told_right(
            events@[j],
            parties@[j],
            all_damages[j],
            landed(events@, parties@, all_costs, all_damages, j),
            #[trigger] all_told[j],
        ) by {
            if j >= i {
                lemma_attack_batch_prefix(events@, parties@, costs, damages, all_costs, all_damages, i as nat);
                lemma_attack_batch_stays_stopped(events@, parties@, all_costs, all_damages, i as nat, j as nat);
            } else {
                assert(all_costs[j] == costs[j] && all_damages[j] == damages[j] && all_told[j] == told[j]);
                lemma_attack_batch_prefix(events@, parties@, costs, damages, all_costs, all_damages, j as nat);
                assert(landed(events@, parties@, costs, damages, j) == landed(events@, parties@, all_costs, all_damages, j));
            }
        }
        assert(all_told.len() == events@.len());
        assert forall|j: int| 0 <= j < events@.len() implies #[trigger] lands@[j] == landed(
            events@,
            parties@,
            all_costs,
            all_damages,
            j,
        ) by {
            if j >= i {
                lemma_attack_batch_prefix(events@, parties@, costs, damages, all_costs, all_damages, i as nat);
                lemma_attack_batch_stays_stopped(events@, parties@, all_costs, all_damages, i as nat, j as nat);
            } else {
                assert(all_costs[j] == costs[j] && all_damages[j] == damages[j]);
                lemma_attack_batch_prefix(events@, parties@, costs, damages, all_costs, all_damages, j as nat);
                assert(landed(events@, parties@, costs, damages, j) == landed(events@, parties@, all_costs, all_damages, j));
                assert(lands@[j] == lands_rolled[j]);
            }
        }
    }
    AttackEffects { stat_changes: changes, status_effects: statuses, landed: lands }
}

/// The first `n` attacks depend only on the first `n` rolls.
proof fn lemma_attack_batch_prefix(
    events: Seq<AttackEvent>,
    parties: Seq<AttackParties>,
    costs: Seq<i32>,
    damages: Seq<i32>,
    costs2: Seq<i32>,
    damages2: Seq<i32>,
    n: nat,
)
    requires
        n <= costs.len(),
        n <= damages.len(),
        n <= costs2.len(),
        n <= damages2.len(),
        forall|j: int| 0 <= j < n ==> costs[j] == costs2[j] && damages[j] == damages2[j],
    ensures
        attack_batch(events, parties, costs, damages, n) == attack_batch(events, parties, costs2, damages2, n),
    decreases n,
{
    if n > 0 {
        lemma_attack_batch_prefix(events, parties, costs, damages, costs2, damages2, (n - 1) as nat);
    }
}

/// Once an attack has been called off, the later ones stay called off.
proof fn lemma_attack_batch_stays_stopped(
    events: Seq<AttackEvent>,
    parties: Seq<AttackParties>,
    costs: Seq<i32>,
    damages: Seq<i32>,
    n: nat,
    m: nat,
)
    requires
        attack_batch(events, parties, costs, damages, n).2,
        n <= m,
    ensures
        attack_batch(events, parties, costs, damages, m).2,
    decreases m - n,
{
    if n < m {
        lemma_attack_batch_stays_stopped(events, parties, costs, damages, n, (m - 1) as nat);
    }
}

/// Once an attack has been called off, the later attacks change nothing.
proof fn lemma_attack_batch_stopped(
    events: Seq<AttackEvent>,
    parties: Seq<AttackParties>,
    costs: Seq<i32>,
    damages: Seq<i32>,
    n: nat,
)
    requires
        attack_batch(events, parties, costs, damages, n).2,
        n <= events.len(),
    ensures
        attack_batch(events, parties, costs, damages, events.len() as nat) == attack_batch(
            events,
            parties,
            costs,
            damages,
            n,
        ),
    decreases events.len() - n,
{
    if n < events.len() {
        lemma_attack_batch_stopped(events, parties, costs, damages, n + 1);
    }
}

} // verus!
