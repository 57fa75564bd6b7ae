use vstd::prelude::*;

use crate::attack::{Attack, AttackEvent, AttackType, attack_valid, can_pay, spec_attack_valid, spec_can_pay};
use crate::dice::rolled_from;
use crate::movement::BumpEvent;
use crate::rng::random_in_range;
use crate::stats::{Stats, stats_of};

verus! {

/// An actor that attacks whatever it bumps into, with one of its attacks.
#[derive(Clone)]
pub struct MeleeAttacker {
    pub attacks: Vec<Attack>,
}

/// Whether the attack, with its dice rolled to `cost` and `damage`, can be
/// made: it would change the target's stat, and it costs nothing or the
/// attacker has stats and can pay.
pub open spec fn melee_usable(a: Attack, attacker_stats: Option<Stats>, attacked: Stats, cost: i32, damage: i32) -> bool {
    &&& spec_attack_valid(attacked, a.damage_type, damage as int)
    &&& (cost == 0 || (attacker_stats matches Some(s) && spec_can_pay(s, a.cost_type, cost as int)))
}

/// Whether the tries (attack index, rolled cost, rolled damage) are a search
/// through the attacks: each tries an attack not tried before, with its
/// dice rolled anew, and every try before the last could not be made.
pub open spec fn melee_tries_ok(
    attacks: Seq<Attack>,
    attacker_stats: Option<Stats>,
    attacked: Stats,
    tries: Seq<(usize, i32, i32)>,
) -> bool {
    &&& forall|j: int| 0 <= j < tries.len() ==> (#[trigger] tries[j]).0 < attacks.len()
    &&& forall|i: int, j: int| 0 <= i < j < tries.len() ==> (#[trigger] tries[i]).0 != (#[trigger] tries[j]).0
    &&& forall|j: int|
        0 <= j < tries.len() ==> rolled_from(attacks[(#[trigger] tries[j]).0 as int].cost, tries[j].1)
            && rolled_from(attacks[tries[j].0 as int].damage, tries[j].2)
    &&& forall|j: int|
        0 <= j < tries.len() - 1 ==> !melee_usable(
            attacks[(#[trigger] tries[j]).0 as int],
            attacker_stats,
            attacked,
            tries[j].1,
            tries[j].2,
        )
}

/// Whether `r` is what the search with these tries comes to: where the last
/// try can be made, that attack, as rolled, aimed from the bumping actor at
/// the bumped one; otherwise nothing, every attack having been tried.
pub open spec fn melee_outcome(
    attacks: Seq<Attack>,
    attacker_stats: Option<Stats>,
    attacked: Stats,
    tries: Seq<(usize, i32, i32)>,
    ev: BumpEvent,
    r: Option<AttackEvent>,
) -> bool {
    &&& melee_tries_ok(attacks, attacker_stats, attacked, tries)
    &&& if tries.len() > 0 && melee_usable(
        attacks[tries.last().0 as int],
        attacker_stats,
        attacked,
        tries.last().1,
        tries.last().2,
    ) {
        r matches Some(e) && e.attacking_entity == ev.bumping_entity && e.attacked_entity == ev.bumped_entity
            && e.attack_type == AttackType::Melee && e.attack.rolled_from(
            attacks[tries.last().0 as int],
            tries.last().1,
            tries.last().2,
        )
    } else {
        r is None && tries.len() == attacks.len()
    }
}

/// Bump attack: an actor with melee attacks that bumps into an actor with
/// stats tries its attacks in random order, each with its dice rolled anew,
/// and uses the first that would change the target's stat and that costs
/// nothing or that it can pay.
pub fn bump_melee_attack(
    ev: &BumpEvent,
    attacker: Option<&MeleeAttacker>,
    attacker_stats: Option<&Stats>,
    attacked_stats: Option<&Stats>,
) -> (r: Option<AttackEvent>)
    ensures
        attacker is None || attacked_stats is None ==> r is None,
        attacker is Some && attacked_stats is Some ==> exists|tries: Seq<(usize, i32, i32)>|
            #[trigger] melee_outcome(
                attacker->Some_0.attacks@,
                stats_of(attacker_stats),
                *attacked_stats->Some_0,
                tries,
                *ev,
                r,
            ),
{
    let m = match attacker {
        Some(m) => m,
        None => {
            return None;
        },
    };
    let t = match attacked_stats {
        Some(t) => t,
        None => {
            return None;
        },
    };
    let ghost a_stats = stats_of(attacker_stats);
    let n = m.attacks.len();
    let mut remaining: Vec<usize> = Vec::new();
    let mut i: usize = 0;
    while i < n
        invariant
            i <= n,
            n == m.attacks@.len(),
            remaining@ == Seq::new(i as nat, |j: int| j as usize),
        decreases n - i,
    {
        remaining.push(i);
        i = i + 1;
        assert(remaining@ =~= Seq::new(i as nat, |j: int| j as usize));
    }
    let ghost mut tries: Seq<(usize, i32, i32)> = Seq::empty();
    while remaining.len() != 0
        invariant
            attacker == Some(m),
            attacked_stats == Some(t),
            a_stats == stats_of(attacker_stats),
            n == m.attacks@.len(),
            tries.len() + remaining@.len() == n,
            forall|a: int| 0 <= a < remaining@.len() ==> (#[trigger] remaining@[a]) < n,
            forall|a: int, b: int| 0 <= a < b < remaining@.len() ==> (#[trigger] remaining@[a]) != (#[trigger] remaining@[b]),
            forall|j: int, a: int| 0 <= j < tries.len() && 0 <= a < remaining@.len() ==> (#[trigger] tries[j]).0 != (#[trigger] remaining@[a]),
            melee_tries_ok(m.attacks@, a_stats, *t, tries),
            tries.len() > 0 ==> !melee_usable(m.attacks@[tries.last().0 as int], a_stats, *t, tries.last().1, tries.last().2),
        decreases remaining@.len(),
    {
        let ghost rem0 = remaining@;
        let ghost tries0 = tries;
        let idx = random_in_range(0, remaining.len());
        let k = remaining.swap_remove(idx);
        let mut attack = m.attacks[k].duplicate();
        attack.damage.roll();
        attack.cost.roll();
        let cost_total = attack.cost.total;
        let damage_total = attack.damage.total;
        let has_cost = cost_total != 0;
        let payable = match attacker_stats {
            Some(s) => can_pay(s, attack.cost_type, cost_total),
            None => false,
        };
        let valid = attack_valid(t, attack.damage_type, damage_total);
        proof {
            tries = tries.push((k, cost_total, damage_total));
            assert(tries.drop_last() =~= tries0);
            assert(k == rem0[idx as int]);
            assert forall|a: int| 0 <= a < remaining@.len() implies (#[trigger] remaining@[a]) != k && remaining@[a] < n by {
                if a == idx {
                    assert(remaining@[a] == rem0[rem0.len() - 1]);
                } else {
                    assert(remaining@[a] == rem0[a]);
                }
            }
            assert forall|a: int, b: int| 0 <= a < b < remaining@.len() implies (#[trigger] remaining@[a]) != (#[trigger] remaining@[b]) by {
                if a == idx {
                    assert(remaining@[a] == rem0[rem0.len() - 1]);
                    assert(remaining@[b] == rem0[b]);
                } else if b == idx {
                    assert(remaining@[b] == rem0[rem0.len() - 1]);
                    assert(remaining@[a] == rem0[a]);
                } else {
                    assert(remaining@[a] == rem0[a]);
                    assert(remaining@[b] == rem0[b]);
                }
            }
            assert forall|j: int, a: int| 0 <= j < tries.len() && 0 <= a < remaining@.len() implies (#[trigger] tries[j]).0 != (#[trigger] remaining@[a]) by {
                if j < tries0.len() {
                    assert(tries[j] == tries0[j]);
                    if a == idx {
                        assert(remaining@[a] == rem0[rem0.len() - 1]);
                        assert(tries0[j].0 != rem0[rem0.len() - 1]);
                    } else {
                        assert(remaining@[a] == rem0[a]);
                        assert(tries0[j].0 != rem0[a]);
                    }
                }
            }
            assert forall|a: int, b: int| 0 <= a < b < tries.len() implies (#[trigger] tries[a]).0 != (#[trigger] tries[b]).0 by {
                if b == tries0.len() {
                    assert(tries[a] == tries0[a]);
                    assert(tries0[a].0 != rem0[idx as int]);
                } else {
                    assert(tries[a] == tries0[a] && tries[b] == tries0[b]);
                }
            }
            assert forall|j: int| 0 <= j < tries.len() implies rolled_from(m.attacks@[(#[trigger] tries[j]).0 as int].cost, tries[j].1)
                && rolled_from(m.attacks@[tries[j].0 as int].damage, tries[j].2) && tries[j].0 < n by {
                if j < tries0.len() {
                    assert(tries[j] == tries0[j]);
                }
            }
            assert forall|j: int| 0 <= j < tries.len() - 1 implies !melee_usable(
                m.attacks@[(#[trigger] tries[j]).0 as int],
                a_stats,
                *t,
                tries[j].1,
                tries[j].2,
            ) by {
                assert(tries[j] == tries0[j]);
            }
        }
        if valid && (!has_cost || payable) {
            let r = Some(
                AttackEvent {
                    attacking_entity: ev.bumping_entity,
                    attacked_entity: ev.bumped_entity,
                    attack,
                    attack_type: AttackType::Melee,
                },
            );
            assert(melee_usable(m.attacks@[k as int], a_stats, *t, cost_total, damage_total));
            assert(melee_outcome(m.attacks@, stats_of(attacker_stats), *t, tries, *ev, r));
            assert(melee_outcome(attacker->Some_0.attacks@, stats_of(attacker_stats), *attacked_stats->Some_0, tries, *ev, r));
            return r;
        }
    }
    assert(melee_outcome(m.attacks@, stats_of(attacker_stats), *t, tries, *ev, None));
    None
}

} // verus!
