use vstd::prelude::*;

use crate::color::Palette;
use crate::entity::EntityId;
use crate::log::{Log, LogFragment, all_colored, line_texts, split_inclusive};
use crate::movement::BumpEvent;
use crate::stats::{Stat, StatType, Stats};
use crate::text::{decimal, decimal_string};
use crate::turn::{ActorRemovedEvent, Turns};

verus! {

/// Marks an actor that can devour tranced actors it bumps into.
#[derive(Clone, Copy, PartialEq, Eq, Structural, Debug)]
pub struct DoesVore;

/// Marks a devoured actor, with the turns left until it is digested.
#[derive(Clone, Copy, PartialEq, Eq, Structural, Debug)]
pub struct Digesting {
    pub turns_to_digest: u8,
}

/// Vore attack: a devouring actor that bumps into a tranced one swallows it,
/// told in red; the prey starts digesting, 4 turns from done. The caller
/// takes the prey off the map and makes it a child of the predator.
pub fn vore_attack(
    ev: &BumpEvent,
    prey_tranced: bool,
    pred_does_vore: bool,
    prey_name: &String,
    pred_name: &String,
    log: &mut Log,
) -> (r: Option<Digesting>)
    ensures
        if prey_tranced && pred_does_vore {
            &&& r == Some(Digesting { turns_to_digest: 4 })
            &&& final(log).lines@.drop_last() == old(log).lines@
            &&& final(log).lines@.len() == old(log).lines@.len() + 1
            &&& line_texts(final(log).lines@.last()@) == split_inclusive(
                " "@ + pred_name@ + " devours "@ + prey_name@ + "!"@,
                false,
            )
            &&& all_colored(final(log).lines@.last()@, Palette::Red)
        } else {
            &&& r is None
            &&& final(log).lines@ == old(log).lines@
        },
{
    if prey_tranced && pred_does_vore {
        let mut m = String::from_str(" ");
        m.append(pred_name.as_str());
        m.append(" devours ");
        m.append(prey_name.as_str());
        m.append("!");
        log.log_string_formatted(m, Palette::Red);
        assert(log.lines@.drop_last() =~= old(log).lines@);
        Some(Digesting { turns_to_digest: 4 })
    } else {
        None
    }
}

/// A child of a predator: the prey, its name, and how far along its
/// digestion is (a child that is not digesting has none).
pub struct Meal {
    pub prey: EntityId,
    pub name: String,
    pub digesting: Option<Digesting>,
}

/// The number of meals that finish digesting this turn.
pub open spec fn finishing(meals: Seq<Meal>) -> int
    decreases meals.len(),
{
    if meals.len() == 0 {
        0
    } else {
        finishing(meals.drop_last()) + if meals.last().digesting == Some(Digesting { turns_to_digest: 1 }) {
            1int
        } else {
            0int
        }
    }
}

/// The prey that finish digesting this turn, in order.
pub open spec fn finished_prey(meals: Seq<Meal>) -> Seq<EntityId>
    decreases meals.len(),
{
    if meals.len() == 0 {
        Seq::empty()
    } else {
        let rest = finished_prey(meals.drop_last());
        if meals.last().digesting == Some(Digesting { turns_to_digest: 1 }) {
            rest.push(meals.last().prey)
        } else {
            rest
        }
    }
}

/// The meal after a turn of digestion.
pub open spec fn digested(m: Meal) -> Option<Digesting> {
    match m.digesting {
        Some(d) => Some(Digesting { turns_to_digest: (d.turns_to_digest - 1) as u8 }),
        None => None,
    }
}

/// A meal after `k` of its predator's turns.
pub open spec fn meal_after(m: Meal, k: nat) -> Meal
    decreases k,
{
    if k == 0 {
        m
    } else {
        let prev = meal_after(m, (k - 1) as nat);
        Meal { digesting: digested(prev), ..prev }
    }
}

/// A swallowed prey (4 turns from done, as `vore_attack` leaves it) melts on
/// its predator's fourth turn: on each of the first three it is still
/// digesting and finishes on none, and on the fourth it is among the prey
/// that finish.
pub proof fn lemma_swallowed_prey_melts_on_fourth_turn(m: Meal, k: nat)
    requires
        m.digesting == Some(Digesting { turns_to_digest: 4 }),
        k < 4,
    ensures
        meal_after(m, k).prey == m.prey,
        meal_after(m, k).digesting == Some(Digesting { turns_to_digest: (4 - k) as u8 }),
        finished_prey(seq![meal_after(m, k)]) == (if k == 3 {
            seq![m.prey]
        } else {
            Seq::<EntityId>::empty()
        }),
    decreases k,
{
    if k > 0 {
        lemma_swallowed_prey_melts_on_fourth_turn(m, (k - 1) as nat);
    }
    let s = seq![meal_after(m, k)];
    assert(s.drop_last() =~= Seq::<Meal>::empty());
    assert(s.last() == meal_after(m, k));
    assert(finished_prey(s.drop_last()) == Seq::<EntityId>::empty());
    if k == 3 {
        assert(finished_prey(s) =~= seq![m.prey]);
    } else {
        assert(finished_prey(s) =~= Seq::<EntityId>::empty());
    }
}

/// The log line told of a meal after a turn of digestion: its end, in green,
/// or the turns left, in white.
pub open spec fn digestion_line(pred_name: Seq<char>, m: Meal) -> (Seq<char>, Palette) {
    let left = (m.digesting->Some_0.turns_to_digest - 1) as int;
    if left == 0 {
        (" "@ + m.name@ + " has been melted into 15 cum points worth of stinky smelly goo."@, Palette::Green)
    } else {
        (" "@ + decimal(left) + " turns until "@ + m.name@ + " is digested by "@ + pred_name + "."@, Palette::White)
    }
}

/// The lines told of the meals, in order (meals that are not digesting tell
/// nothing).
pub open spec fn digestion_lines(pred_name: Seq<char>, meals: Seq<Meal>) -> Seq<(Seq<char>, Palette)>
    decreases meals.len(),
{
    if meals.len() == 0 {
        Seq::empty()
    } else {
        let rest = digestion_lines(pred_name, meals.drop_last());
        if meals.last().digesting is Some {
            rest.push(digestion_line(pred_name, meals.last()))
        } else {
            rest
        }
    }
}

/// Whether the log gained exactly the given lines, each in its colour.
pub open spec fn logged(before: Seq<Vec<LogFragment>>, after: Seq<Vec<LogFragment>>, lines: Seq<(Seq<char>, Palette)>) -> bool {
    &&& after.len() == before.len() + lines.len()
    &&& forall|i: int| 0 <= i < before.len() ==> after[i] == before[i]
    &&& forall|j: int|
        0 <= j < lines.len() ==> line_texts((#[trigger] after[before.len() + j])@) == split_inclusive(
            lines[j].0,
            false,
        ) && all_colored(after[before.len() + j]@, lines[j].1)
}

/// The cum points after `f` meals of 15 each, starting from `base` and never
/// going over `max`.
pub open spec fn capped_gain(base: i32, max: i32, f: int) -> i32 {
    if base + 15 * f < max {
        (base + 15 * f) as i32
    } else {
        max
    }
}

/// Digestion: once a predator has taken its turn, each of its digesting meals
/// comes one turn closer to done. A meal that is done is told in green,
/// leaves the game (as of `turn`) and gives the predator 15 cum points, never
/// beyond their maximum; any other is told in white with the turns left.
pub fn update_vore(
    turns: &Turns,
    pred: EntityId,
    pred_name: &String,
    stats: &mut Stats,
    meals: &mut Vec<Meal>,
    turn: u32,
    log: &mut Log,
) -> (r: Vec<ActorRemovedEvent>)
    requires
        turns.current_valid(),
        turns.spec_was_turn(pred) ==> {
            &&& forall|i: int|
                0 <= i < old(meals)@.len() ==> ((#[trigger] old(meals)@[i]).digesting matches Some(d)
                    ==> d.turns_to_digest > 0)
            &&& finishing(old(meals)@) > 0 ==> old(stats).view().contains_key(StatType::CumPoints)
        },
    ensures
        if turns.spec_was_turn(pred) {
            &&& final(meals)@.len() == old(meals)@.len()
            &&& forall|i: int|
                0 <= i < old(meals)@.len() ==> (#[trigger] final(meals)@[i]).prey == old(meals)@[i].prey
                    && final(meals)@[i].name@ == old(meals)@[i].name@ && final(meals)@[i].digesting
                    == digested(old(meals)@[i])
            &&& r@.len() == finished_prey(old(meals)@).len()
            &&& forall|j: int|
                0 <= j < r@.len() ==> (#[trigger] r@[j]).removed_actor == finished_prey(old(meals)@)[j]
                    && r@[j].turn == turn && r@[j].spec_frame_valid()
            &&& final(stats).view() == if finishing(old(meals)@) > 0 {
                old(stats).view().insert(
                    StatType::CumPoints,
                    Stat {
                        base: capped_gain(
                            old(stats).view()[StatType::CumPoints].base,
                            old(stats).view()[StatType::CumPoints].max,
                            finishing(old(meals)@),
                        ),
                        ..old(stats).view()[StatType::CumPoints]
                    },
                )
            } else {
                old(stats).view()
            }
            &&& logged(old(log).lines@, final(log).lines@, digestion_lines(pred_name@, old(meals)@))
        } else {
            &&& r@.len() == 0
            &&& final(meals)@ == old(meals)@
            &&& final(stats).view() == old(stats).view()
            &&& final(log).lines@ == old(log).lines@
        },
{
    let mut removals: Vec<ActorRemovedEvent> = Vec::new();
    if !turns.was_turn(&pred) {
        return removals;
    }
    let ghost meals0 = meals@;
    let ghost stats0 = stats.view();
    let ghost lines0 = log.lines@;
    let mut i: usize = 0;
    while i < meals.len()
        invariant
            i <= meals@.len(),
            meals@.len() == meals0.len(),
            forall|k: int|
                0 <= k < meals0.len() ==> ((#[trigger] meals0[k]).digesting matches Some(d) ==> d.turns_to_digest > 0),
            finishing(meals0) > 0 ==> stats0.contains_key(StatType::CumPoints),
            forall|k: int|
                0 <= k < i ==> (#[trigger] meals@[k]).prey == meals0[k].prey && meals@[k].name@ == meals0[k].name@
                    && meals@[k].digesting == digested(meals0[k]),
            forall|k: int| i <= k < meals0.len() ==> #[trigger] meals@[k] == meals0[k],
            removals@.len() == finished_prey(meals0.take(i as int)).len(),
            forall|j: int|
                0 <= j < removals@.len() ==> (#[trigger] removals@[j]).removed_actor == finished_prey(
                    meals0.take(i as int),
                )[j] && removals@[j].turn == turn && removals@[j].spec_frame_valid(),
            stats.view() == if finishing(meals0.take(i as int)) > 0 {
                stats0.insert(
                    StatType::CumPoints,
                    Stat {
                        base: capped_gain(
                            stats0[StatType::CumPoints].base,
                            stats0[StatType::CumPoints].max,
                            finishing(meals0.take(i as int)),
                        ),
                        ..stats0[StatType::CumPoints]
                    },
                )
            } else {
                stats0
            },
            logged(lines0, log.lines@, digestion_lines(pred_name@, meals0.take(i as int))),
        decreases meals0.len() - i,
    {
        proof {
            assert(meals0.take(i as int + 1).drop_last() =~= meals0.take(i as int));
            lemma_finishing_bounded(meals0, i as int + 1);
        }
        let d = meals[i].digesting;
        match d {
            None => {},
            Some(dg) => {
                let left = dg.turns_to_digest - 1;
                let ghost lines1 = log.lines@;
                if left == 0 {
                    let mut m = String::from_str(" ");
                    m.append(meals[i].name.as_str());
                    m.append(" has been melted into 15 cum points worth of stinky smelly goo.");
                    log.log_string_formatted(m, Palette::Green);
                    removals.push(ActorRemovedEvent::new(meals[i].prey, turn));
                    proof {
                        assert(meals@[i as int] == meals0[i as int]);
                        assert(finishing(meals0.take(i as int + 1)) == finishing(meals0.take(i as int)) + 1);
                        lemma_finishing_nonneg(meals0.take(i as int));
                        assert(stats.view().contains_key(StatType::CumPoints));
                    }
                    let cp = stats.0.get(&StatType::CumPoints).unwrap();
                    let gained = if cp.base as i64 + 15 > cp.max as i64 {
                        cp.max
                    } else {
                        cp.base + 15
                    };
                    stats.0.insert(StatType::CumPoints, Stat { base: gained, ..cp });
                } else {
                    let mut m = String::from_str(" ");
                    let count = decimal_string(left as i64);
                    m.append(count.as_str());
                    m.append(" turns until ");
                    m.append(meals[i].name.as_str());
                    m.append(" is digested by ");
                    m.append(pred_name.as_str());
                    m.append(".");
                    log.log_string_formatted(m, Palette::White);
                }
                meals.set(i, Meal { prey: meals[i].prey, name: meals[i].name.clone(), digesting: Some(Digesting { turns_to_digest: left }) });
                proof {
                    let lines = digestion_lines(pred_name@, meals0.take(i as int + 1));
                    assert(lines.drop_last() =~= digestion_lines(pred_name@, meals0.take(i as int)));
                    assert forall|j: int| 0 <= j < lines.len() implies line_texts(
                        (#[trigger] log.lines@[lines0.len() + j])@,
                    ) == split_inclusive(lines[j].0, false) && all_colored(log.lines@[lines0.len() + j]@, lines[j].1) by {
                        if j < lines.len() - 1 {
                            assert(log.lines@[lines0.len() + j] == lines1[lines0.len() + j]);
                        } else {
                            assert(log.lines@[lines0.len() + j] == log.lines@.last());
                        }
                    }
                }
            },
        }
        i = i + 1;
    }
    assert(meals0.take(meals0.len() as int) =~= meals0);
    removals
}

/// The finishing meals of a prefix are no more than those of the whole.
proof fn lemma_finishing_bounded(meals: Seq<Meal>, n: int)
    requires
        0 <= n <= meals.len(),
    ensures
        0 <= finishing(meals.take(n)) <= finishing(meals),
    decreases meals.len() - n,
{
    if n < meals.len() {
        lemma_finishing_bounded(meals, n + 1);
        assert(meals.take(n + 1).drop_last() =~= meals.take(n));
        lemma_finishing_nonneg(meals.take(n));
    } else {
        assert(meals.take(n) =~= meals);
        lemma_finishing_nonneg(meals);
    }
}

proof fn lemma_finishing_nonneg(meals: Seq<Meal>)
    ensures
        finishing(meals) >= 0,
    decreases meals.len(),
{
    if meals.len() > 0 {
        lemma_finishing_nonneg(meals.drop_last());
    }
}

} // verus!
