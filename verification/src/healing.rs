use vstd::prelude::*;

use crate::color::Palette;
use crate::entity::EntityId;
use crate::log::{Log, all_colored, line_texts, split_inclusive};
use crate::stats::{StatChangeEvent, StatType, Stats, effective_of};

verus! {

/// Sent when an actor spends its turn healing.
#[derive(Clone, Copy, PartialEq, Eq, Structural, Debug)]
pub struct HealActionEvent {
    pub healing_entity: EntityId,
}

/// Marks an actor that can heal itself.
#[derive(Clone, Copy, PartialEq, Eq, Structural, Debug)]
pub struct CanHeal;

/// Whether an actor with these stats heals: it has at least 5 cum points and
/// is below its maximum health.
pub open spec fn heals(stats: Stats) -> bool {
    effective_of(stats, StatType::CumPoints) >= 5 && effective_of(stats, StatType::Health)
        < stats.view()[StatType::Health].max
}

/// Heal action: an actor with at least 5 cum points that is below its maximum
/// health spends 5 cum points for 1 point of health, told in green in the
/// log.
pub fn heal_action(entity: EntityId, name: &String, stats: &Stats, log: &mut Log) -> (r: Vec<StatChangeEvent>)
    requires
        effective_of(*stats, StatType::CumPoints) >= 5 ==> stats.view().contains_key(StatType::Health),
    ensures
        if heals(*stats) {
            &&& r@ == seq![
                StatChangeEvent { stat: StatType::CumPoints, amount: -5i32, entity },
                StatChangeEvent { stat: StatType::Health, amount: 1i32, entity },
            ]
            &&& final(log).lines@.drop_last() == old(log).lines@
            &&& final(log).lines@.len() == old(log).lines@.len() + 1
            &&& line_texts(final(log).lines@.last()@) == split_inclusive(
                " "@ + name@ + " uses 5 cum points to heal for 1 health."@,
                false,
            )
            &&& all_colored(final(log).lines@.last()@, Palette::Green)
        } else {
            &&& r@.len() == 0
            &&& final(log).lines@ == old(log).lines@
        },
{
    let mut events: Vec<StatChangeEvent> = Vec::new();
    if stats.get_effective(&StatType::CumPoints) >= 5 && stats.get_effective(&StatType::Health) < stats.get_max(
        &StatType::Health,
    ) {
        let mut m = String::from_str(" ");
        m.append(name.as_str());
        m.append(" uses 5 cum points to heal for 1 health.");
        log.log_string_formatted(m, Palette::Green);
        assert(log.lines@.drop_last() =~= old(log).lines@);
        events.push(StatChangeEvent::new(StatType::CumPoints, -5, entity));
        events.push(StatChangeEvent::new(StatType::Health, 1, entity));
        assert(events@ =~= seq![
                StatChangeEvent { stat: StatType::CumPoints, amount: -5i32, entity },
                StatChangeEvent { stat: StatType::Health, amount: 1i32, entity },
            ]);
    }
    events
}

} // verus!
