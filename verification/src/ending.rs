use vstd::prelude::*;

use crate::color::Palette;
use crate::entity::EntityId;
use crate::log::{Log, all_colored, line_texts, split_inclusive};
use crate::turn::ActorRemovedEvent;

verus! {

/// Whether the log gained one yellow line with the text for each of `n`
/// events.
pub open spec fn told_times(before: Seq<Vec<crate::log::LogFragment>>, after: Seq<Vec<crate::log::LogFragment>>, text: Seq<char>, n: int) -> bool {
    &&& after.len() == before.len() + n
    &&& forall|i: int| 0 <= i < before.len() ==> after[i] == before[i]
    &&& forall|j: int|
        before.len() <= j < after.len() ==> line_texts((#[trigger] after[j])@) == split_inclusive(text, false)
            && all_colored(after[j]@, Palette::Yellow)
}

proof fn lemma_told_more(
    a: Seq<Vec<crate::log::LogFragment>>,
    b: Seq<Vec<crate::log::LogFragment>>,
    c: Seq<Vec<crate::log::LogFragment>>,
    text: Seq<char>,
    n: int,
)
    requires
        n >= 0,
        told_times(a, b, text, n),
        told_times(b, c, text, 1),
    ensures
        told_times(a, c, text, n + 1),
{
    assert forall|i: int| 0 <= i < a.len() implies c[i] == a[i] by {
        assert(c[i] == b[i]);
    }
    assert forall|j: int| a.len() <= j < c.len() implies line_texts((#[trigger] c[j])@) == split_inclusive(text, false)
        && all_colored(c[j]@, Palette::Yellow) by {
        if j < b.len() {
            assert(c[j] == b[j]);
        }
    }
}

fn tell(log: &mut Log, text: &str)
    ensures
        told_times(old(log).lines@, final(log).lines@, text@, 1),
{
    log.log_string_formatted(String::from_str(text), Palette::Yellow);
}

/// Victory: once no other actor takes turns, each actor removal this frame
/// tells the player, in yellow, that they have won.
pub fn player_victory(removals: &Vec<ActorRemovedEvent>, enemies_left: bool, log: &mut Log)
    ensures
        told_times(
            old(log).lines@,
            final(log).lines@,
            " You win! Press shift+r to start over."@,
            if enemies_left {
                0
            } else {
                removals@.len() as int
            },
        ),
{
    let mut i: usize = 0;
    while i < removals.len()
        invariant
            i <= removals@.len(),
            told_times(
                old(log).lines@,
                log.lines@,
                " You win! Press shift+r to start over."@,
                if enemies_left {
                    0
                } else {
                    i as int
                },
            ),
        decreases removals@.len() - i,
    {
        if !enemies_left {
            let ghost before = log.lines@;
            tell(log, " You win! Press shift+r to start over.");
            proof {
                lemma_told_more(old(log).lines@, before, log.lines@, " You win! Press shift+r to start over."@, i as int);
            }
        }
        i = i + 1;
    }
}

/// The number of removals, not yet handled, of the player.
pub open spec fn player_removals(removals: Seq<ActorRemovedEvent>, player: Option<EntityId>) -> nat
    decreases removals.len(),
{
    if removals.len() == 0 {
        0
    } else {
        player_removals(removals.drop_last(), player) + if removals.last().spec_frame_valid() && player
            == Some(removals.last().removed_actor) {
            1nat
        } else {
            0nat
        }
    }
}

/// Death: each removal of the player this frame (not yet handled) tells the
/// player, in yellow, that they have died.
pub fn player_death(removals: &Vec<ActorRemovedEvent>, player: Option<EntityId>, log: &mut Log)
    ensures
        told_times(
            old(log).lines@,
            final(log).lines@,
            " You have died! Press shift+r to try again."@,
            player_removals(removals@, player) as int,
        ),
{
    let mut i: usize = 0;
    while i < removals.len()
        invariant
            i <= removals@.len(),
            told_times(
                old(log).lines@,
                log.lines@,
                " You have died! Press shift+r to try again."@,
                player_removals(removals@.take(i as int), player) as int,
            ),
        decreases removals@.len() - i,
    {
        assert(removals@.take(i as int + 1).drop_last() =~= removals@.take(i as int));
        let ev = &removals[i];
        let mine = match player {
            Some(p) => p == ev.removed_actor,
            None => false,
        };
        if ev.frame_valid() && mine {
            let ghost before = log.lines@;
            tell(log, " You have died! Press shift+r to try again.");
            proof {
                lemma_told_more(old(log).lines@, before, log.lines@, " You have died! Press shift+r to try again."@, player_removals(removals@.take(i as int), player) as int);
            }
        }
        i = i + 1;
    }
    assert(removals@.take(removals@.len() as int) =~= removals@);
}

} // verus!
