use vstd::prelude::*;

use crate::color::Palette;
use crate::log::{LogFragment, all_colored, fragment_string, line_texts, split_inclusive};
use crate::stats::{Stat, StatType, StatVisibility, Stats};
use crate::text::{decimal, decimal_string};

verus! {

/// The texts and colours of a list of fragments.
pub open spec fn frag_views(fs: Seq<LogFragment>) -> Seq<(Seq<char>, Palette)> {
    Seq::new(fs.len(), |i: int| (fs[i].text@, fs[i].color))
}

/// The fragments a text is cut into (after each space), all in the colour.
pub open spec fn pieces(s: Seq<char>, c: Palette) -> Seq<(Seq<char>, Palette)> {
    Seq::new(split_inclusive(s, false).len(), |i: int| (split_inclusive(s, false)[i], c))
}

/// What `inflector`'s `to_title_case` makes of a text.
pub uninterp spec fn title_case(s: Seq<char>) -> Seq<char>;

/// The text in title case (`inflector::cases::titlecase::to_title_case`):
/// the result is taken to be `title_case` of the text, and nothing more is
/// claimed of it.
#[verifier::external_body]
fn to_title_case(s: &str) -> (r: String)
    ensures
        r@ == title_case(s@),
{
    inflector::cases::titlecase::to_title_case(s)
}

/// The text with its ASCII lower-case letters made upper-case.
pub open spec fn ascii_upper(s: Seq<char>) -> Seq<char> {
    Seq::new(s.len(), |i: int| if 'a' <= s[i] <= 'z' { ((s[i] as u32) - 32) as char } else { s[i] })
}

fn to_ascii_upper(s: &String) -> (r: String)
    ensures
        r@ == ascii_upper(s@),
{
    let chars = crate::log::chars_of(s.as_str());
    let mut out: Vec<char> = Vec::new();
    let mut i: usize = 0;
    while i < chars.len()
        invariant
            i <= chars@.len(),
            chars@ == s@,
            out@ == ascii_upper(chars@).take(i as int),
        decreases chars@.len() - i,
    {
        let c = chars[i];
        let u = if 'a' <= c && c <= 'z' {
            let code: u8 = (c as u32 - 32) as u8;
            (code as char)
        } else {
            c
        };
        out.push(u);
        assert(out@ =~= ascii_upper(chars@).take(i as int + 1));
        i = i + 1;
    }
    assert(ascii_upper(chars@).take(chars@.len() as int) =~= ascii_upper(chars@));
    crate::log::string_of(&out)
}

fn fragments_of(s: String, c: Palette) -> (r: Vec<LogFragment>)
    ensures
        frag_views(r@) == pieces(s@, c),
{
    let r = fragment_string(s, c);
    assert(frag_views(r@) =~= pieces(s@, c)) by {
        assert forall|i: int| 0 <= i < r@.len() implies r@[i].text@ == split_inclusive(s@, false)[i] by {
            assert(line_texts(r@)[i] == r@[i].text@);
        }
        assert forall|i: int| 0 <= i < r@.len() implies r@[i].color == c by {}
    }
    r
}

/// Whether the stats panel shows a stat: every stat in debug mode, else the
/// public and private ones.
pub open spec fn shown_in_panel(s: Stat, show_all: bool) -> bool {
    show_all || s.visibility == StatVisibility::Public || s.visibility == StatVisibility::Private
}

/// The stats panel's entries from the stat kind of rank `k` on: each shown
/// stat as `Name: value  `, its name in title case, in the stat's colour.
pub open spec fn stat_entries(m: Map<StatType, Stat>, show_all: bool, k: int) -> Seq<(Seq<char>, Palette)>
    decreases 7 - k,
{
    if k >= 7 || k < 0 {
        Seq::empty()
    } else {
        let t = StatType::from_rank(k);
        (if m.contains_key(t) && shown_in_panel(m[t], show_all) {
            pieces(title_case(t.spec_name()) + ": "@ + decimal(m[t].effective as int) + "  "@, t.spec_color())
        } else {
            Seq::empty()
        }) + stat_entries(m, show_all, k + 1)
    }
}

/// The player's panel: its name, then its stats in listing order.
pub open spec fn stats_panel(name: Seq<char>, stats: Map<StatType, Stat>, show_all: bool) -> Seq<(Seq<char>, Palette)> {
    pieces(" "@ + name + "    "@, Palette::White) + stat_entries(stats, show_all, 0)
}

/// The fragments of the player's panel under the map: ` name    ` in white,
/// then each stat it shows (see `stat_entries`).
pub fn render_stats_and_log(name: &String, stats: &Stats, show_all: bool) -> (r: Vec<LogFragment>)
    ensures
        frag_views(r@) == stats_panel(name@, stats.view(), show_all),
{
    let mut head = String::from_str(" ");
    head.append(name.as_str());
    head.append("    ");
    let mut out = fragments_of(head, Palette::White);
    let ghost start = frag_views(out@);
    let mut k: usize = 0;
    while k < 7
        invariant
            k <= 7,
            start == pieces(" "@ + name@ + "    "@, Palette::White),
            frag_views(out@) + stat_entries(stats.view(), show_all, k as int) == stats_panel(
                name@,
                stats.view(),
                show_all,
            ),
        decreases 7 - k,
    {
        let t = StatType::from_ordinal(k);
        let ghost before = frag_views(out@);
        match stats.0.get(&t) {
            Some(s) => {
                if show_all || s.visibility == StatVisibility::Public || s.visibility == StatVisibility::Private {
                    let mut text = to_title_case(t.name().as_str());
                    text.append(": ");
                    let number = decimal_string(s.effective as i64);
                    text.append(number.as_str());
                    text.append("  ");
                    let mut more = fragments_of(text, t.color());
                    let ghost added = frag_views(more@);
                    out.append(&mut more);
                    assert(frag_views(out@) =~= before + added);
                }
            },
            None => {},
        }
        proof {
            assert(stat_entries(stats.view(), show_all, k as int) == (if stats.view().contains_key(t)
                && shown_in_panel(stats.view()[t], show_all) {
                pieces(title_case(t.spec_name()) + ": "@ + decimal(stats.view()[t].effective as int) + "  "@, t.spec_color())
            } else {
                Seq::empty()
            }) + stat_entries(stats.view(), show_all, k as int + 1));
            if !(stats.view().contains_key(t) && shown_in_panel(stats.view()[t], show_all)) {
                assert(frag_views(out@) =~= before);
                assert(Seq::<(Seq<char>, Palette)>::empty() + stat_entries(stats.view(), show_all, k as int + 1)
                    =~= stat_entries(stats.view(), show_all, k as int + 1));
            }
            assert(frag_views(out@) + stat_entries(stats.view(), show_all, k as int + 1) =~= before
                + stat_entries(stats.view(), show_all, k as int));
        }
        k = k + 1;
    }
    assert(frag_views(out@) =~= stats_panel(name@, stats.view(), show_all));
    out
}

/// What an actor's engagement shows: its target's name (if it has a target)
/// and whether it is only alert to it.
pub struct EngagementInfo {
    pub target_name: Option<String>,
    pub alert: bool,
}

/// What is known of an actor for the information panel.
pub struct ActorInfo {
    pub name: String,
    pub visible: bool,
    pub is_player: bool,
    pub stats: Option<Stats>,
    pub engagement: Option<EngagementInfo>,
}

/// The stat entries of an actor from rank `k` on: each public stat (or every
/// stat in debug mode) as one fragment `ABB: value  `, in the stat's colour.
pub open spec fn actor_stat_entries(m: Map<StatType, Stat>, show_all: bool, k: int) -> Seq<(Seq<char>, Palette)>
    decreases 7 - k,
{
    if k >= 7 || k < 0 {
        Seq::empty()
    } else {
        let t = StatType::from_rank(k);
        (if m.contains_key(t) && (show_all || m[t].visibility == StatVisibility::Public) {
            seq![(ascii_upper(t.spec_abbreviation()) + ": "@ + decimal(m[t].effective as int) + "  "@, t.spec_color())]
        } else {
            Seq::empty()
        }) + actor_stat_entries(m, show_all, k + 1)
    }
}

/// The stats part of an actor's entry.
pub open spec fn stats_entry(stats: Option<Stats>, show_all: bool) -> Seq<(Seq<char>, Palette)> {
    match stats {
        Some(s) => actor_stat_entries(s.view(), show_all, 0) + pieces("\n "@, Palette::White),
        None => Seq::empty(),
    }
}

/// The engagement part of an actor's entry: `Alert: name  ` or
/// `Target: name  ` for a target, else `No target  `, in white.
pub open spec fn engagement_entry(e: Option<EngagementInfo>) -> Seq<(Seq<char>, Palette)> {
    match e {
        Some(e) => match e.target_name {
            Some(t) => seq![
                (if e.alert {
                    "Alert: "@
                } else {
                    "Target: "@
                } + t@ + "  "@, Palette::White),
            ],
            None => seq![("No target  "@, Palette::White)],
        },
        None => Seq::empty(),
    }
}

/// One actor's entry in the panel: its name, its stats (if it has any), what
/// it engages (if it engages), and a blank line.
pub open spec fn actor_entry(a: ActorInfo, show_all: bool) -> Seq<(Seq<char>, Palette)> {
    pieces(a.name@ + " \n "@, Palette::White) + stats_entry(a.stats, show_all) + engagement_entry(a.engagement)
        + pieces("\n \n "@, Palette::White)
}

/// The panel's entries for the actors from index `k` on that are in sight
/// and not the player.
pub open spec fn actor_entries(actors: Seq<ActorInfo>, show_all: bool, k: int) -> Seq<(Seq<char>, Palette)>
    decreases actors.len() - k,
{
    if k >= actors.len() || k < 0 {
        Seq::empty()
    } else {
        (if actors[k].visible && !actors[k].is_player {
            actor_entry(actors[k], show_all)
        } else {
            Seq::empty()
        }) + actor_entries(actors, show_all, k + 1)
    }
}

fn actor_stats_fragments(stats: &Stats, show_all: bool) -> (r: Vec<LogFragment>)
    ensures
        frag_views(r@) == actor_stat_entries(stats.view(), show_all, 0),
{
    let mut out: Vec<LogFragment> = Vec::new();
    let mut k: usize = 0;
    while k < 7
        invariant
            k <= 7,
            frag_views(out@) + actor_stat_entries(stats.view(), show_all, k as int) == actor_stat_entries(
                stats.view(),
                show_all,
                0,
            ),
        decreases 7 - k,
    {
        let t = StatType::from_ordinal(k);
        let ghost before = frag_views(out@);
        match stats.0.get(&t) {
            Some(s) => {
                if show_all || s.visibility == StatVisibility::Public {
                    let mut text = to_ascii_upper(&t.abbreviate());
                    text.append(": ");
                    let number = decimal_string(s.effective as i64);
                    text.append(number.as_str());
                    text.append("  ");
                    out.push(LogFragment::new(text, t.color()));
                    assert(frag_views(out@) =~= before + frag_views(seq![out@.last()]));
                }
            },
            None => {},
        }
        proof {
            if !(stats.view().contains_key(t) && (show_all || stats.view()[t].visibility == StatVisibility::Public)) {
                assert(frag_views(out@) =~= before);
            }
            assert(frag_views(out@) + actor_stat_entries(stats.view(), show_all, k as int + 1) =~= before
                + actor_stat_entries(stats.view(), show_all, k as int));
        }
        k = k + 1;
    }
    assert(frag_views(out@) =~= actor_stat_entries(stats.view(), show_all, 0));
    out
}

fn actor_fragments(a: &ActorInfo, show_all: bool) -> (r: Vec<LogFragment>)
    ensures
        frag_views(r@) == actor_entry(*a, show_all),
{
    let mut head = a.name.clone();
    head.append(" \n ");
    let mut out = fragments_of(head, Palette::White);
    let ghost v0 = frag_views(out@);
    let ghost stats_part = stats_entry(a.stats, show_all);
    match &a.stats {
        Some(s) => {
            let mut more = actor_stats_fragments(s, show_all);
            let mut tail = fragments_of(String::from_str("\n "), Palette::White);
            let ghost m1 = frag_views(more@);
            let ghost m2 = frag_views(tail@);
            out.append(&mut more);
            out.append(&mut tail);
            assert(frag_views(out@) =~= v0 + m1 + m2);
        },
        None => {},
    }
    assert(frag_views(out@) =~= v0 + stats_part);
    let ghost v1 = frag_views(out@);
    let ghost engage_part = engagement_entry(a.engagement);
    match &a.engagement {
        Some(e) => match &e.target_name {
            Some(t) => {
                let mut text = if e.alert {
                    String::from_str("Alert: ")
                } else {
                    String::from_str("Target: ")
                };
                text.append(t.as_str());
                text.append("  ");
                out.push(LogFragment::new(text, Palette::White));
            },
            None => {
                out.push(LogFragment::new(String::from_str("No target  "), Palette::White));
            },
        },
        None => {},
    }
    assert(frag_views(out@) =~= v1 + engage_part);
    let ghost v2 = frag_views(out@);
    let mut end = fragments_of(String::from_str("\n \n "), Palette::White);
    let ghost m3 = frag_views(end@);
    out.append(&mut end);
    assert(frag_views(out@) =~= v2 + m3);
    assert(frag_views(out@) =~= actor_entry(*a, show_all));
    out
}

/// The fragments of the information panel: for each actor in sight other
/// than the player, in order, its entry (see `actor_entry`).
pub fn render_actor_info(actors: &Vec<ActorInfo>, show_all: bool) -> (r: Vec<LogFragment>)
    ensures
        frag_views(r@) == actor_entries(actors@, show_all, 0),
{
    let mut out: Vec<LogFragment> = Vec::new();
    let mut i: usize = 0;
    while i < actors.len()
        invariant
            i <= actors@.len(),
            frag_views(out@) + actor_entries(actors@, show_all, i as int) == actor_entries(actors@, show_all, 0),
        decreases actors@.len() - i,
    {
        let ghost before = frag_views(out@);
        let a = &actors[i];
        if a.visible && !a.is_player {
            let mut more = actor_fragments(a, show_all);
            let ghost m = frag_views(more@);
            out.append(&mut more);
            assert(frag_views(out@) =~= before + m);
        }
        proof {
            if !(actors@[i as int].visible && !actors@[i as int].is_player) {
                assert(frag_views(out@) =~= before);
            }
            assert(frag_views(out@) + actor_entries(actors@, show_all, i as int + 1) =~= before + actor_entries(
                actors@,
                show_all,
                i as int,
            ));
        }
        i = i + 1;
    }
    assert(frag_views(out@) =~= actor_entries(actors@, show_all, 0));
    out
}

/// Whether two actors' stats look alike to a player without the debug view:
/// the same stats are public, with the same effective values.
pub open spec fn same_public_stats(m1: Map<StatType, Stat>, m2: Map<StatType, Stat>) -> bool {
    &&& forall|t: StatType|
        (m1.contains_key(t) && m1[t].visibility == StatVisibility::Public) <==> (#[trigger] m2.contains_key(t)
            && m2[t].visibility == StatVisibility::Public)
    &&& forall|t: StatType|
        #[trigger] m1.contains_key(t) && m1[t].visibility == StatVisibility::Public ==> m1[t].effective
            == m2[t].effective
}

/// Whether two actors differ at most in stats that are not public.
pub open spec fn alike_but_hidden(a: ActorInfo, b: ActorInfo) -> bool {
    &&& a.name@ == b.name@
    &&& a.visible == b.visible
    &&& a.is_player == b.is_player
    &&& a.engagement == b.engagement
    &&& match (a.stats, b.stats) {
        (Some(s), Some(u)) => same_public_stats(s.view(), u.view()),
        (None, None) => true,
        _ => false,
    }
}

/// Without the debug view, stats that are not public never show: stats whose
/// public part agrees give the same stat entries.
pub proof fn lemma_hidden_stats_unseen(m1: Map<StatType, Stat>, m2: Map<StatType, Stat>, k: int)
    requires
        same_public_stats(m1, m2),
    ensures
        actor_stat_entries(m1, false, k) == actor_stat_entries(m2, false, k),
    decreases 7 - k,
{
    if 0 <= k < 7 {
        let t = StatType::from_rank(k);
        assert((m1.contains_key(t) && m1[t].visibility == StatVisibility::Public) == (m2.contains_key(t)
            && m2[t].visibility == StatVisibility::Public));
        lemma_hidden_stats_unseen(m1, m2, k + 1);
    }
}

/// Without the debug view, the information panel does not change with the
/// actors' private and hidden stats: for two lists of actors that differ
/// only there, `render_actor_info(_, false)` gives the same fragments, text
/// and colour alike (its result is `actor_entries(_, false, 0)`).
pub proof fn lemma_panel_hides_private_stats(a1: Seq<ActorInfo>, a2: Seq<ActorInfo>, k: int)
    requires
        a1.len() == a2.len(),
        forall|i: int| 0 <= i < a1.len() ==> alike_but_hidden(#[trigger] a1[i], a2[i]),
    ensures
        actor_entries(a1, false, k) == actor_entries(a2, false, k),
    decreases a1.len() - k,
{
    if 0 <= k < a1.len() {
        lemma_panel_hides_private_stats(a1, a2, k + 1);
        assert(alike_but_hidden(a1[k], a2[k]));
        match (a1[k].stats, a2[k].stats) {
            (Some(s), Some(u)) => {
                lemma_hidden_stats_unseen(s.view(), u.view(), 0);
            },
            _ => {},
        }
        assert(actor_entry(a1[k], false) == actor_entry(a2[k], false));
    }
}

} // verus!
