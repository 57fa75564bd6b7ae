use vstd::prelude::*;
use vstd::multiset::Multiset;

use crate::color::Palette;
use crate::entity::EntityId;
use crate::geometry::IVec2;
use crate::input::GameState;
use crate::log::{Log, LogFragment, all_colored, fragment_string, line_texts, split_inclusive};
use crate::movement::MapSize;
use crate::stats::{FatalEffect, fatal_color};
use crate::status_effects::{StatusEffect, StatusEffects};

verus! {

/// What a map cell shows: a character and its two colours.
#[derive(Clone, Copy, PartialEq, Eq, Structural, Debug)]
pub struct Tile {
    pub glyph: char,
    pub fg_color: Palette,
    pub bg_color: Palette,
}

/// How an entity is drawn: its own tile, the tile its statuses make of it,
/// and its place in the drawing order (lower first).
#[derive(Clone, Copy, PartialEq, Eq, Structural, Debug)]
pub struct Renderable {
    pub base_tile: Tile,
    pub effective_tile: Tile,
    pub order: u8,
}

impl Renderable {
    /// Drawn as the tile, unchanged by statuses so far.
    pub fn new(tile: Tile, order: u8) -> (r: Renderable)
        ensures
            r == (Renderable { base_tile: tile, effective_tile: tile, order }),
    {
        Renderable { base_tile: tile, effective_tile: tile, order }
    }
}

/// Marks an actor struck by a fatal stat: its background takes the colour
/// the fatality is told in.
pub fn mark_fatality(renderable: &mut Renderable, effect: FatalEffect)
    ensures
        final(renderable).base_tile == (Tile { bg_color: fatal_color(effect), ..old(renderable).base_tile }),
        final(renderable).effective_tile == (Tile {
            bg_color: fatal_color(effect),
            ..old(renderable).effective_tile
        }),
        final(renderable).order == old(renderable).order,
{
    let color = match effect {
        FatalEffect::Trance => Palette::Pink,
        _ => Palette::OrangeRed,
    };
    renderable.base_tile.bg_color = color;
    renderable.effective_tile.bg_color = color;
}

/// Sets the ground colour of the actor's tile, as drawn and as it stands.
pub fn set_ground(renderable: &mut Renderable, color: Palette)
    ensures
        final(renderable).base_tile == (Tile { bg_color: color, ..old(renderable).base_tile }),
        final(renderable).effective_tile == (Tile { bg_color: color, ..old(renderable).effective_tile }),
        final(renderable).order == old(renderable).order,
{
    renderable.base_tile.bg_color = color;
    renderable.effective_tile.bg_color = color;
}

/// The tile after the statuses' tile changes, applied in order (a later
/// change of a part wins).
pub open spec fn modified_tile(base: Tile, statuses: Seq<StatusEffect>) -> Tile
    decreases statuses.len(),
{
    if statuses.len() == 0 {
        base
    } else {
        let t = modified_tile(base, statuses.drop_last());
        match statuses.last().tile_modification {
            Some(m) => Tile {
                glyph: match m.glyph {
                    Some(g) => g,
                    None => t.glyph,
                },
                fg_color: match m.fg_color {
                    Some(c) => c,
                    None => t.fg_color,
                },
                bg_color: match m.bg_color {
                    Some(c) => c,
                    None => t.bg_color,
                },
            },
            None => t,
        }
    }
}

/// Redraws an entity whose statuses changed: its tile starts from its own
/// and takes each status's tile change in order.
pub fn update_effective_tiles(renderable: &mut Renderable, statuses: Option<&StatusEffects>)
    ensures
        final(renderable).base_tile == old(renderable).base_tile,
        final(renderable).order == old(renderable).order,
        final(renderable).effective_tile == match statuses {
            Some(s) => modified_tile(old(renderable).base_tile, s.view()),
            None => old(renderable).base_tile,
        },
{
    renderable.effective_tile = renderable.base_tile;
    match statuses {
        None => {},
        Some(s) => {
            let effects = s.effects();
            let mut i: usize = 0;
            while i < effects.len()
                invariant
                    i <= effects@.len(),
                    effects@ == s.view(),
                    renderable.base_tile == old(renderable).base_tile,
                    renderable.order == old(renderable).order,
                    renderable.effective_tile == modified_tile(old(renderable).base_tile, effects@.take(i as int)),
                decreases effects@.len() - i,
            {
                assert(effects@.take(i as int + 1).drop_last() =~= effects@.take(i as int));
                match effects[i].tile_modification {
                    Some(m) => {
                        match m.glyph {
                            Some(g) => renderable.effective_tile.glyph = g,
                            None => {},
                        }
                        match m.bg_color {
                            Some(c) => renderable.effective_tile.bg_color = c,
                            None => {},
                        }
                        match m.fg_color {
                            Some(c) => renderable.effective_tile.fg_color = c,
                            None => {},
                        }
                    },
                    None => {},
                }
                i = i + 1;
            }
            assert(effects@.take(effects@.len() as int) =~= effects@);
        },
    }
}

/// The entities in drawing order.
pub struct RenderOrder(pub Vec<EntityId>);

/// The entities of the given drawing order, in the order given.
pub open spec fn with_order(items: Seq<(EntityId, u8)>, o: int) -> Seq<EntityId>
    decreases items.len(),
{
    if items.len() == 0 {
        Seq::empty()
    } else {
        let rest = with_order(items.drop_last(), o);
        if items.last().1 == o {
            rest.push(items.last().0)
        } else {
            rest
        }
    }
}

/// The entities of drawing order below `o`, lower orders first and each
/// order in the order given: a stable sort by drawing order.
pub open spec fn sorted_by_order(items: Seq<(EntityId, u8)>, o: int) -> Seq<EntityId>
    decreases o,
{
    if o <= 0 {
        Seq::empty()
    } else {
        sorted_by_order(items, o - 1) + with_order(items, o - 1)
    }
}

/// The entities given with a drawing order below `o`, in the order given.
pub open spec fn drawn_below(items: Seq<(EntityId, u8)>, o: int) -> Seq<EntityId>
    decreases items.len(),
{
    if items.len() == 0 {
        Seq::empty()
    } else {
        let rest = drawn_below(items.drop_last(), o);
        if items.last().1 < o {
            rest.push(items.last().0)
        } else {
            rest
        }
    }
}

proof fn empty_to_multiset(s: Seq<EntityId>)
    requires
        s.len() == 0,
    ensures
        s.to_multiset() =~= Multiset::empty(),
{
    vstd::seq_lib::to_multiset_len(s);
    vstd::multiset::lemma_multiset_empty_len(s.to_multiset());
}

proof fn lemma_drawn_below_step(items: Seq<(EntityId, u8)>, o: int)
    ensures
        drawn_below(items, o + 1).to_multiset() =~= drawn_below(items, o).to_multiset().add(
            with_order(items, o).to_multiset(),
        ),
    decreases items.len(),
{
    broadcast use vstd::seq_lib::to_multiset_build, vstd::multiset::group_multiset_axioms;

    if items.len() > 0 {
        lemma_drawn_below_step(items.drop_last(), o);
    } else {
        empty_to_multiset(drawn_below(items, o + 1));
        empty_to_multiset(drawn_below(items, o));
        empty_to_multiset(with_order(items, o));
    }
}

proof fn lemma_drawn_below_zero(items: Seq<(EntityId, u8)>)
    ensures
        drawn_below(items, 0) == Seq::<EntityId>::empty(),
    decreases items.len(),
{
    if items.len() > 0 {
        lemma_drawn_below_zero(items.drop_last());
    }
}

proof fn lemma_drawn_below_all(items: Seq<(EntityId, u8)>)
    ensures
        drawn_below(items, 256) == items.map_values(|x: (EntityId, u8)| x.0),
    decreases items.len(),
{
    if items.len() > 0 {
        lemma_drawn_below_all(items.drop_last());
        assert(items.map_values(|x: (EntityId, u8)| x.0) =~= items.drop_last().map_values(
            |x: (EntityId, u8)| x.0,
        ).push(items.last().0));
    } else {
        assert(items.map_values(|x: (EntityId, u8)| x.0) =~= Seq::<EntityId>::empty());
    }
}

proof fn lemma_sorted_is_drawn_below(items: Seq<(EntityId, u8)>, k: int)
    requires
        0 <= k,
    ensures
        sorted_by_order(items, k).to_multiset() =~= drawn_below(items, k).to_multiset(),
    decreases k,
{
    broadcast use vstd::multiset::group_multiset_axioms;

    if k > 0 {
        lemma_sorted_is_drawn_below(items, k - 1);
        lemma_drawn_below_step(items, k - 1);
        vstd::seq_lib::lemma_multiset_commutative(sorted_by_order(items, k - 1), with_order(items, k - 1));
    } else {
        lemma_drawn_below_zero(items);
        empty_to_multiset(sorted_by_order(items, k));
        empty_to_multiset(drawn_below(items, k));
    }
}

/// The drawing order neither loses nor adds an entity: it lists exactly the
/// entities given, each as often as it was given.
pub proof fn lemma_render_order_keeps_entities(items: Seq<(EntityId, u8)>)
    ensures
        sorted_by_order(items, 256).to_multiset() == items.map_values(|x: (EntityId, u8)| x.0).to_multiset(),
        sorted_by_order(items, 256).len() == items.len(),
{
    lemma_sorted_is_drawn_below(items, 256);
    lemma_drawn_below_all(items);
    vstd::seq_lib::to_multiset_len(sorted_by_order(items, 256));
    vstd::seq_lib::to_multiset_len(items.map_values(|x: (EntityId, u8)| x.0));
}

/// The drawing order: the entities sorted by their order, lower first, and
/// entities of the same order kept in the order given.
pub fn update_render_order(items: &Vec<(EntityId, u8)>) -> (r: RenderOrder)
    ensures
        r.0@ == sorted_by_order(items@, 256),
{
    let mut out: Vec<EntityId> = Vec::new();
    let mut o: u32 = 0;
    while o < 256
        invariant
            o <= 256,
            out@ == sorted_by_order(items@, o as int),
        decreases 256 - o,
    {
        let ghost before = out@;
        let mut i: usize = 0;
        while i < items.len()
            invariant
                i <= items@.len(),
                o < 256,
                out@ == before + with_order(items@.take(i as int), o as int),
            decreases items@.len() - i,
        {
            assert(items@.take(i as int + 1).drop_last() =~= items@.take(i as int));
            if items[i].1 as u32 == o {
                out.push(items[i].0);
            }
            i = i + 1;
        }
        assert(items@.take(items@.len() as int) =~= items@);
        o = o + 1;
    }
    RenderOrder(out)
}

/// The height of the strip under the map that holds the stats and the log.
#[derive(Clone, Copy, PartialEq, Eq, Structural, Debug)]
pub struct BottomSize {
    pub height: u32,
}

impl BottomSize {
    /// 10 rows.
    pub fn default() -> (r: BottomSize)
        ensures
            r.height == 10,
    {
        BottomSize { height: 10 }
    }
}

/// The width of the strip left of the map that holds actor information.
#[derive(Clone, Copy, PartialEq, Eq, Structural, Debug)]
pub struct LeftSize {
    pub width: u32,
}

impl LeftSize {
    /// 20 columns.
    pub fn default() -> (r: LeftSize)
        ensures
            r.width == 20,
    {
        LeftSize { width: 20 }
    }
}

/// Asks to change the sprite magnification by this much.
#[derive(Clone, Copy, PartialEq, Eq, Structural, Debug)]
pub struct WindowChangeEvent(pub i32);

/// How many times larger than 8 by 8 pixels a tile is drawn.
#[derive(Clone, Copy, PartialEq, Eq, Structural, Debug)]
pub struct SpriteMagnification(pub u32);

impl SpriteMagnification {
    /// Drawn at their own size.
    pub fn default() -> (r: SpriteMagnification)
        ensures
            r.0 == 1,
    {
        SpriteMagnification(1)
    }
}

/// Resizing: the first change asked for is applied, keeping the
/// magnification within 1 to 4, and the window then measures 8 pixels per
/// tile times the magnification, over the map and the strip below it.
pub fn change_size(
    change: Option<WindowChangeEvent>,
    map_size: &MapSize,
    bottom_size: &BottomSize,
    magnification: &mut SpriteMagnification,
) -> (r: Option<(u64, u64)>)
    ensures
        match change {
            Some(ev) => {
                let m = if old(magnification).0 + ev.0 < 1 {
                    1
                } else if old(magnification).0 + ev.0 > 4 {
                    4
                } else {
                    old(magnification).0 + ev.0
                };
                &&& final(magnification).0 == m
                &&& r == Some(
                    (
                        (8 * m * map_size.width) as u64,
                        (8 * m * (map_size.height + bottom_size.height)) as u64,
                    ),
                )
            },
            None => r is None && final(magnification).0 == old(magnification).0,
        },
{
    match change {
        None => None,
        Some(ev) => {
            let to_be: i64 = magnification.0 as i64 + ev.0 as i64;
            let m: u32 = if to_be < 1 {
                1
            } else if to_be > 4 {
                4
            } else {
                to_be as u32
            };
            magnification.0 = m;
            let scale: u64 = 8 * m as u64;
            let rows: u64 = map_size.height as u64 + bottom_size.height as u64;
            assert(scale * map_size.width <= 32 * 0x1_0000_0000) by (nonlinear_arith)
                requires
                    8 <= scale <= 32,
                    map_size.width <= 0x1_0000_0000,
            ;
            assert(scale * rows <= 32 * 0x2_0000_0000) by (nonlinear_arith)
                requires
                    8 <= scale <= 32,
                    rows <= 0x2_0000_0000,
            ;
            let w: u64 = scale * map_size.width as u64;
            let h: u64 = scale * rows;
            Some((w, h))
        },
    }
}

/// Setup: the window grows to twice its size, and a new game starts.
pub fn setup() -> (r: (WindowChangeEvent, GameState))
    ensures
        r == (WindowChangeEvent(1), GameState::Restart),
{
    (WindowChangeEvent(1), GameState::Restart)
}

/// The words of welcome a new game's log starts with.
pub open spec fn welcome_text() -> Seq<char> {
    " Welcome to Cock's Conquest!  \n Play with your index finger on j or numpad 4. You can move cardinally, diagonally, or wait.  \n Press v to heal.  \n You can restart with shift+r at any time."@
}

/// The log of a new game: one line of welcome, in cyan.
pub fn restart_log() -> (r: Log)
    ensures
        r.lines@.len() == 1,
        line_texts(r.lines@[0]@) == split_inclusive(welcome_text(), false),
        all_colored(r.lines@[0]@, Palette::Cyan),
{
    let mut lines: Vec<Vec<LogFragment>> = Vec::new();
    lines.push(
        fragment_string(
            String::from_str(
                " Welcome to Cock's Conquest!  \n Play with your index finger on j or numpad 4. You can move cardinally, diagonally, or wait.  \n Press v to heal.  \n You can restart with shift+r at any time.",
            ),
            Palette::Cyan,
        ),
    );
    Log { lines }
}

/// A tile of a passing effect, at a map position.
#[derive(Clone, Copy, PartialEq, Eq, Structural, Debug)]
pub struct EffectTile {
    pub position: IVec2,
    pub tile: Tile,
}

/// One frame of an effect: its tiles, shown for a time (in nanoseconds).
pub struct EffectFragment {
    pub duration_nanos: u128,
    pub tiles: Vec<EffectTile>,
}

/// A passing effect (such as a projectile's flight): its frames in order and
/// how long it has run.
pub struct Effect {
    pub current_time_nanos: u128,
    pub fragments: Vec<EffectFragment>,
}

/// The time at which the first `n` frames are over.
pub open spec fn frames_end(fragments: Seq<EffectFragment>, n: int) -> int
    decreases n,
{
    if n <= 0 {
        0
    } else {
        frames_end(fragments, n - 1) + fragments[n - 1].duration_nanos
    }
}

/// The index of the frame showing at `time`: the first that is not over by
/// then.
pub open spec fn frame_at(fragments: Seq<EffectFragment>, time: int, from: int) -> Option<int>
    decreases fragments.len() - from,
{
    if from < 0 || from >= fragments.len() {
        None
    } else if time <= frames_end(fragments, from + 1) {
        Some(from)
    } else {
        frame_at(fragments, time, from + 1)
    }
}

proof fn lemma_frames_end_grows(fragments: Seq<EffectFragment>, a: int, b: int)
    requires
        0 <= a <= b,
    ensures
        frames_end(fragments, a) <= frames_end(fragments, b),
    decreases b - a,
{
    if a < b {
        lemma_frames_end_grows(fragments, a, b - 1);
    }
}

impl Effect {
    /// A new effect with no frames.
    pub fn default() -> (r: Effect)
        ensures
            r.current_time_nanos == 0,
            r.fragments@.len() == 0,
    {
        Effect { current_time_nanos: 0, fragments: Vec::new() }
    }

    /// The frame showing at `time` (in nanoseconds), or `None` once the
    /// effect is over.
    pub fn fragment_from_time(&self, time: u128) -> (r: Option<&EffectFragment>)
        requires
            frames_end(self.fragments@, self.fragments@.len() as int) <= u128::MAX,
        ensures
            r == (match frame_at(self.fragments@, time as int, 0) {
                Some(i) => Some(&self.fragments@[i]),
                None => None,
            }),
    {
        let mut end: u128 = 0;
        let mut i: usize = 0;
        while i < self.fragments.len()
            invariant
                i <= self.fragments@.len(),
                frames_end(self.fragments@, self.fragments@.len() as int) <= u128::MAX,
                end == frames_end(self.fragments@, i as int),
                frame_at(self.fragments@, time as int, 0) == frame_at(self.fragments@, time as int, i as int),
            decreases self.fragments@.len() - i,
        {
            proof {
                lemma_frames_end_grows(self.fragments@, i as int + 1, self.fragments@.len() as int);
            }
            end = end + self.fragments[i].duration_nanos;
            if time <= end {
                return Some(&self.fragments[i]);
            }
            i = i + 1;
        }
        None
    }
}

/// Registers the game's setup.
pub struct SetupPlugin;

/// Registers the drawing resources.
pub struct RenderingPlugin;

/// What text placement does at the end of a line: wrap past the given
/// column, or only at the terminal's edge.
#[derive(Clone, Copy, PartialEq, Eq, Structural, Debug)]
pub enum EolAction {
    Wrap(i32),
    /// Only at the terminal's edge.
    AtEdge,
}

/// Whether a point lies on a terminal of the given width and height.
pub open spec fn on_terminal(size: (u32, u32), x: int, y: int) -> bool {
    0 <= x < size.0 && 0 <= y < size.1
}

/// Where placing text stands: the cursor, the fragments placed so far (by
/// position and index), and whether it has stopped for want of room.
pub struct Placement {
    pub x: int,
    pub y: int,
    pub placed: Seq<(IVec2, int)>,
    pub stopped: bool,
}

/// One fragment placed: `"\n "` starts the next line down, an empty text is
/// skipped, and a text that would pass the wrap column (if wrapping) or the
/// terminal's edge starts the next line down; where it does not fit there
/// either, placing stops.
pub open spec fn place_step(
    st: Placement,
    start: IVec2,
    size: (u32, u32),
    eol: EolAction,
    text: Seq<char>,
    index: int,
) -> Placement {
    let n = crate::log::byte_len(text) as int;
    if st.stopped {
        st
    } else if text == "\n "@ {
        Placement { x: start.x as int, y: st.y - 1, placed: st.placed, stopped: false }
    } else if text.len() == 0 {
        st
    } else {
        let wrapped = match eol {
            EolAction::Wrap(w) => st.x + n > w,
            EolAction::AtEdge => false,
        };
        let (x1, y1) = if wrapped {
            (start.x as int, st.y - 1)
        } else {
            (st.x, st.y)
        };
        if wrapped && !on_terminal(size, x1 + n, y1) {
            Placement { x: x1, y: y1, placed: st.placed, stopped: true }
        } else if !on_terminal(size, x1 - 1 + n, y1) {
            if !on_terminal(size, start.x - 1 + n, y1 - 1) {
                Placement { x: start.x as int, y: y1 - 1, placed: st.placed, stopped: true }
            } else {
                Placement {
                    x: start.x + n,
                    y: y1 - 1,
                    placed: st.placed.push((IVec2 { x: start.x, y: (y1 - 1) as i32 }, index)),
                    stopped: false,
                }
            }
        } else {
            Placement { x: x1 + n, y: y1, placed: st.placed.push((IVec2 { x: x1 as i32, y: y1 as i32 }, index)), stopped: false }
        }
    }
}

/// The placement of the first `k` fragments.
pub open spec fn placement(
    texts: Seq<Seq<char>>,
    start: IVec2,
    size: (u32, u32),
    eol: EolAction,
    k: int,
) -> Placement
    decreases k,
{
    if k <= 0 {
        Placement { x: start.x as int, y: start.y as int, placed: Seq::empty(), stopped: false }
    } else {
        place_step(placement(texts, start, size, eol, k - 1), start, size, eol, texts[k - 1], k - 1)
    }
}

/// The texts of the fragments.
pub open spec fn texts_of(fragments: Seq<LogFragment>) -> Seq<Seq<char>> {
    Seq::new(fragments.len(), |i: int| fragments[i].text@)
}

/// Where the fragments of a line go on a terminal of the given size,
/// starting at `start` and moving down a line when one is full (see
/// `place_step`): each placed fragment with its position and index, and the
/// cursor at the end.
pub fn put_string_vec_formatted(
    start: IVec2,
    fragments: &Vec<LogFragment>,
    size: (u32, u32),
    eol: EolAction,
) -> (r: (Vec<(IVec2, usize)>, i64, i64))
    requires
        fragments@.len() <= i32::MAX,
        forall|i: int| 0 <= i < fragments@.len() ==> crate::log::byte_len((#[trigger] fragments@[i]).text@) <= i32::MAX,
    ensures
        ({
            let p = placement(texts_of(fragments@), start, size, eol, fragments@.len() as int);
            &&& r.1 == p.x
            &&& r.2 == p.y
            &&& r.0@.len() == p.placed.len()
            &&& forall|i: int| 0 <= i < r.0@.len() ==> (#[trigger] r.0@[i]).0 == p.placed[i].0 && r.0@[i].1 == p.placed[i].1
        }),
{
    let ghost texts = texts_of(fragments@);
    let mut placed: Vec<(IVec2, usize)> = Vec::new();
    let mut x: i64 = start.x as i64;
    let mut y: i64 = start.y as i64;
    let mut stopped = false;
    let w = size.0 as i64;
    let h = size.1 as i64;
    let mut i: usize = 0;
    while i < fragments.len()
        invariant
            i <= fragments@.len(),
            fragments@.len() <= i32::MAX,
            texts == texts_of(fragments@),
            w == size.0,
            h == size.1,
            forall|k: int| 0 <= k < fragments@.len() ==> crate::log::byte_len((#[trigger] fragments@[k]).text@) <= i32::MAX,
            ({
                let p = placement(texts, start, size, eol, i as int);
                &&& x == p.x
                &&& y == p.y
                &&& stopped == p.stopped
                &&& placed@.len() == p.placed.len()
                &&& forall|k: int| 0 <= k < placed@.len() ==> (#[trigger] placed@[k]).0 == p.placed[k].0 && placed@[k].1 == p.placed[k].1
            }),
            -0x1_0000_0000 <= x <= 0x3_0000_0000,
            start.y - 2 * i <= y <= start.y,
        decreases fragments@.len() - i,
    {
        let ghost before = placement(texts, start, size, eol, i as int);
        let ghost old_placed = placed@;
        assert(texts[i as int] == fragments@[i as int].text@);
        if !stopped {
            let t = fragments[i].text.as_str();
            let n = t.len() as i64;
            assert(n == crate::log::byte_len(texts[i as int]));
            if is_newline_marker(&fragments[i].text) {
                x = start.x as i64;
                y = y - 1;
            } else if n == 0 {
            } else {
                let wrapped = match eol {
                    EolAction::Wrap(wc) => x + n > wc as i64,
                    EolAction::AtEdge => false,
                };
                if wrapped {
                    x = start.x as i64;
                    y = y - 1;
                }
                if wrapped && !(0 <= x + n && x + n < w && 0 <= y && y < h) {
                    stopped = true;
                } else if !(0 <= x - 1 + n && x - 1 + n < w && 0 <= y && y < h) {
                    x = start.x as i64;
                    y = y - 1;
                    if !(0 <= x - 1 + n && x - 1 + n < w && 0 <= y && y < h) {
                        stopped = true;
                    } else {
                        placed.push((IVec2 { x: start.x, y: y as i32 }, i));
                        x = x + n;
                    }
                } else {
                    placed.push((IVec2 { x: x as i32, y: y as i32 }, i));
                    x = x + n;
                }
            }
        }
        proof {
            let after = placement(texts, start, size, eol, i as int + 1);
            assert(after == place_step(before, start, size, eol, texts[i as int], i as int));
            assert forall|k: int| 0 <= k < placed@.len() implies (#[trigger] placed@[k]).0 == after.placed[k].0
                && placed@[k].1 == after.placed[k].1 by {
                if k < old_placed.len() {
                    assert(placed@[k] == old_placed[k]);
                }
            }
        }
        i = i + 1;
    }
    (placed, x, y)
}

/// One plain string placed: `"\n "` starts the next line down; a string that
/// would reach past the terminal's edge starts the next line down, and where
/// it does not fit there either, placing stops.
pub open spec fn plain_place_step(st: Placement, start: IVec2, size: (u32, u32), text: Seq<char>, index: int) -> Placement {
    let n = crate::log::byte_len(text) as int;
    if st.stopped {
        st
    } else if text == "\n "@ {
        Placement { x: start.x as int, y: st.y - 1, placed: st.placed, stopped: false }
    } else if !on_terminal(size, st.x + n, st.y) {
        if !on_terminal(size, start.x + n, st.y - 1) {
            Placement { x: start.x as int, y: st.y - 1, placed: st.placed, stopped: true }
        } else {
            Placement {
                x: start.x + n,
                y: st.y - 1,
                placed: st.placed.push((IVec2 { x: start.x, y: (st.y - 1) as i32 }, index)),
                stopped: false,
            }
        }
    } else {
        Placement { x: st.x + n, y: st.y, placed: st.placed.push((IVec2 { x: st.x as i32, y: st.y as i32 }, index)), stopped: false }
    }
}

/// The placement of the first `k` plain strings.
pub open spec fn plain_placement(texts: Seq<Seq<char>>, start: IVec2, size: (u32, u32), k: int) -> Placement
    decreases k,
{
    if k <= 0 {
        Placement { x: start.x as int, y: start.y as int, placed: Seq::empty(), stopped: false }
    } else {
        plain_place_step(plain_placement(texts, start, size, k - 1), start, size, texts[k - 1], k - 1)
    }
}

/// Where plain strings go on a terminal of the given size, starting at
/// `start` and moving down a line when one is full (see `plain_place_step`):
/// each placed string with its position and index, and the cursor at the end.
pub fn put_string_vec(start: IVec2, strings: &Vec<String>, size: (u32, u32)) -> (r: (Vec<(IVec2, usize)>, i64, i64))
    requires
        strings@.len() <= i32::MAX,
        forall|i: int| 0 <= i < strings@.len() ==> crate::log::byte_len((#[trigger] strings@[i])@) <= i32::MAX,
    ensures
        ({
            let texts = Seq::new(strings@.len(), |i: int| strings@[i]@);
            let p = plain_placement(texts, start, size, strings@.len() as int);
            &&& r.1 == p.x
            &&& r.2 == p.y
            &&& r.0@.len() == p.placed.len()
            &&& forall|i: int| 0 <= i < r.0@.len() ==> (#[trigger] r.0@[i]).0 == p.placed[i].0 && r.0@[i].1 == p.placed[i].1
        }),
{
    let ghost texts = Seq::new(strings@.len(), |i: int| strings@[i]@);
    let mut placed: Vec<(IVec2, usize)> = Vec::new();
    let mut x: i64 = start.x as i64;
    let mut y: i64 = start.y as i64;
    let mut stopped = false;
    let w = size.0 as i64;
    let h = size.1 as i64;
    let mut i: usize = 0;
    while i < strings.len()
        invariant
            i <= strings@.len(),
            strings@.len() <= i32::MAX,
            texts == Seq::new(strings@.len(), |j: int| strings@[j]@),
            w == size.0,
            h == size.1,
            forall|k: int| 0 <= k < strings@.len() ==> crate::log::byte_len((#[trigger] strings@[k])@) <= i32::MAX,
            ({
                let p = plain_placement(texts, start, size, i as int);
                &&& x == p.x
                &&& y == p.y
                &&& stopped == p.stopped
                &&& placed@.len() == p.placed.len()
                &&& forall|k: int| 0 <= k < placed@.len() ==> (#[trigger] placed@[k]).0 == p.placed[k].0 && placed@[k].1 == p.placed[k].1
            }),
            -0x1_0000_0000 <= x <= 0x3_0000_0000,
            start.y - i <= y <= start.y,
        decreases strings@.len() - i,
    {
        let ghost before = plain_placement(texts, start, size, i as int);
        let ghost old_placed = placed@;
        assert(texts[i as int] == strings@[i as int]@);
        if !stopped {
            let n = strings[i].as_str().len() as i64;
            assert(n == crate::log::byte_len(texts[i as int]));
            if is_newline_marker(&strings[i]) {
                x = start.x as i64;
                y = y - 1;
            } else if !(0 <= x + n && x + n < w && 0 <= y && y < h) {
                x = start.x as i64;
                y = y - 1;
                if !(0 <= x + n && x + n < w && 0 <= y && y < h) {
                    stopped = true;
                } else {
                    placed.push((IVec2 { x: start.x, y: y as i32 }, i));
                    x = x + n;
                }
            } else {
                placed.push((IVec2 { x: x as i32, y: y as i32 }, i));
                x = x + n;
            }
        }
        proof {
            let after = plain_placement(texts, start, size, i as int + 1);
            assert(after == plain_place_step(before, start, size, texts[i as int], i as int));
            assert forall|k: int| 0 <= k < placed@.len() implies (#[trigger] placed@[k]).0 == after.placed[k].0
                && placed@[k].1 == after.placed[k].1 by {
                if k < old_placed.len() {
                    assert(placed@[k] == old_placed[k]);
                }
            }
        }
        i = i + 1;
    }
    (placed, x, y)
}

/// Whether the text is the line-break marker `"\n "`.
fn is_newline_marker(s: &String) -> (r: bool)
    ensures
        r == (s@ == "\n "@),
{
    let chars = crate::log::chars_of(s.as_str());
    proof {
        reveal_strlit("\n ");
    }
    if chars.len() == 2 && chars[0] == '\n' && chars[1] == ' ' {
        assert(chars@ =~= "\n "@);
        true
    } else {
        false
    }
}

/// How a tile goes over what is already drawn: a tile with a transparent
/// ground keeps the ground under it.
pub open spec fn spec_layer_tile(tile: Tile, under: Tile) -> Tile {
    if tile.bg_color == Palette::Transparent {
        Tile { glyph: tile.glyph, fg_color: tile.fg_color, bg_color: under.bg_color }
    } else {
        tile
    }
}

/// Draws a tile over another.
pub fn layer_tile(tile: Tile, under: Tile) -> (r: Tile)
    ensures
        r == spec_layer_tile(tile, under),
{
    if tile.bg_color == Palette::Transparent {
        Tile { glyph: tile.glyph, fg_color: tile.fg_color, bg_color: under.bg_color }
    } else {
        tile
    }
}

} // verus!
