use vstd::prelude::*;
use crate::log::chars_of;

verus! {

/// Whether a character is an ASCII digit.
pub open spec fn is_digit(c: char) -> bool {
    '0' <= c <= '9'
}

/// A character that a plain dice expression may hold: a digit, the die
/// letter `d`, `+`, `-`, `*`, a parenthesis or a space.
pub open spec fn plain_dice_char(c: char) -> bool {
    is_digit(c) || c == 'd' || c == '+' || c == '-' || c == '*' || c == '(' || c == ')' || c == ' '
}

/// Whether five digits in a row start at `i`.
pub open spec fn long_number_at(e: Seq<char>, i: int) -> bool {
    is_digit(e[i]) && is_digit(e[i + 1]) && is_digit(e[i + 2]) && is_digit(e[i + 3]) && is_digit(
        e[i + 4],
    )
}

/// A dice expression of the plain kind: at most 64 characters, all of them
/// plain, no number of more than four digits, and at most one `*`.
///
/// Within this kind every roll of an expression fails or every roll
/// succeeds, its total stays far from the bounds of an `i64`, and rolling it
/// neither panics nor loops; options, repetition, division and reasons are
/// outside it.
pub open spec fn plain_dice_text(e: Seq<char>) -> bool {
    &&& e.len() <= 64
    &&& forall|i: int| 0 <= i < e.len() ==> #[trigger] plain_dice_char(e[i])
    &&& forall|i: int| 0 <= i && i + 4 < e.len() ==> !#[trigger] long_number_at(e, i)
    &&& forall|i: int, j: int| 0 <= i < j < e.len() && e[i] == '*' ==> e[j] != '*'
}

/// Whether a roll of the dice expression can come out with the given total.
pub uninterp spec fn possible_total(expression: Seq<char>, total: int) -> bool;

/// The game's dice expressions are all of the plain kind.
pub proof fn lemma_game_dice_are_plain()
    ensures
        plain_dice_text("1d4 * -1"@),
        plain_dice_text("1d2 * -1"@),
        plain_dice_text("0"@),
        plain_dice_text("-5"@),
        plain_dice_text("1d20"@),
{
    reveal_strlit("1d4 * -1");
    reveal_strlit("1d2 * -1");
    reveal_strlit("0");
    reveal_strlit("-5");
    reveal_strlit("1d20");
    assert(plain_dice_text("1d4 * -1"@));
    assert(plain_dice_text("1d2 * -1"@));
    assert(plain_dice_text("0"@));
    assert(plain_dice_text("-5"@));
    assert(plain_dice_text("1d20"@));
}

/// Whether the expression has a possible total and all of its possible
/// totals fit in an `i32`.
pub open spec fn rolls_within_i32(e: Seq<char>) -> bool {
    &&& exists|t: int| #[trigger] possible_total(e, t)
    &&& forall|t: int| #[trigger] possible_total(e, t) ==> i32::MIN <= t <= i32::MAX
}

/// Whether `t` can be what a fresh roll of the dice gives: a possible total
/// of the expression, or the dice's last total where the roll does not come
/// back; always a possible total where every roll of the expression comes
/// back within an `i32`.
pub open spec fn rolled_from(d: Dice, t: i32) -> bool {
    &&& t == d.total || possible_total(d.expression@, t as int)
    &&& plain_dice_text(d.expression@) && rolls_within_i32(d.expression@) ==> possible_total(
        d.expression@,
        t as int,
    )
}

/// Rolls a plain dice expression with `caith` (`Roller::new`, `Roller::roll`,
/// `RollResult::get_result` and the total of a single roll), and gives the
/// printed roll and its total. Within the plain kind the roll comes back
/// exactly where the expression has a possible total at all (whether it
/// parses, and the limits on dice and sides, do not depend on chance), and
/// its total is one of the possible totals. Which one, and the text, rest on
/// chance and are not stated.
#[verifier::external_body]
fn roll_expression(expression: &str) -> (r: Option<(String, i64)>)
    requires
        plain_dice_text(expression@),
    ensures
        r is Some <==> exists|t: int| #[trigger] possible_total(expression@, t),
        r matches Some((_, t)) ==> possible_total(expression@, t as int),
{
    let roll = caith::Roller::new(expression).ok()?.roll().ok()?;
    match roll.get_result() {
        caith::RollResultType::Single(result) => Some((format!("{}", roll), result.get_total())),
        caith::RollResultType::Repeated(result) => result.get_total().map(
            |t| (format!("{}", roll), t),
        ),
    }
}

/// Whether a dice expression is of the plain kind.
pub fn is_plain_dice_text(expression: &str) -> (b: bool)
    ensures
        b == plain_dice_text(expression@),
{
    let chars = chars_of(expression);
    let n = chars.len();
    if n > 64 {
        return false;
    }
    let mut seen_star = false;
    let ghost mut star_at: int = 0;
    let mut i: usize = 0;
    while i < n
        invariant
            chars@ == expression@,
            n == chars.len(),
            n <= 64,
            i <= n,
            forall|k: int| 0 <= k < i ==> #[trigger] plain_dice_char(chars@[k]),
            forall|k: int| 0 <= k && k + 4 < i ==> !#[trigger] long_number_at(chars@, k),
            forall|k: int, j: int| 0 <= k < j < i && chars@[k] == '*' ==> chars@[j] != '*',
            seen_star ==> 0 <= star_at < i && chars@[star_at] == '*',
            !seen_star ==> forall|k: int| 0 <= k < i ==> chars@[k] != '*',
        decreases n - i,
    {
        let c = chars[i];
        let digit = c >= '0' && c <= '9';
        if !(digit || c == 'd' || c == '+' || c == '-' || c == '*' || c == '(' || c == ')' || c
            == ' ') {
            assert(!plain_dice_char(chars@[i as int]));
            return false;
        }
        if i >= 4 {
            let a = chars[i - 4];
            let b = chars[i - 3];
            let e = chars[i - 2];
            let f = chars[i - 1];
            if a >= '0' && a <= '9' && b >= '0' && b <= '9' && e >= '0' && e <= '9' && f >= '0'
                && f <= '9' && digit {
                assert(long_number_at(chars@, i - 4));
                return false;
            }
        }
        if c == '*' {
            if seen_star {
                assert(chars@[star_at] == '*' && star_at < i);
                return false;
            }
            seen_star = true;
            proof {
                star_at = i as int;
            }
        }
        i += 1;
    }
    true
}

/// A dice expression and the outcome of its latest roll.
#[derive(Clone)]
pub struct Dice {
    pub expression: String,
    pub reason: String,
    pub total: i32,
}

/// Whether the total of a roll fits in an `i32`.
pub open spec fn roll_fits(roll: Option<(String, i64)>) -> bool {
    match roll {
        Some((_, t)) => i32::MIN <= t <= i32::MAX,
        None => false,
    }
}

impl Dice {
    /// The dice with the given expression and the given roll of it, where the
    /// roll succeeded with a total that fits in an `i32`.
    pub fn from_roll(expression: String, roll: Option<(String, i64)>) -> (r: Option<Dice>)
        ensures
            r is Some <==> roll_fits(roll),
            r matches Some(d) ==> d.expression@ == expression@ && d.reason@ == roll->Some_0.0@
                && d.total == roll->Some_0.1,
    {
        match roll {
            Some((reason, total)) => {
                if total >= i32::MIN as i64 && total <= i32::MAX as i64 {
                    Some(Dice { expression, reason, total: total as i32 })
                } else {
                    None
                }
            },
            None => None,
        }
    }

    /// Rolls the expression once. `None` where the expression is not of the
    /// plain kind, or its roll fails or comes out beyond an `i32`.
    pub fn new(expression: &str) -> (r: Option<Dice>)
        ensures
            r matches Some(d) ==> d.expression@ == expression@ && plain_dice_text(expression@)
                && possible_total(expression@, d.total as int),
            !plain_dice_text(expression@) ==> r is None,
            plain_dice_text(expression@) && rolls_within_i32(expression@) ==> r is Some,
    {
        if !is_plain_dice_text(expression) {
            return None;
        }
        let roll = roll_expression(expression);
        Dice::from_roll(String::from_str(expression), roll)
    }

    /// The text and total of a roll of the expression, where it succeeds with a
    /// total that fits in an `i32`.
    pub fn parse_outcome(roll: Option<(String, i64)>) -> (r: Option<(String, i32)>)
        ensures
            r is Some <==> roll_fits(roll),
            r matches Some(o) ==> o.0@ == roll->Some_0.0@ && o.1 == roll->Some_0.1,
    {
        match roll {
            Some((reason, total)) => {
                if total >= i32::MIN as i64 && total <= i32::MAX as i64 {
                    Some((reason, total as i32))
                } else {
                    None
                }
            },
            None => None,
        }
    }

    fn parse_string(string: &str) -> (r: Option<(String, i32)>)
        ensures
            r matches Some(o) ==> plain_dice_text(string@) && possible_total(string@, o.1 as int),
            plain_dice_text(string@) && rolls_within_i32(string@) ==> r is Some,
    {
        if !is_plain_dice_text(string) {
            return None;
        }
        Dice::parse_outcome(roll_expression(string))
    }

    /// The total of a fresh roll of the expression, or the current total
    /// where the roll fails; the dice themselves are left as they are.
    pub fn rolled_total(&self) -> (r: i32)
        ensures
            rolled_from(*self, r),
    {
        match Dice::parse_string(self.expression.as_str()) {
            Some((_, total)) => total,
            None => self.total,
        }
    }

    /// Takes a new roll as the dice's outcome.
    pub fn record_roll(&mut self, outcome: Option<(String, i32)>) -> (r: Option<(String, i32)>)
        ensures
            final(self).expression@ == old(self).expression@,
            r == outcome,
            match outcome {
                Some((reason, total)) => final(self).reason@ == reason@ && final(self).total == total,
                None => final(self).reason@ == old(self).reason@ && final(self).total == old(self).total,
            },
    {
        match &outcome {
            Some((reason, total)) => {
                self.reason = reason.clone();
                self.total = *total;
            },
            None => {},
        }
        outcome
    }

    /// Rolls the expression again and records the outcome; where the roll
    /// fails the dice keep their last outcome and `None` is returned.
    pub fn roll(&mut self) -> (r: Option<(String, i32)>)
        ensures
            final(self).expression@ == old(self).expression@,
            r matches Some((_, total)) ==> possible_total(old(self).expression@, total as int),
            plain_dice_text(old(self).expression@) && rolls_within_i32(old(self).expression@)
                ==> r is Some,
            match r {
                Some((reason, total)) => final(self).reason@ == reason@ && final(self).total == total,
                None => final(self).reason@ == old(self).reason@ && final(self).total == old(self).total,
            },
    {
        let outcome = Dice::parse_string(self.expression.as_str());
        self.record_roll(outcome)
    }
}

} // verus!
