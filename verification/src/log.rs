use vstd::prelude::*;
use vstd::utf8::encode_utf8;

use crate::color::Palette;

verus! {

// ---------------------------------------------------------------------------
// Characters and strings
// ---------------------------------------------------------------------------

/// The characters of a string slice, in order.
pub(crate) fn chars_of(s: &str) -> (r: Vec<char>)
    ensures
        r@ == s@,
{
    broadcast use vstd::string::group_string_axioms;

    let mut it = s.chars();
    let mut out: Vec<char> = Vec::new();
    loop
        invariant
            out@ + vstd::std_specs::iter::IteratorSpec::remaining(&it) == s@,
            vstd::std_specs::iter::IteratorSpec::decrease(&it) is Some,
        ensures
            out@ == s@,
        decreases vstd::std_specs::iter::IteratorSpec::decrease(&it)->0,
    {
        let ghost before = vstd::std_specs::iter::IteratorSpec::remaining(&it);
        match it.next() {
            Some(c) => {
                out.push(c);
                assert(out@ + vstd::std_specs::iter::IteratorSpec::remaining(&it) =~= s@) by {
                    assert(before =~= seq![c] + before.drop_first());
                }
            },
            None => {
                assert(out@ =~= s@);
                break ;
            },
        }
    }
    out
}

/// The string made of the given characters (`String::from_iter`).
#[verifier::external_body]
pub(crate) fn string_of(chars: &Vec<char>) -> (r: String)
    ensures
        r@ == chars@,
{
    String::from_iter(chars.iter())
}

/// The number of bytes of the UTF-8 encoding of the text, which is what
/// `str::len` counts.
pub open spec fn byte_len(s: Seq<char>) -> nat {
    encode_utf8(s).len()
}

/// The number of bytes of the UTF-8 encoding of a character.
pub open spec fn char_width(c: char) -> nat {
    let v = c as u32;
    if v <= 0x7F {
        1
    } else if v <= 0x7FF {
        2
    } else if v <= 0xFFFF {
        3
    } else {
        4
    }
}

/// Encoding two texts one after the other encodes each in turn.
pub proof fn lemma_encode_concat(a: Seq<char>, b: Seq<char>)
    ensures
        encode_utf8(a + b) == encode_utf8(a) + encode_utf8(b),
    decreases a.len(),
{
    if a.len() == 0 {
        assert(a + b =~= b);
        assert(encode_utf8(a) =~= Seq::<u8>::empty());
        assert(encode_utf8(b) =~= Seq::<u8>::empty() + encode_utf8(b));
    } else {
        lemma_encode_concat(a.drop_first(), b);
        assert((a + b).drop_first() =~= a.drop_first() + b);
        assert((a + b)[0] == a[0]);
        assert(encode_utf8(a + b) =~= encode_utf8(a) + encode_utf8(b));
    }
}

/// A character added at the end adds its width to the byte length.
pub proof fn lemma_byte_len_push(s: Seq<char>, c: char)
    ensures
        byte_len(s.push(c)) == byte_len(s) + char_width(c),
{
    lemma_encode_concat(s, seq![c]);
    assert(s.push(c) =~= s + seq![c]);
    assert(seq![c].drop_first() =~= Seq::<char>::empty());
    assert(encode_utf8(seq![c]) =~= vstd::utf8::encode_scalar(c as u32) + encode_utf8(Seq::<char>::empty()));
    vstd::utf8::char_is_scalar(c);
}

/// Whether the UTF-8 encoding of the characters takes more than `limit`
/// bytes.
pub fn byte_len_exceeds(s: &Vec<char>, limit: usize) -> (r: bool)
    ensures
        r == (byte_len(s@) > limit),
{
    let mut total: usize = 0;
    let mut i: usize = 0;
    while i < s.len()
        invariant
            i <= s@.len(),
            total == byte_len(s@.take(i as int)),
            total <= limit,
        decreases s@.len() - i,
    {
        proof {
            lemma_byte_len_push(s@.take(i as int), s@[i as int]);
            assert(s@.take(i as int).push(s@[i as int]) =~= s@.take(i as int + 1));
        }
        let v = s[i] as u32;
        let w: usize = if v <= 0x7F {
            1
        } else if v <= 0x7FF {
            2
        } else if v <= 0xFFFF {
            3
        } else {
            4
        };
        if w > limit - total {
            proof {
                lemma_encode_concat(s@.take(i as int + 1), s@.skip(i as int + 1));
                assert(s@.take(i as int + 1) + s@.skip(i as int + 1) =~= s@);
            }
            return true;
        }
        total = total + w;
        i = i + 1;
    }
    assert(s@.take(s@.len() as int) =~= s@);
    false
}

/// Whether the character has the Unicode `White_Space` property (the property
/// by which `char::is_whitespace` and `str::trim` go).
pub open spec fn is_white_space(c: char) -> bool {
    let u = c as u32;
    ||| 0x09 <= u <= 0x0D
    ||| u == 0x20
    ||| u == 0x85
    ||| u == 0xA0
    ||| u == 0x1680
    ||| 0x2000 <= u <= 0x200A
    ||| u == 0x2028
    ||| u == 0x2029
    ||| u == 0x202F
    ||| u == 0x205F
    ||| u == 0x3000
}

fn white_space(c: char) -> (r: bool)
    ensures
        r == is_white_space(c),
{
    let u = c as u32;
    (0x09 <= u && u <= 0x0D) || u == 0x20 || u == 0x85 || u == 0xA0 || u == 0x1680 || (0x2000
        <= u && u <= 0x200A) || u == 0x2028 || u == 0x2029 || u == 0x202F || u == 0x205F || u
        == 0x3000
}

/// The text without its leading white space.
pub open spec fn trim_start(s: Seq<char>) -> Seq<char>
    decreases s.len(),
{
    if s.len() > 0 && is_white_space(s[0]) {
        trim_start(s.drop_first())
    } else {
        s
    }
}

/// The text without its trailing white space.
pub open spec fn trim_end(s: Seq<char>) -> Seq<char>
    decreases s.len(),
{
    if s.len() > 0 && is_white_space(s.last()) {
        trim_end(s.drop_last())
    } else {
        s
    }
}

/// The text without leading and trailing white space, as `str::trim` gives it.
pub open spec fn trim(s: Seq<char>) -> Seq<char> {
    trim_end(trim_start(s))
}

proof fn lemma_trim_start_at(s: Seq<char>, lo: int)
    requires
        0 <= lo <= s.len(),
        forall|i: int| 0 <= i < lo ==> is_white_space(#[trigger] s[i]),
        lo == s.len() || !is_white_space(s[lo]),
    ensures
        trim_start(s) == s.skip(lo),
    decreases lo,
{
    if lo > 0 {
        assert forall|i: int| 0 <= i < lo - 1 implies is_white_space(#[trigger] s.drop_first()[i]) by {
            assert(s.drop_first()[i] == s[i + 1]);
        }
        if lo - 1 < s.drop_first().len() {
            assert(s.drop_first()[lo - 1] == s[lo]);
        }
        lemma_trim_start_at(s.drop_first(), lo - 1);
        assert(s.drop_first().skip(lo - 1) =~= s.skip(lo));
    } else {
        assert(s.skip(0) =~= s);
    }
}

proof fn lemma_trim_end_at(s: Seq<char>, hi: int)
    requires
        0 <= hi <= s.len(),
        forall|i: int| hi <= i < s.len() ==> is_white_space(#[trigger] s[i]),
        hi == 0 || !is_white_space(s[hi - 1]),
    ensures
        trim_end(s) == s.take(hi),
    decreases s.len() - hi,
{
    if hi < s.len() {
        assert forall|i: int| hi <= i < s.drop_last().len() implies is_white_space(#[trigger] s.drop_last()[i]) by {
            assert(s.drop_last()[i] == s[i]);
        }
        if hi > 0 {
            assert(s.drop_last()[hi - 1] == s[hi - 1]);
        }
        assert(is_white_space(s[s.len() - 1]));
        lemma_trim_end_at(s.drop_last(), hi);
        assert(s.drop_last().take(hi) =~= s.take(hi));
    } else {
        assert(s.take(hi) =~= s);
    }
}

fn trim_chars(s: &Vec<char>) -> (r: Vec<char>)
    ensures
        r@ == trim(s@),
{
    let mut lo: usize = 0;
    while lo < s.len() && white_space(s[lo])
        invariant
            lo <= s@.len(),
            forall|i: int| 0 <= i < lo ==> is_white_space(#[trigger] s@[i]),
        decreases s@.len() - lo,
    {
        lo = lo + 1;
    }
    proof {
        lemma_trim_start_at(s@, lo as int);
    }
    let ghost t = s@.skip(lo as int);
    let mut hi: usize = s.len();
    while hi > lo && white_space(s[hi - 1])
        invariant
            lo <= hi <= s@.len(),
            t == s@.skip(lo as int),
            forall|i: int| hi - lo <= i < t.len() ==> is_white_space(#[trigger] t[i]),
        decreases hi,
    {
        hi = hi - 1;
        assert(t[hi - lo] == s@[hi as int]);
    }
    proof {
        if hi > lo {
            assert(t[hi - lo - 1] == s@[hi - 1]);
        }
        lemma_trim_end_at(t, (hi - lo) as int);
    }
    let mut r: Vec<char> = Vec::new();
    let mut i: usize = lo;
    while i < hi
        invariant
            lo <= i <= hi <= s@.len(),
            r@ == s@.subrange(lo as int, i as int),
        decreases hi - i,
    {
        r.push(s[i]);
        i = i + 1;
        assert(r@ =~= s@.subrange(lo as int, i as int));
    }
    assert(r@ =~= t.take((hi - lo) as int));
    r
}

/// The text with every `"\r\n"` replaced by `"\n"`, scanning from the left.
pub open spec fn replace_crlf(s: Seq<char>) -> Seq<char>
    decreases s.len(),
{
    if s.len() == 0 {
        s
    } else if s.len() >= 2 && s[0] == '\r' && s[1] == '\n' {
        seq!['\n'] + replace_crlf(s.skip(2))
    } else {
        seq![s[0]] + replace_crlf(s.skip(1))
    }
}

fn replace_crlf_chars(s: &Vec<char>) -> (r: Vec<char>)
    ensures
        r@ == replace_crlf(s@),
{
    let mut r: Vec<char> = Vec::new();
    let mut i: usize = 0;
    assert(s@.skip(0) =~= s@);
    assert(r@ + replace_crlf(s@) =~= replace_crlf(s@));
    while i < s.len()
        invariant
            i <= s@.len(),
            r@ + replace_crlf(s@.skip(i as int)) == replace_crlf(s@),
        decreases s@.len() - i,
    {
        let ghost rest = s@.skip(i as int);
        if i + 1 < s.len() && s[i] == '\r' && s[i + 1] == '\n' {
            assert(rest[0] == '\r' && rest[1] == '\n');
            assert(rest.skip(2) =~= s@.skip(i as int + 2));
            r.push('\n');
            i = i + 2;
            assert(r@ + replace_crlf(s@.skip(i as int)) =~= replace_crlf(s@));
        } else {
            assert(rest[0] == s@[i as int]);
            assert(rest.skip(1) =~= s@.skip(i as int + 1));
            r.push(s[i]);
            i = i + 1;
            assert(r@ + replace_crlf(s@.skip(i as int)) =~= replace_crlf(s@));
        }
    }
    assert(s@.skip(i as int) =~= Seq::<char>::empty());
    assert(r@ + Seq::<char>::empty() =~= r@);
    r
}

// ---------------------------------------------------------------------------
// Splitting text into pieces that end at separators
// ---------------------------------------------------------------------------

/// Whether `c` ends a piece: a space, or also a newline where `newlines` holds.
pub open spec fn is_separator(c: char, newlines: bool) -> bool {
    c == ' ' || (newlines && c == '\n')
}

/// The finished pieces and the unfinished rest after reading `s`.
pub open spec fn split_state(s: Seq<char>, newlines: bool) -> (Seq<Seq<char>>, Seq<char>)
    decreases s.len(),
{
    if s.len() == 0 {
        (Seq::empty(), Seq::empty())
    } else {
        let (pieces, rest) = split_state(s.drop_last(), newlines);
        let c = s.last();
        if is_separator(c, newlines) {
            (pieces.push(rest.push(c)), Seq::empty())
        } else {
            (pieces, rest.push(c))
        }
    }
}

/// The text cut after each separator, as `str::split_inclusive` cuts it:
/// each piece but the last ends with a separator, and no empty piece is made.
pub open spec fn split_inclusive(s: Seq<char>, newlines: bool) -> Seq<Seq<char>> {
    let (pieces, rest) = split_state(s, newlines);
    if rest.len() == 0 {
        pieces
    } else {
        pieces.push(rest)
    }
}

/// The pieces joined back together.
pub open spec fn concat(pieces: Seq<Seq<char>>) -> Seq<char>
    decreases pieces.len(),
{
    if pieces.len() == 0 {
        Seq::empty()
    } else {
        concat(pieces.drop_last()) + pieces.last()
    }
}

fn split_inclusive_chars(s: &Vec<char>, newlines: bool) -> (r: Vec<Vec<char>>)
    ensures
        r@.len() == split_inclusive(s@, newlines).len(),
        forall|i: int| 0 <= i < r@.len() ==> #[trigger] r@[i]@ == split_inclusive(s@, newlines)[i],
{
    let mut pieces: Vec<Vec<char>> = Vec::new();
    let mut rest: Vec<char> = Vec::new();
    let mut i: usize = 0;
    while i < s.len()
        invariant
            i <= s@.len(),
            pieces@.len() == split_state(s@.take(i as int), newlines).0.len(),
            forall|j: int|
                0 <= j < pieces@.len() ==> #[trigger] pieces@[j]@ == split_state(
                    s@.take(i as int),
                    newlines,
                ).0[j],
            rest@ == split_state(s@.take(i as int), newlines).1,
        decreases s@.len() - i,
    {
        let c = s[i];
        assert(s@.take(i as int + 1).drop_last() =~= s@.take(i as int));
        assert(s@.take(i as int + 1).last() == c);
        rest.push(c);
        if c == ' ' || (newlines && c == '\n') {
            let piece = rest;
            rest = Vec::new();
            pieces.push(piece);
        }
        i = i + 1;
    }
    assert(s@.take(s@.len() as int) =~= s@);
    if rest.len() > 0 {
        pieces.push(rest);
    }
    pieces
}

/// A text and the pieces it is cut into: the pieces join back to the text,
/// none is empty, a separator only ever ends a piece, and every piece but the
/// last ends with one.
pub proof fn lemma_split_inclusive_pieces(s: Seq<char>, newlines: bool)
    ensures
        concat(split_inclusive(s, newlines)) == s,
        forall|i: int|
            0 <= i < split_inclusive(s, newlines).len() ==> #[trigger] split_inclusive(
                s,
                newlines,
            )[i].len() > 0,
        forall|i: int, j: int|
            0 <= i < split_inclusive(s, newlines).len() && 0 <= j < split_inclusive(
                s,
                newlines,
            )[i].len() - 1 ==> !is_separator(#[trigger] split_inclusive(s, newlines)[i][j], newlines),
        forall|i: int|
            0 <= i < split_inclusive(s, newlines).len() - 1 ==> is_separator(
                #[trigger] split_inclusive(s, newlines)[i].last(),
                newlines,
            ),
{
    lemma_split_state(s, newlines);
    let (pieces, rest) = split_state(s, newlines);
    if rest.len() > 0 {
        assert(pieces.push(rest).drop_last() =~= pieces);
    }
}

proof fn lemma_split_state(s: Seq<char>, newlines: bool)
    ensures
        concat(split_state(s, newlines).0) + split_state(s, newlines).1 == s,
        forall|i: int|
            0 <= i < split_state(s, newlines).0.len() ==> #[trigger] split_state(
                s,
                newlines,
            ).0[i].len() > 0 && is_separator(split_state(s, newlines).0[i].last(), newlines),
        forall|i: int, j: int|
            0 <= i < split_state(s, newlines).0.len() && 0 <= j < split_state(s, newlines).0[i].len()
                - 1 ==> !is_separator(#[trigger] split_state(s, newlines).0[i][j], newlines),
        forall|j: int|
            0 <= j < split_state(s, newlines).1.len() ==> !is_separator(
                #[trigger] split_state(s, newlines).1[j],
                newlines,
            ),
    decreases s.len(),
{
    if s.len() > 0 {
        lemma_split_state(s.drop_last(), newlines);
        let (pieces, rest) = split_state(s.drop_last(), newlines);
        let c = s.last();
        if is_separator(c, newlines) {
            assert(pieces.push(rest.push(c)).drop_last() =~= pieces);
            assert(concat(pieces) + rest.push(c) =~= concat(pieces) + rest + seq![c]);
            assert(s =~= s.drop_last() + seq![c]);
            let np = pieces.push(rest.push(c));
            assert forall|i: int, j: int|
                0 <= i < np.len() && 0 <= j < np[i].len() - 1 implies !is_separator(
                #[trigger] np[i][j],
                newlines,
            ) by {
                if i == np.len() - 1 {
                    assert(np[i][j] == rest[j]);
                }
            }
        } else {
            assert(concat(pieces) + rest.push(c) =~= concat(pieces) + rest + seq![c]);
            assert(s =~= s.drop_last() + seq![c]);
            assert forall|j: int| 0 <= j < rest.push(c).len() implies !is_separator(
                #[trigger] rest.push(c)[j],
                newlines,
            ) by {
                if j < rest.len() {
                    assert(rest.push(c)[j] == rest[j]);
                }
            }
        }
    }
}

// ---------------------------------------------------------------------------
// Log fragments and lines
// ---------------------------------------------------------------------------

/// A run of text drawn in one colour.
#[derive(Clone)]
pub struct LogFragment {
    pub text: String,
    pub color: Palette,
}

impl LogFragment {
    pub fn new(text: String, color: Palette) -> (r: LogFragment)
        ensures
            r.text@ == text@,
            r.color == color,
    {
        LogFragment { text, color }
    }
}

/// The texts of a line of fragments.
pub open spec fn line_texts(line: Seq<LogFragment>) -> Seq<Seq<char>> {
    line.map_values(|f: LogFragment| f.text@)
}

/// Whether every fragment of the line has the colour.
pub open spec fn all_colored(line: Seq<LogFragment>, color: Palette) -> bool {
    forall|i: int| 0 <= i < line.len() ==> #[trigger] line[i].color == color
}

/// The number of bytes the line's texts take together.
pub open spec fn line_bytes(texts: Seq<Seq<char>>) -> nat
    decreases texts.len(),
{
    if texts.len() == 0 {
        0
    } else {
        line_bytes(texts.drop_last()) + byte_len(texts.last())
    }
}

/// Cuts the text after each space into fragments of the given colour.
pub fn fragment_string(string: String, color: Palette) -> (r: Vec<LogFragment>)
    ensures
        line_texts(r@) == split_inclusive(string@, false),
        all_colored(r@, color),
{
    let chars = chars_of(string.as_str());
    let pieces = split_inclusive_chars(&chars, false);
    let mut r: Vec<LogFragment> = Vec::new();
    let mut i: usize = 0;
    while i < pieces.len()
        invariant
            i <= pieces@.len(),
            pieces@.len() == split_inclusive(string@, false).len(),
            forall|j: int| 0 <= j < pieces@.len() ==> #[trigger] pieces@[j]@ == split_inclusive(string@, false)[j],
            r@.len() == i,
            forall|j: int| 0 <= j < i ==> #[trigger] r@[j].text@ == pieces@[j]@,
            all_colored(r@, color),
        decreases pieces@.len() - i,
    {
        let text = string_of(&pieces[i]);
        r.push(LogFragment { text, color });
        i = i + 1;
    }
    assert(line_texts(r@) =~= split_inclusive(string@, false));
    r
}

/// The state of line breaking: the finished lines, the line being filled,
/// and the width counted for that line.
pub struct WrapState {
    pub lines: Seq<Seq<Seq<char>>>,
    pub line: Seq<Seq<char>>,
    pub width: int,
}

/// The text of a piece as it is placed: a piece that holds a newline loses its
/// surrounding white space.
pub open spec fn placed_text(piece: Seq<char>) -> Seq<char> {
    if piece.contains('\n') {
        trim(piece)
    } else {
        piece
    }
}

/// Places one piece. A piece that would make the line (with one column to
/// spare) wider than `width` starts a new line; a piece that held a newline
/// ends its line, and the next line starts empty.
pub open spec fn wrap_step(st: WrapState, piece: Seq<char>, width: int) -> WrapState {
    let newline = piece.contains('\n');
    let t = placed_text(piece);
    let n = byte_len(t) as int;
    if n + 1 + st.width > width {
        if newline {
            WrapState { lines: st.lines.push(st.line).push(seq![t]), line: Seq::empty(), width: 0 }
        } else {
            WrapState { lines: st.lines.push(st.line), line: seq![t], width: n }
        }
    } else if newline {
        WrapState { lines: st.lines.push(st.line.push(t)), line: Seq::empty(), width: 0 }
    } else {
        WrapState { lines: st.lines, line: st.line.push(t), width: st.width + n }
    }
}

/// The state after placing the pieces in order.
pub open spec fn wrap_pieces(pieces: Seq<Seq<char>>, width: int) -> WrapState
    decreases pieces.len(),
{
    if pieces.len() == 0 {
        WrapState { lines: Seq::empty(), line: Seq::empty(), width: 0 }
    } else {
        wrap_step(wrap_pieces(pieces.drop_last(), width), pieces.last(), width)
    }
}

/// The lines of a text broken to the given width: the text is cut after each
/// space and newline, and the pieces are placed one after the other.
pub open spec fn wrap_lines(s: Seq<char>, width: int) -> Seq<Seq<Seq<char>>> {
    let st = wrap_pieces(split_inclusive(replace_crlf(s), true), width);
    st.lines.push(st.line)
}

/// Whether every piece of the text, as placed, fits in the width.
pub open spec fn pieces_fit(s: Seq<char>, width: int) -> bool {
    forall|i: int|
        0 <= i < split_inclusive(replace_crlf(s), true).len() ==> byte_len(
            placed_text(#[trigger] split_inclusive(replace_crlf(s), true)[i]),
        ) <= width
}

fn contains_newline(s: &Vec<char>) -> (r: bool)
    ensures
        r == s@.contains('\n'),
{
    let mut i: usize = 0;
    while i < s.len()
        invariant
            i <= s@.len(),
            forall|j: int| 0 <= j < i ==> s@[j] != '\n',
        decreases s@.len() - i,
    {
        if s[i] == '\n' {
            assert(s@[i as int] == '\n');
            return true;
        }
        i = i + 1;
    }
    false
}

/// A log: lines of coloured fragments, oldest first.
pub struct Log {
    pub lines: Vec<Vec<LogFragment>>,
}

impl Log {
    /// An empty log.
    pub fn default() -> (r: Log)
        ensures
            r.lines@.len() == 0,
    {
        Log { lines: Vec::new() }
    }

    /// Cuts the text after each space into fragments of the given colour.
    pub fn fragment_string(string: String, color: Palette) -> (r: Vec<LogFragment>)
        ensures
            line_texts(r@) == split_inclusive(string@, false),
            all_colored(r@, color),
    {
        fragment_string(string, color)
    }

    /// Breaks a text into lines no wider than `width` bytes: `"\r\n"` becomes
    /// `"\n"`, the text is cut after each space and newline, and the pieces are
    /// placed in order, a piece that would overfill the line (with a column to
    /// spare) starting the next one, and a piece with a newline, trimmed of
    /// surrounding white space, ending its line. Every fragment has the colour.
    pub fn string_to_lines_by_width(string: String, color: Palette, width: usize) -> (r: Vec<
        Vec<LogFragment>,
    >)
        requires
            pieces_fit(string@, width as int),
            width <= usize::MAX / 2,
        ensures
            r@.len() == wrap_lines(string@, width as int).len(),
            forall|i: int|
                0 <= i < r@.len() ==> line_texts(#[trigger] r@[i]@) == wrap_lines(string@, width as int)[i]
                    && all_colored(r@[i]@, color),
    {
        let chars = chars_of(string.as_str());
        let no_crlf = replace_crlf_chars(&chars);
        let pieces = split_inclusive_chars(&no_crlf, true);
        let ghost ps = split_inclusive(replace_crlf(string@), true);
        let mut current_width: usize = 0;
        let mut lines: Vec<Vec<LogFragment>> = Vec::new();
        let mut line: Vec<LogFragment> = Vec::new();
        let mut i: usize = 0;
        while i < pieces.len()
            invariant
                i <= pieces@.len(),
                pieces@.len() == ps.len(),
                forall|j: int| 0 <= j < pieces@.len() ==> #[trigger] pieces@[j]@ == ps[j],
                forall|j: int| 0 <= j < ps.len() ==> byte_len(placed_text(#[trigger] ps[j])) <= width,
                width <= usize::MAX / 2,
                current_width <= width,
                wrap_pieces(ps.take(i as int), width as int).width == current_width,
                wrap_pieces(ps.take(i as int), width as int).line == line_texts(line@),
                wrap_pieces(ps.take(i as int), width as int).lines.len() == lines@.len(),
                forall|j: int|
                    0 <= j < lines@.len() ==> line_texts(#[trigger] lines@[j]@) == wrap_pieces(
                        ps.take(i as int),
                        width as int,
                    ).lines[j] && all_colored(lines@[j]@, color),
                all_colored(line@, color),
            decreases pieces@.len() - i,
        {
            let ghost before = wrap_pieces(ps.take(i as int), width as int);
            assert(ps.take(i as int + 1).drop_last() =~= ps.take(i as int));
            assert(ps.take(i as int + 1).last() == ps[i as int]);
            let newline = contains_newline(&pieces[i]);
            let placed = if newline {
                trim_chars(&pieces[i])
            } else {
                pieces[i].clone()
            };
            assert(placed@ == placed_text(ps[i as int]));
            let text = string_of(&placed);
            let n = text.as_str().len();
            assert(n == byte_len(placed_text(ps[i as int])));
            let fragment = LogFragment { text, color };
            if n + 1 + current_width > width {
                lines.push(line);
                line = Vec::new();
                line.push(fragment);
                current_width = n;
                if newline {
                    lines.push(line);
                    line = Vec::new();
                    current_width = 0;
                }
            } else {
                if newline {
                    line.push(fragment);
                    lines.push(line);
                    line = Vec::new();
                    current_width = 0;
                } else {
                    line.push(fragment);
                    current_width = current_width + n;
                }
            }
            proof {
                let after = wrap_pieces(ps.take(i as int + 1), width as int);
                assert(after == wrap_step(before, ps[i as int], width as int));
                assert(after.line =~= line_texts(line@));
                assert(after.lines.len() == lines@.len());
                assert forall|j: int| 0 <= j < lines@.len() implies line_texts(
                    #[trigger] lines@[j]@,
                ) == after.lines[j] && all_colored(lines@[j]@, color) by {
                    if j < before.lines.len() {
                    } else {
                        assert(line_texts(lines@[j]@) =~= after.lines[j]);
                    }
                }
            }
            i = i + 1;
        }
        assert(ps.take(pieces@.len() as int) =~= ps);
        lines.push(line);
        proof {
            let w = wrap_lines(string@, width as int);
            assert forall|j: int| 0 <= j < lines@.len() implies line_texts(#[trigger] lines@[j]@)
                == w[j] && all_colored(lines@[j]@, color) by {}
        }
        lines
    }

    /// Breaks a text into lines no wider than `width` bytes, as
    /// `string_to_lines_by_width` does; `None` where some word (with its
    /// space, or trimmed where it holds a newline) is wider than `width`.
    pub fn try_string_to_lines_by_width(string: String, color: Palette, width: usize) -> (r: Option<
        Vec<Vec<LogFragment>>,
    >)
        requires
            width <= usize::MAX / 2,
        ensures
            r is Some <==> pieces_fit(string@, width as int),
            r matches Some(lines) ==> lines@.len() == wrap_lines(string@, width as int).len() && forall|i: int|
                0 <= i < lines@.len() ==> line_texts(#[trigger] lines@[i]@) == wrap_lines(string@, width as int)[i]
                    && all_colored(lines@[i]@, color),
    {
        let chars = chars_of(string.as_str());
        let no_crlf = replace_crlf_chars(&chars);
        let pieces = split_inclusive_chars(&no_crlf, true);
        let ghost ps = split_inclusive(replace_crlf(string@), true);
        let mut i: usize = 0;
        while i < pieces.len()
            invariant
                i <= pieces@.len(),
                pieces@.len() == ps.len(),
                ps == split_inclusive(replace_crlf(string@), true),
                forall|j: int| 0 <= j < pieces@.len() ==> #[trigger] pieces@[j]@ == ps[j],
                forall|j: int| 0 <= j < i ==> byte_len(placed_text(#[trigger] ps[j])) <= width,
            decreases pieces@.len() - i,
        {
            let placed = if contains_newline(&pieces[i]) {
                trim_chars(&pieces[i])
            } else {
                pieces[i].clone()
            };
            assert(placed@ == placed_text(ps[i as int]));
            if byte_len_exceeds(&placed, width) {
                assert(!pieces_fit(string@, width as int));
                return None;
            }
            i = i + 1;
        }
        Some(Log::string_to_lines_by_width(string, color, width))
    }

    /// Adds a line of fragments.
    pub fn log_fragments(&mut self, fragments: Vec<LogFragment>)
        ensures
            final(self).lines@ == old(self).lines@.push(fragments),
    {
        self.lines.push(fragments);
    }

    /// Adds a line of text in the plain log colour, cut after each space.
    pub fn log_string(&mut self, string: String)
        ensures
            final(self).lines@.len() == old(self).lines@.len() + 1,
            forall|i: int| 0 <= i < old(self).lines@.len() ==> final(self).lines@[i] == old(self).lines@[i],
            line_texts(final(self).lines@.last()@) == split_inclusive(string@, false),
            all_colored(final(self).lines@.last()@, Palette::LogGray),
    {
        self.lines.push(fragment_string(string, Palette::LogGray));
    }

    /// Adds a line of text in the given colour, cut after each space.
    pub fn log_string_formatted(&mut self, string: String, color: Palette)
        ensures
            final(self).lines@.len() == old(self).lines@.len() + 1,
            forall|i: int| 0 <= i < old(self).lines@.len() ==> final(self).lines@[i] == old(self).lines@[i],
            line_texts(final(self).lines@.last()@) == split_inclusive(string@, false),
            all_colored(final(self).lines@.last()@, color),
    {
        self.lines.push(fragment_string(string, color));
    }
}

/// The pieces placed so far, read line after line and then the open line,
/// are the pieces as placed, in order.
proof fn lemma_wrap_pieces_keep_text(pieces: Seq<Seq<char>>, width: int)
    ensures
        wrap_pieces(pieces, width).lines.flatten_alt() + wrap_pieces(pieces, width).line == pieces.map_values(
            |p: Seq<char>| placed_text(p),
        ),
    decreases pieces.len(),
{
    if pieces.len() > 0 {
        let prev = wrap_pieces(pieces.drop_last(), width);
        lemma_wrap_pieces_keep_text(pieces.drop_last(), width);
        let t = placed_text(pieces.last());
        let st = wrap_pieces(pieces, width);
        assert(pieces.map_values(|p: Seq<char>| placed_text(p)) =~= pieces.drop_last().map_values(
            |p: Seq<char>| placed_text(p),
        ).push(t));
        assert(st == wrap_step(prev, pieces.last(), width));
        if st.lines.len() == prev.lines.len() + 2 {
            assert(st.lines.drop_last().drop_last() =~= prev.lines);
            assert(st.lines.drop_last().flatten_alt() =~= prev.lines.flatten_alt() + prev.line);
            assert(st.lines.flatten_alt() =~= prev.lines.flatten_alt() + prev.line + seq![t]);
        } else if st.lines.len() == prev.lines.len() + 1 {
            assert(st.lines.drop_last() =~= prev.lines);
        } else {
            assert(st.lines =~= prev.lines);
        }
        assert(st.lines.flatten_alt() + st.line =~= prev.lines.flatten_alt() + prev.line + seq![t]);
    }
}

/// Line breaking keeps the text: the lines, read one after the other, hold
/// the text's pieces in order, each as placed (a piece that held a newline
/// trimmed of its surrounding white space); nothing is lost, added or moved.
pub proof fn lemma_lines_keep_text(s: Seq<char>, width: int)
    ensures
        wrap_lines(s, width).flatten() == split_inclusive(replace_crlf(s), true).map_values(
            |p: Seq<char>| placed_text(p),
        ),
{
    let pieces = split_inclusive(replace_crlf(s), true);
    let st = wrap_pieces(pieces, width);
    lemma_wrap_pieces_keep_text(pieces, width);
    assert(st.lines.push(st.line).drop_last() =~= st.lines);
    wrap_lines(s, width).lemma_flatten_and_flatten_alt_are_equivalent();
}

/// Line breaking keeps every line within the width: whatever the text, each
/// line's fragments take at most `width` bytes together.
pub proof fn lemma_lines_fit_width(s: Seq<char>, width: int)
    requires
        pieces_fit(s, width),
        width >= 0,
    ensures
        forall|i: int|
            0 <= i < wrap_lines(s, width).len() ==> line_bytes(#[trigger] wrap_lines(s, width)[i])
                <= width,
{
    let ps = split_inclusive(replace_crlf(s), true);
    lemma_wrap_fits(ps, width);
    let st = wrap_pieces(ps, width);
    assert forall|i: int| 0 <= i < wrap_lines(s, width).len() implies line_bytes(
        #[trigger] wrap_lines(s, width)[i],
    ) <= width by {
        if i < st.lines.len() {
            assert(wrap_lines(s, width)[i] == st.lines[i]);
        } else {
            assert(wrap_lines(s, width)[i] == st.line);
        }
    }
}

proof fn lemma_wrap_fits(ps: Seq<Seq<char>>, width: int)
    requires
        width >= 0,
        forall|j: int| 0 <= j < ps.len() ==> byte_len(placed_text(#[trigger] ps[j])) <= width,
    ensures
        line_bytes(wrap_pieces(ps, width).line) <= wrap_pieces(ps, width).width <= width,
        forall|i: int|
            0 <= i < wrap_pieces(ps, width).lines.len() ==> line_bytes(
                #[trigger] wrap_pieces(ps, width).lines[i],
            ) <= width,
    decreases ps.len(),
{
    if ps.len() > 0 {
        let d = ps.drop_last();
        assert forall|j: int| 0 <= j < d.len() implies byte_len(placed_text(#[trigger] d[j])) <= width by {
            assert(d[j] == ps[j]);
        }
        lemma_wrap_fits(d, width);
        let st = wrap_pieces(d, width);
        let piece = ps.last();
        assert(byte_len(placed_text(ps[ps.len() - 1])) <= width);
        let t = placed_text(piece);
        let n = byte_len(t) as int;
        assert(line_bytes(seq![t]) == n) by {
            reveal_with_fuel(line_bytes, 2);
            assert(seq![t].drop_last() =~= Seq::<Seq<char>>::empty());
        }
        assert(line_bytes(st.line.push(t)) == line_bytes(st.line) + n) by {
            assert(st.line.push(t).drop_last() =~= st.line);
        }
        let nst = wrap_pieces(ps, width);
        assert forall|i: int| 0 <= i < nst.lines.len() implies line_bytes(#[trigger] nst.lines[i])
            <= width by {
            if i < st.lines.len() {
                assert(nst.lines[i] == st.lines[i]);
            }
        }
    }
}

/// Whether each line break among `lines` (the pieces `p` placed in order)
/// was needed: the first piece of a nonempty line would not have fitted, with
/// a column to spare, on the line before, unless that line ended with a
/// piece that held a newline.
pub open spec fn breaks_needed(p: Seq<Seq<char>>, lines: Seq<Seq<Seq<char>>>, width: int) -> bool {
    forall|i: int|
        0 < i < lines.len() && (#[trigger] lines[i]).len() > 0 && !p[lines.take(i).flatten_alt().len() - 1].contains(
            '\n',
        ) ==> line_bytes(lines[i - 1]) + 1 + byte_len(lines[i][0]) > width
}

/// One placed piece keeps the open line's width counted.
proof fn lemma_step_width(st: WrapState, piece: Seq<char>, width: int)
    requires
        st.width == line_bytes(st.line),
    ensures
        wrap_step(st, piece, width).width == line_bytes(wrap_step(st, piece, width).line),
{
    let t = placed_text(piece);
    let after = wrap_step(st, piece, width);
    assert(line_bytes(Seq::<Seq<char>>::empty()) == 0);
    assert(seq![t].drop_last() =~= Seq::<Seq<char>>::empty());
    assert(seq![t].last() == t);
    assert(st.line.push(t).drop_last() =~= st.line);
    assert(st.line.push(t).last() == t);
    assert(line_bytes(seq![t]) == byte_len(t));
    assert(line_bytes(st.line.push(t)) == line_bytes(st.line) + byte_len(t));
}

/// One placed piece keeps the breaks needed and the open line empty only
/// right after a newline.
#[verifier::rlimit(40)]
proof fn lemma_step_breaks(p: Seq<Seq<char>>, st: WrapState, n: int, width: int)
    requires
        0 <= n < p.len(),
        st.width == line_bytes(st.line),
        st.lines.flatten_alt().len() + st.line.len() == n,
        breaks_needed(p, st.lines.push(st.line), width),
        st.line.len() == 0 && st.lines.len() > 0 ==> p[st.lines.flatten_alt().len() - 1].contains('\n'),
    ensures
        ({
            let after = wrap_step(st, p[n], width);
            &&& breaks_needed(p, after.lines.push(after.line), width)
            &&& after.line.len() == 0 && after.lines.len() > 0 ==> p[after.lines.flatten_alt().len() - 1].contains('\n')
        }),
{
    let after = wrap_step(st, p[n], width);
    let L = st.lines;
    let C = st.line;
    let a = L.push(C);
    let b = after.lines.push(after.line);
    let t = placed_text(p[n]);
    let m = byte_len(t) as int;
    let nl = p[n].contains('\n');
    let over = m + 1 + st.width > width;
    assert(a.drop_last() =~= L);
    if over && !nl {
        assert(b =~= a.push(seq![t]));
    } else if !over && nl {
        assert(b =~= L.push(C.push(t)).push(Seq::<Seq<char>>::empty()));
    } else if over && nl {
        assert(b =~= a.push(seq![t]).push(Seq::<Seq<char>>::empty()));
    } else {
        assert(b =~= L.push(C.push(t)));
    }
    assert forall|i: int| 0 < i < b.len() && (#[trigger] b[i]).len() > 0 && !p[b.take(i).flatten_alt().len()
        - 1].contains('\n') implies line_bytes(b[i - 1]) + 1 + byte_len(b[i][0]) > width by {
        if i < L.len() {
            assert(b[i] == a[i] && b[i - 1] == a[i - 1]);
            assert(b.take(i) =~= a.take(i));
            assert(a[i] == L[i]);
        } else if i == L.len() {
            assert(b.take(i) =~= L);
            assert(a.take(i) =~= L);
            assert(b[i - 1] == L.last() && a[i - 1] == L.last());
            if over {
                assert(b[i] == C);
                assert(a[i] == C);
            } else if C.len() > 0 {
                assert(b[i] == C.push(t));
                assert(b[i][0] == C[0]);
                assert(a[i] == C);
            } else {
                assert(L.len() > 0);
            }
        } else {
            assert(over);
            assert(i == L.len() + 1);
            assert(b[i - 1] == C);
            assert(b[i] == seq![t]);
            assert(b[i][0] == t);
        }
    }
    if after.line.len() == 0 && after.lines.len() > 0 {
        assert(nl);
        if over {
            let L2 = L.push(C);
            assert(after.lines == L2.push(seq![t]));
            assert(L2.push(seq![t]).drop_last() =~= L2);
            assert(L2.drop_last() =~= L);
            assert(after.lines.flatten_alt() == L2.flatten_alt() + seq![t]);
            assert(L2.flatten_alt() == L.flatten_alt() + C);
        } else {
            assert(after.lines == L.push(C.push(t)));
            assert(L.push(C.push(t)).drop_last() =~= L);
            assert(after.lines.flatten_alt() == L.flatten_alt() + C.push(t));
        }
    }
}

/// The state after the first `n` pieces keeps its lines broken only where
/// needed, counts the open line's width, and leaves the open line empty only
/// right after a newline.
proof fn lemma_wrap_breaks_needed(p: Seq<Seq<char>>, width: int, n: int)
    requires
        0 <= n <= p.len(),
    ensures
        ({
            let st = wrap_pieces(p.take(n), width);
            &&& st.width == line_bytes(st.line)
            &&& breaks_needed(p, st.lines.push(st.line), width)
            &&& st.line.len() == 0 && st.lines.len() > 0 ==> p[st.lines.flatten_alt().len() - 1].contains('\n')
        }),
    decreases n,
{
    let st = wrap_pieces(p.take(n), width);
    if n == 0 {
        assert(p.take(0) =~= Seq::<Seq<char>>::empty());
        assert(line_bytes(Seq::<Seq<char>>::empty()) == 0);
        let all = st.lines.push(st.line);
        assert(all.len() == 1);
    } else {
        lemma_wrap_breaks_needed(p, width, n - 1);
        let prev = wrap_pieces(p.take(n - 1), width);
        assert(p.take(n).drop_last() =~= p.take(n - 1));
        assert(p.take(n).last() == p[n - 1]);
        assert(st == wrap_step(prev, p[n - 1], width));
        lemma_wrap_pieces_keep_text(p.take(n - 1), width);
        let pl = p.take(n - 1).map_values(|q: Seq<char>| placed_text(q));
        assert(prev.lines.flatten_alt().len() + prev.line.len() == n - 1) by {
            assert(pl.len() == n - 1);
            assert((prev.lines.flatten_alt() + prev.line).len() == prev.lines.flatten_alt().len() + prev.line.len());
        }
        lemma_step_width(prev, p[n - 1], width);
        lemma_step_breaks(p, prev, n - 1, width);
    }
}

/// Lines are broken as late as possible: a line ends early only where a
/// piece held a newline; otherwise the first piece of the next line would
/// not have fitted on it with a column to spare.
pub proof fn lemma_lines_broken_late(s: Seq<char>, width: int)
    ensures
        ({
            let p = split_inclusive(replace_crlf(s), true);
            let lines = wrap_lines(s, width);
            forall|i: int|
                0 < i < lines.len() && (#[trigger] lines[i]).len() > 0 && !p[lines.take(i).flatten().len()
                    - 1].contains('\n') ==> line_bytes(lines[i - 1]) + 1 + byte_len(lines[i][0]) > width
        }),
{
    let p = split_inclusive(replace_crlf(s), true);
    let lines = wrap_lines(s, width);
    lemma_wrap_breaks_needed(p, width, p.len() as int);
    assert(p.take(p.len() as int) =~= p);
    assert forall|i: int|
        0 < i < lines.len() && (#[trigger] lines[i]).len() > 0 && !p[lines.take(i).flatten().len()
            - 1].contains('\n') implies line_bytes(lines[i - 1]) + 1 + byte_len(lines[i][0]) > width by {
        lines.take(i).lemma_flatten_and_flatten_alt_are_equivalent();
    }
}

} // verus!
