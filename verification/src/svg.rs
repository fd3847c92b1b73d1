//! Vector icon paths: the SVG path data of an icon split into tokens, and
//! the path commands read as a sequence of path operations whose
//! coordinates name the tokens they come from.

use vstd::prelude::*;

use crate::text::{chars_of, is_alphabetic, is_ascii_digit, is_digit, is_whitespace, is_ws, string_of, unicode_alphabetic};

verus! {

// ---------------------------------------------------------------------------
// Tokens
// ---------------------------------------------------------------------------

/// One character of the tokenizer: the tokens so far and the number being
/// read.
pub open spec fn tok_step(st: (Seq<Seq<char>>, Seq<char>), ch: char) -> (Seq<Seq<char>>, Seq<char>) {
    let (toks, num) = st;
    if unicode_alphabetic(ch) {
        let t = if num.len() > 0 {
            toks.push(num)
        } else {
            toks
        };
        (t.push(seq![ch]), Seq::empty())
    } else if ch == '-' && num.len() > 0 && num.last() != 'e' && num.last() != 'E' {
        (toks.push(num), seq!['-'])
    } else if is_digit(ch) || ch == '.' || ch == '-' || ch == 'e' || ch == 'E' {
        (toks, num.push(ch))
    } else if ch == ',' || is_ws(ch) {
        (
            if num.len() > 0 {
                toks.push(num)
            } else {
                toks
            },
            Seq::empty(),
        )
    } else {
        (toks, num)
    }
}

pub open spec fn tok_state(s: Seq<char>) -> (Seq<Seq<char>>, Seq<char>)
    decreases s.len(),
{
    if s.len() == 0 {
        (Seq::empty(), Seq::empty())
    } else {
        tok_step(tok_state(s.drop_last()), s.last())
    }
}

/// The tokens of SVG path data: each letter on its own, numbers split at
/// commas, whitespace and signs (a `-` starts a new number unless it
/// follows an exponent mark), other characters dropped.
pub open spec fn svg_tokens(s: Seq<char>) -> Seq<Seq<char>> {
    let (toks, num) = tok_state(s);
    if num.len() > 0 {
        toks.push(num)
    } else {
        toks
    }
}

/// A character that can be part of a number token.
pub open spec fn number_char(c: char) -> bool {
    !unicode_alphabetic(c) && (is_digit(c) || c == '.' || c == '-' || c == 'e' || c == 'E')
}

/// A character that the tokenizer keeps: a letter or a number character.
pub open spec fn token_char(c: char) -> bool {
    unicode_alphabetic(c) || number_char(c)
}

/// A number token: non-empty, made of number characters, with a `-` only
/// at its start or right after an exponent mark.
pub open spec fn number_token(t: Seq<char>) -> bool {
    &&& t.len() > 0
    &&& forall|k: int| 0 <= k < t.len() ==> number_char(#[trigger] t[k])
    &&& forall|k: int| 0 < k < t.len() && #[trigger] t[k] == '-' ==> t[k - 1] == 'e' || t[k - 1] == 'E'
}

/// A well-formed token: a single letter, or a number token.
pub open spec fn good_token(t: Seq<char>) -> bool {
    (t.len() == 1 && unicode_alphabetic(t[0])) || number_token(t)
}

pub open spec fn partial_number(t: Seq<char>) -> bool {
    t.len() == 0 || number_token(t)
}

proof fn lemma_tok_state(s: Seq<char>)
    ensures
        ({
            let (toks, num) = tok_state(s);
            &&& forall|j: int| 0 <= j < toks.len() ==> good_token(#[trigger] toks[j])
            &&& partial_number(num)
            &&& toks.flatten_alt() + num == s.filter(|c: char| token_char(c))
        }),
    decreases s.len(),
{
    let f = |c: char| token_char(c);
    reveal(Seq::filter);
    if s.len() == 0 {
        assert(Seq::<Seq<char>>::empty().flatten_alt() + Seq::<char>::empty() =~= Seq::<char>::empty());
    } else {
        let p = s.drop_last();
        let ch = s.last();
        lemma_tok_state(p);
        let (toks, num) = tok_state(p);
        let (t2, n2) = tok_state(s);
        assert((t2, n2) == tok_step((toks, num), ch));
        let fp = p.filter(f);
        assert(s.filter(f) == if f(ch) { fp.push(ch) } else { fp });
        assert(toks.push(num).flatten_alt() == toks.flatten_alt() + num) by {
            assert(toks.push(num).drop_last() =~= toks);
        }
        if unicode_alphabetic(ch) {
            let t = if num.len() > 0 { toks.push(num) } else { toks };
            assert(t.flatten_alt() == toks.flatten_alt() + num) by {
                if num.len() == 0 {
                    assert(toks.flatten_alt() + num =~= toks.flatten_alt());
                }
            }
            assert(t.push(seq![ch]).flatten_alt() == t.flatten_alt() + seq![ch]) by {
                assert(t.push(seq![ch]).drop_last() =~= t);
            }
            assert(t2 == t.push(seq![ch]));
            assert(t2.flatten_alt() + n2 =~= fp.push(ch));
            assert forall|j: int| 0 <= j < t2.len() implies good_token(#[trigger] t2[j]) by {
                if j < toks.len() {
                    assert(t2[j] == toks[j]);
                } else if j == t2.len() - 1 {
                    assert(t2[j] == seq![ch]);
                } else {
                    assert(t2[j] == num);
                }
            }
        } else if ch == '-' && num.len() > 0 && num.last() != 'e' && num.last() != 'E' {
            assert(t2 == toks.push(num));
            assert(n2 == seq!['-']);
            assert(number_char('-')) by {
                assert(!unicode_alphabetic(ch));
            }
            assert(t2.flatten_alt() + n2 =~= fp.push(ch));
            assert forall|j: int| 0 <= j < t2.len() implies good_token(#[trigger] t2[j]) by {
                if j < toks.len() {
                    assert(t2[j] == toks[j]);
                }
            }
            assert(number_token(n2));
        } else if is_digit(ch) || ch == '.' || ch == '-' || ch == 'e' || ch == 'E' {
            assert(n2 == num.push(ch));
            assert(number_char(ch));
            assert(toks.flatten_alt() + num.push(ch) =~= (toks.flatten_alt() + num).push(ch));
            assert(number_token(n2)) by {
                assert forall|k: int| 0 <= k < n2.len() implies number_char(#[trigger] n2[k]) by {
                    if k < num.len() {
                        assert(n2[k] == num[k]);
                    }
                }
                assert forall|k: int| 0 < k < n2.len() && #[trigger] n2[k] == '-' implies n2[k - 1] == 'e' || n2[k
                    - 1] == 'E' by {
                    if k < num.len() {
                        assert(n2[k] == num[k]);
                        assert(n2[k - 1] == num[k - 1]);
                    } else {
                        assert(n2[k - 1] == num.last());
                    }
                }
            }
        } else if ch == ',' || is_ws(ch) {
            assert(!f(ch)) by {
                if is_ws(ch) {
                    assert(!is_digit(ch));
                }
            }
            let t = if num.len() > 0 { toks.push(num) } else { toks };
            assert(t2 == t);
            assert(n2 =~= Seq::<char>::empty());
            assert(t2.flatten_alt() + n2 =~= fp) by {
                if num.len() == 0 {
                    assert(toks.flatten_alt() + num =~= toks.flatten_alt());
                }
                assert(t2.flatten_alt() + n2 =~= t2.flatten_alt());
            }
            assert forall|j: int| 0 <= j < t2.len() implies good_token(#[trigger] t2[j]) by {
                if j < toks.len() {
                    assert(t2[j] == toks[j]);
                }
            }
        } else {
            assert(!f(ch));
        }
    }
}

/// The tokens of SVG path data are single letters and number tokens (a
/// `-` only first or after an exponent mark), none empty, and together
/// they spell the data with every other character left out.
pub proof fn law_svg_tokens(s: Seq<char>)
    ensures
        forall|j: int| 0 <= j < svg_tokens(s).len() ==> good_token(#[trigger] svg_tokens(s)[j]),
        svg_tokens(s).flatten() == s.filter(|c: char| token_char(c)),
{
    lemma_tok_state(s);
    let (toks, num) = tok_state(s);
    let r = svg_tokens(s);
    if num.len() > 0 {
        assert(r == toks.push(num));
        assert(r.drop_last() =~= toks);
        assert forall|j: int| 0 <= j < r.len() implies good_token(#[trigger] r[j]) by {
            if j < toks.len() {
                assert(r[j] == toks[j]);
            }
        }
    } else {
        assert(toks.flatten_alt() + num =~= toks.flatten_alt());
    }
    r.lemma_flatten_and_flatten_alt_are_equivalent();
}

/// Splits SVG path data into tokens.
pub fn tokenize_svg(d: &str) -> (r: Vec<String>)
    ensures
        r.deep_view() == svg_tokens(d@),
{
    let v = chars_of(d);
    let mut tokens: Vec<String> = Vec::new();
    let mut num: Vec<char> = Vec::new();
    let mut i: usize = 0;
    assert(v@.subrange(0, 0) =~= Seq::<char>::empty());
    assert(tokens.deep_view() =~= Seq::<Seq<char>>::empty());
    while i < v.len()
        invariant
            i <= v@.len(),
            v@ == d@,
            (tokens.deep_view(), num@) == tok_state(v@.subrange(0, i as int)),
        decreases v@.len() - i,
    {
        let ch = v[i];
        proof {
            let p = v@.subrange(0, i + 1);
            assert(p.drop_last() =~= v@.subrange(0, i as int));
            assert(p.last() == ch);
        }
        let ghost before = tokens.deep_view();
        if is_alphabetic(ch) {
            if num.len() > 0 {
                tokens.push(string_of(&num));
                num = Vec::new();
            }
            let mut one: Vec<char> = Vec::new();
            one.push(ch);
            let ghost mid = tokens.deep_view();
            tokens.push(string_of(&one));
            assert(one@ =~= seq![ch]);
            assert(tokens.deep_view() =~= mid.push(seq![ch]));
            assert(num@ =~= Seq::<char>::empty());
            assert(before.len() == mid.len() ==> mid =~= before);
        } else if ch == '-' && num.len() > 0 && num[num.len() - 1] != 'e' && num[num.len() - 1] != 'E' {
            tokens.push(string_of(&num));
            num = Vec::new();
            num.push('-');
            assert(num@ =~= seq!['-']);
            assert(tokens.deep_view() =~= before.push(tok_state(v@.subrange(0, i as int)).1));
        } else if is_ascii_digit(ch) || ch == '.' || ch == '-' || ch == 'e' || ch == 'E' {
            num.push(ch);
        } else if ch == ',' || is_whitespace(ch) {
            if num.len() > 0 {
                tokens.push(string_of(&num));
                assert(tokens.deep_view() =~= before.push(tok_state(v@.subrange(0, i as int)).1));
                num = Vec::new();
            }
            assert(num@ =~= Seq::<char>::empty());
        }
        i = i + 1;
    }
    assert(v@.subrange(0, i as int) =~= v@);
    if num.len() > 0 {
        let ghost before = tokens.deep_view();
        tokens.push(string_of(&num));
        assert(tokens.deep_view() =~= before.push(num@));
    }
    tokens
}

// ---------------------------------------------------------------------------
// Path commands
// ---------------------------------------------------------------------------

/// Whether token `i` reads as a number, by the flags the caller read the
/// tokens with (a missing flag counts as no).
pub open spec fn num_ok(nums: Seq<bool>, i: int) -> bool {
    0 <= i < nums.len() && nums[i]
}

/// A coordinate of a path operation, from the current point and the
/// tokens: the value of token `i` (0 when it does not read as a number),
/// the current coordinate plus that value, the value of token `i` or the
/// current coordinate when it does not read, or the current coordinate.
#[derive(Debug, Clone, Copy, PartialEq, Eq)]
pub enum Coord {
    Abs(usize),
    Rel(usize),
    AbsOrKeep(usize),
    Keep,
}

/// One operation on the path being built. Every coordinate is taken from
/// the current point before the operation; the operation's end point
/// becomes the current point.
#[derive(Debug, Clone, Copy, PartialEq, Eq)]
pub enum PathOp {
    /// Ends the open sub-path without closing it.
    End,
    /// Starts a sub-path at a point.
    Begin(Coord, Coord),
    /// A line to a point.
    LineTo(Coord, Coord),
    /// A cubic Bézier curve through two control points to a point.
    CubicTo(Coord, Coord, Coord, Coord, Coord, Coord),
    /// Closes the open sub-path.
    Close,
}

pub open spec fn is_cmd(t: Seq<char>, c: char) -> bool {
    t == seq![c]
}

/// The line-tos that follow an `M`: pairs of tokens that both read as
/// numbers, from token `i` on; the operations and where they stop.
pub open spec fn implicit_lines(toks: Seq<Seq<char>>, nums: Seq<bool>, i: int) -> (Seq<PathOp>, int)
    decreases toks.len() - i,
{
    if 0 <= i && i + 1 < toks.len() && num_ok(nums, i) && num_ok(nums, i + 1) {
        let rest = implicit_lines(toks, nums, i + 2);
        (seq![PathOp::LineTo(Coord::Abs(i as usize), Coord::Abs((i + 1) as usize))] + rest.0, rest.1)
    } else {
        (Seq::empty(), i)
    }
}

proof fn lemma_implicit_lines(toks: Seq<Seq<char>>, nums: Seq<bool>, i: int)
    requires
        0 <= i <= toks.len(),
    ensures
        i <= implicit_lines(toks, nums, i).1 <= toks.len(),
    decreases toks.len() - i,
{
    if 0 <= i && i + 1 < toks.len() && num_ok(nums, i) && num_ok(nums, i + 1) {
        lemma_implicit_lines(toks, nums, i + 2);
    }
}

/// The first token at or after `i` that starts with a letter (or the end).
pub open spec fn next_command(toks: Seq<Seq<char>>, i: int) -> int
    decreases toks.len() - i,
{
    if i < 0 || i >= toks.len() {
        i
    } else if toks[i].len() > 0 && unicode_alphabetic(toks[i][0]) {
        i
    } else {
        next_command(toks, i + 1)
    }
}

proof fn lemma_next_command(toks: Seq<Seq<char>>, i: int)
    requires
        0 <= i <= toks.len(),
    ensures
        i <= next_command(toks, i) <= toks.len(),
    decreases toks.len() - i,
{
    if i < toks.len() && !(toks[i].len() > 0 && unicode_alphabetic(toks[i][0])) {
        lemma_next_command(toks, i + 1);
    }
}

pub open spec fn ends_if(started: bool) -> Seq<PathOp> {
    if started {
        seq![PathOp::End]
    } else {
        Seq::empty()
    }
}

/// One command at token `i`: the operations it adds, the next token, and
/// whether a sub-path is open afterwards. A command without enough tokens
/// after it is skipped, as is any token that is no command.
pub open spec fn svg_step(toks: Seq<Seq<char>>, nums: Seq<bool>, i: int, started: bool) -> (Seq<PathOp>, int, bool) {
    let t = toks[i];
    let n = toks.len();
    let u = i as usize;
    if is_cmd(t, 'M') {
        if i + 2 < n {
            let l = implicit_lines(toks, nums, i + 3);
            (
                ends_if(started) + seq![PathOp::Begin(Coord::Abs((u + 1) as usize), Coord::Abs((u + 2) as usize))] + l.0,
                l.1,
                true,
            )
        } else {
            (Seq::empty(), i + 1, started)
        }
    } else if is_cmd(t, 'm') {
        if i + 2 < n {
            (
                ends_if(started) + seq![PathOp::Begin(Coord::Rel((u + 1) as usize), Coord::Rel((u + 2) as usize))],
                i + 3,
                true,
            )
        } else {
            (Seq::empty(), i + 1, started)
        }
    } else if is_cmd(t, 'L') || is_cmd(t, 'l') {
        if i + 2 < n {
            let c = if is_cmd(t, 'L') {
                PathOp::LineTo(Coord::Abs((u + 1) as usize), Coord::Abs((u + 2) as usize))
            } else {
                PathOp::LineTo(Coord::Rel((u + 1) as usize), Coord::Rel((u + 2) as usize))
            };
            (seq![c], i + 3, started)
        } else {
            (Seq::empty(), i + 1, started)
        }
    } else if is_cmd(t, 'H') || is_cmd(t, 'h') || is_cmd(t, 'V') || is_cmd(t, 'v') {
        if i + 1 < n {
            let v = (u + 1) as usize;
            let c = if is_cmd(t, 'H') {
                PathOp::LineTo(Coord::AbsOrKeep(v), Coord::Keep)
            } else if is_cmd(t, 'h') {
                PathOp::LineTo(Coord::Rel(v), Coord::Keep)
            } else if is_cmd(t, 'V') {
                PathOp::LineTo(Coord::Keep, Coord::AbsOrKeep(v))
            } else {
                PathOp::LineTo(Coord::Keep, Coord::Rel(v))
            };
            (seq![c], i + 2, started)
        } else {
            (Seq::empty(), i + 1, started)
        }
    } else if is_cmd(t, 'C') || is_cmd(t, 'c') {
        if i + 6 < n {
            let c = if is_cmd(t, 'C') {
                PathOp::CubicTo(
                    Coord::Abs((u + 1) as usize),
                    Coord::Abs((u + 2) as usize),
                    Coord::Abs((u + 3) as usize),
                    Coord::Abs((u + 4) as usize),
                    Coord::Abs((u + 5) as usize),
                    Coord::Abs((u + 6) as usize),
                )
            } else {
                PathOp::CubicTo(
                    Coord::Rel((u + 1) as usize),
                    Coord::Rel((u + 2) as usize),
                    Coord::Rel((u + 3) as usize),
                    Coord::Rel((u + 4) as usize),
                    Coord::Rel((u + 5) as usize),
                    Coord::Rel((u + 6) as usize),
                )
            };
            (seq![c], i + 7, started)
        } else {
            (Seq::empty(), i + 1, started)
        }
    } else if is_cmd(t, 'S') || is_cmd(t, 's') || is_cmd(t, 'Q') || is_cmd(t, 'q') || is_cmd(t, 'T')
        || is_cmd(t, 't') || is_cmd(t, 'A') || is_cmd(t, 'a') {
        (Seq::empty(), next_command(toks, i + 1), started)
    } else if is_cmd(t, 'Z') || is_cmd(t, 'z') {
        (ends_close(started), i + 1, false)
    } else {
        (Seq::empty(), i + 1, started)
    }
}

pub open spec fn ends_close(started: bool) -> Seq<PathOp> {
    if started {
        seq![PathOp::Close]
    } else {
        Seq::empty()
    }
}

pub proof fn lemma_svg_step(toks: Seq<Seq<char>>, nums: Seq<bool>, i: int, started: bool)
    requires
        0 <= i < toks.len(),
    ensures
        i < svg_step(toks, nums, i, started).1 <= toks.len(),
{
    if i + 3 <= toks.len() {
        lemma_implicit_lines(toks, nums, i + 3);
    }
    lemma_next_command(toks, i + 1);
}

/// The operations of the commands from token `i` on, with a sub-path open
/// or not; an open sub-path is ended at the end.
pub open spec fn svg_ops(toks: Seq<Seq<char>>, nums: Seq<bool>, i: int, started: bool) -> Seq<PathOp>
    decreases toks.len() - i,
{
    if i < 0 || i >= toks.len() {
        ends_if(started)
    } else {
        let st = svg_step(toks, nums, i, started);
        proof {
            lemma_svg_step(toks, nums, i, started);
        }
        st.0 + svg_ops(toks, nums, st.1, st.2)
    }
}

fn is_command(t: &String, c: char) -> (r: bool)
    ensures
        r == is_cmd(t@, c),
{
    let v = chars_of(t.as_str());
    v.len() == 1 && v[0] == c && {
        assert(v@ =~= seq![c]);
        true
    }
}

fn starts_with_letter(t: &String) -> (r: bool)
    ensures
        r == (t@.len() > 0 && unicode_alphabetic(t@[0])),
{
    let v = chars_of(t.as_str());
    v.len() > 0 && is_alphabetic(v[0])
}

fn flag(nums: &Vec<bool>, i: usize) -> (r: bool)
    ensures
        r == num_ok(nums@, i as int),
{
    i < nums.len() && nums[i]
}

fn push_implicit_lines(toks: &Vec<String>, nums: &Vec<bool>, start: usize, out: &mut Vec<PathOp>) -> (r: usize)
    requires
        start <= toks@.len(),
    ensures
        final(out)@ == old(out)@ + implicit_lines(toks.deep_view(), nums@, start as int).0,
        r == implicit_lines(toks.deep_view(), nums@, start as int).1,
{
    let ghost tv = toks.deep_view();
    let ghost base = out@;
    let mut i = start;
    proof {
        lemma_implicit_lines(tv, nums@, start as int);
    }
    while toks.len() - i > 1 && flag(nums, i) && flag(nums, i + 1)
        invariant
            start <= i <= toks@.len(),
            tv == toks.deep_view(),
            (i - start) % 2 == 0,
            base + implicit_lines(tv, nums@, start as int).0 == out@ + implicit_lines(tv, nums@, i as int).0,
            implicit_lines(tv, nums@, start as int).1 == implicit_lines(tv, nums@, i as int).1,
        decreases toks@.len() - i,
    {
        let ghost before = out@;
        out.push(PathOp::LineTo(Coord::Abs(i), Coord::Abs(i + 1)));
        proof {
            let rest = implicit_lines(tv, nums@, i + 2);
            assert(implicit_lines(tv, nums@, i as int).0 == seq![PathOp::LineTo(Coord::Abs(i), Coord::Abs((i + 1) as usize))] + rest.0);
            assert(before + (seq![PathOp::LineTo(Coord::Abs(i), Coord::Abs((i + 1) as usize))] + rest.0) =~= out@ + rest.0);
        }
        i = i + 2;
    }
    proof {
        assert(implicit_lines(tv, nums@, i as int).0 =~= Seq::<PathOp>::empty());
        assert(out@ + Seq::<PathOp>::empty() =~= out@);
    }
    i
}

fn push_ends(out: &mut Vec<PathOp>, started: bool)
    ensures
        final(out)@ == old(out)@ + ends_if(started),
{
    let ghost before = out@;
    if started {
        out.push(PathOp::End);
        assert(out@ =~= before + seq![PathOp::End]);
    } else {
        assert(out@ =~= before + Seq::<PathOp>::empty());
    }
}

fn skip_to_command(toks: &Vec<String>, from: usize) -> (r: usize)
    requires
        from <= toks@.len(),
    ensures
        r == next_command(toks.deep_view(), from as int),
{
    let ghost tv = toks.deep_view();
    let mut i = from;
    while i < toks.len() && !starts_with_letter(&toks[i])
        invariant
            from <= i <= toks@.len(),
            tv == toks.deep_view(),
            next_command(tv, from as int) == next_command(tv, i as int),
        decreases toks@.len() - i,
    {
        assert(tv[i as int] == toks@[i as int]@);
        i = i + 1;
    }
    proof {
        if i < toks@.len() {
            assert(tv[i as int] == toks@[i as int]@);
        }
    }
    i
}

/// The path operations of tokenized SVG path data: `M`/`m` start a
/// sub-path (ending the open one; an `M` takes the number pairs that
/// follow as line-tos), `L`/`l`, `H`/`h`, `V`/`v` draw lines, `C`/`c`
/// curves, `Z`/`z` close the open sub-path; `S`, `Q`, `T`, `A` (either
/// case) and their numbers are skipped, and so is anything else. `nums`
/// says which tokens read as numbers.
pub fn svg_path_ops(toks: &Vec<String>, nums: &Vec<bool>) -> (r: Vec<PathOp>)
    ensures
        r@ == svg_ops(toks.deep_view(), nums@, 0, false),
{
    let ghost tv = toks.deep_view();
    let mut out: Vec<PathOp> = Vec::new();
    let mut i: usize = 0;
    let mut started = false;
    let n = toks.len();
    while i < n
        invariant
            i <= n,
            n == toks@.len(),
            tv == toks.deep_view(),
            out@ + svg_ops(tv, nums@, i as int, started) == svg_ops(tv, nums@, 0, false),
        decreases n - i,
    {
        let ghost before = out@;
        let ghost st = svg_step(tv, nums@, i as int, started);
        proof {
            lemma_svg_step(tv, nums@, i as int, started);
            assert(svg_ops(tv, nums@, i as int, started) == st.0 + svg_ops(tv, nums@, st.1, st.2));
            assert(tv[i as int] == toks@[i as int]@);
        }
        let t = &toks[i];
        let next: usize;
        let now_started: bool;
        if is_command(t, 'M') {
            if n - i > 2 {
                push_ends(&mut out, started);
                out.push(PathOp::Begin(Coord::Abs(i + 1), Coord::Abs(i + 2)));
                next = push_implicit_lines(toks, nums, i + 3, &mut out);
                now_started = true;
            } else {
                next = i + 1;
                now_started = started;
            }
        } else if is_command(t, 'm') {
            if n - i > 2 {
                push_ends(&mut out, started);
                out.push(PathOp::Begin(Coord::Rel(i + 1), Coord::Rel(i + 2)));
                next = i + 3;
                now_started = true;
            } else {
                next = i + 1;
                now_started = started;
            }
        } else if is_command(t, 'L') || is_command(t, 'l') {
            if n - i > 2 {
                if is_command(t, 'L') {
                    out.push(PathOp::LineTo(Coord::Abs(i + 1), Coord::Abs(i + 2)));
                } else {
                    out.push(PathOp::LineTo(Coord::Rel(i + 1), Coord::Rel(i + 2)));
                }
                next = i + 3;
            } else {
                next = i + 1;
            }
            now_started = started;
        } else if is_command(t, 'H') || is_command(t, 'h') || is_command(t, 'V') || is_command(t, 'v') {
            if n - i > 1 {
                let v = i + 1;
                if is_command(t, 'H') {
                    out.push(PathOp::LineTo(Coord::AbsOrKeep(v), Coord::Keep));
                } else if is_command(t, 'h') {
                    out.push(PathOp::LineTo(Coord::Rel(v), Coord::Keep));
                } else if is_command(t, 'V') {
                    out.push(PathOp::LineTo(Coord::Keep, Coord::AbsOrKeep(v)));
                } else {
                    out.push(PathOp::LineTo(Coord::Keep, Coord::Rel(v)));
                }
                next = i + 2;
            } else {
                next = i + 1;
            }
            now_started = started;
        } else if is_command(t, 'C') || is_command(t, 'c') {
            if n - i > 6 {
                if is_command(t, 'C') {
                    out.push(PathOp::CubicTo(Coord::Abs(i + 1), Coord::Abs(i + 2), Coord::Abs(i + 3), Coord::Abs(i + 4), Coord::Abs(i + 5), Coord::Abs(i + 6)));
                } else {
                    out.push(PathOp::CubicTo(Coord::Rel(i + 1), Coord::Rel(i + 2), Coord::Rel(i + 3), Coord::Rel(i + 4), Coord::Rel(i + 5), Coord::Rel(i + 6)));
                }
                next = i + 7;
            } else {
                next = i + 1;
            }
            now_started = started;
        } else if is_command(t, 'S') || is_command(t, 's') || is_command(t, 'Q') || is_command(t, 'q')
            || is_command(t, 'T') || is_command(t, 't') || is_command(t, 'A') || is_command(t, 'a') {
            next = skip_to_command(toks, i + 1);
            now_started = started;
        } else if is_command(t, 'Z') || is_command(t, 'z') {
            if started {
                out.push(PathOp::Close);
            }
            next = i + 1;
            now_started = false;
        } else {
            next = i + 1;
            now_started = started;
        }
        proof {
            assert(out@ =~= before + st.0);
            assert(next == st.1);
            assert(now_started == st.2);
        }
        i = next;
        started = now_started;
    }
    proof {
        assert(svg_ops(tv, nums@, i as int, started) == ends_if(started));
    }
    push_ends(&mut out, started);
    out
}

// ---------------------------------------------------------------------------
// The operations respect the path builder's protocol
// ---------------------------------------------------------------------------

/// Runs operations from a state (a sub-path open or not): a sub-path
/// starts only when none is open, and is ended or closed only when one is;
/// `None` when an operation breaks this.
pub open spec fn run_state(ops: Seq<PathOp>, open: bool) -> Option<bool>
    decreases ops.len(),
{
    if ops.len() == 0 {
        Some(open)
    } else {
        let next = match ops[0] {
            PathOp::Begin(_, _) => if open {
                None
            } else {
                Some(true)
            },
            PathOp::End => if open {
                Some(false)
            } else {
                None
            },
            PathOp::Close => if open {
                Some(false)
            } else {
                None
            },
            _ => Some(open),
        };
        match next {
            Some(o) => run_state(ops.drop_first(), o),
            None => None,
        }
    }
}

proof fn lemma_run_concat(a: Seq<PathOp>, b: Seq<PathOp>, open: bool)
    ensures
        run_state(a + b, open) == match run_state(a, open) {
            Some(o) => run_state(b, o),
            None => None,
        },
    decreases a.len(),
{
    if a.len() == 0 {
        assert(a + b =~= b);
    } else {
        assert((a + b).drop_first() =~= a.drop_first() + b);
        assert((a + b)[0] == a[0]);
        let next = match a[0] {
            PathOp::Begin(_, _) => if open { None } else { Some(true) },
            PathOp::End => if open { Some(false) } else { None },
            PathOp::Close => if open { Some(false) } else { None },
            _ => Some(open),
        };
        match next {
            Some(o) => lemma_run_concat(a.drop_first(), b, o),
            None => {},
        }
    }
}

proof fn lemma_implicit_lines_run(toks: Seq<Seq<char>>, nums: Seq<bool>, i: int)
    ensures
        run_state(implicit_lines(toks, nums, i).0, true) == Some(true),
    decreases toks.len() - i,
{
    if 0 <= i && i + 1 < toks.len() && num_ok(nums, i) && num_ok(nums, i + 1) {
        lemma_implicit_lines_run(toks, nums, i + 2);
        let rest = implicit_lines(toks, nums, i + 2).0;
        let all = seq![PathOp::LineTo(Coord::Abs(i as usize), Coord::Abs((i + 1) as usize))] + rest;
        assert(all.drop_first() =~= rest);
    }
}

proof fn lemma_step_run(toks: Seq<Seq<char>>, nums: Seq<bool>, i: int, started: bool)
    requires
        0 <= i < toks.len(),
    ensures
        run_state(svg_step(toks, nums, i, started).0, started) == Some(svg_step(toks, nums, i, started).2),
{
    reveal_with_fuel(run_state, 3);
    let st = svg_step(toks, nums, i, started);
    let t = toks[i];
    let u = i as usize;
    assert(Seq::<PathOp>::empty().len() == 0);
    if is_cmd(t, 'M') && i + 2 < toks.len() {
        let b = seq![PathOp::Begin(Coord::Abs((u + 1) as usize), Coord::Abs((u + 2) as usize))];
        let l = implicit_lines(toks, nums, i + 3).0;
        lemma_implicit_lines_run(toks, nums, i + 3);
        lemma_run_concat(ends_if(started) + b, l, started);
        lemma_run_concat(ends_if(started), b, started);
        assert(run_state(ends_if(started), started) == Some(false)) by {
            if started {
                assert(ends_if(started).drop_first() =~= Seq::<PathOp>::empty());
            }
        }
        assert(b.drop_first() =~= Seq::<PathOp>::empty());
    } else if is_cmd(t, 'm') && i + 2 < toks.len() {
        let b = seq![PathOp::Begin(Coord::Rel((u + 1) as usize), Coord::Rel((u + 2) as usize))];
        lemma_run_concat(ends_if(started), b, started);
        assert(run_state(ends_if(started), started) == Some(false)) by {
            if started {
                assert(ends_if(started).drop_first() =~= Seq::<PathOp>::empty());
            }
        }
        assert(b.drop_first() =~= Seq::<PathOp>::empty());
    } else if st.0.len() == 1 {
        assert(st.0.drop_first() =~= Seq::<PathOp>::empty());
    }
}

proof fn lemma_ops_run(toks: Seq<Seq<char>>, nums: Seq<bool>, i: int, started: bool)
    requires
        0 <= i,
    ensures
        run_state(svg_ops(toks, nums, i, started), started) == Some(false),
    decreases toks.len() - i,
{
    if i >= toks.len() {
        reveal_with_fuel(run_state, 2);
        if started {
            assert(ends_if(started).drop_first() =~= Seq::<PathOp>::empty());
        }
    } else {
        let st = svg_step(toks, nums, i, started);
        lemma_svg_step(toks, nums, i, started);
        lemma_step_run(toks, nums, i, started);
        lemma_ops_run(toks, nums, st.1, st.2);
        lemma_run_concat(st.0, svg_ops(toks, nums, st.1, st.2), started);
    }
}

/// The operations of any path data keep the builder's protocol: a
/// sub-path is begun only when none is open, ended or closed only when one
/// is, and none is left open at the end.
pub proof fn law_svg_ops_balanced(toks: Seq<Seq<char>>, nums: Seq<bool>)
    ensures
        run_state(svg_ops(toks, nums, 0, false), false) == Some(false),
{
    lemma_ops_run(toks, nums, 0, false);
}

} // verus!
