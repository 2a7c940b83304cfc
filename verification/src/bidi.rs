//! Detection of right-to-left characters and logical-to-visual reordering.

use vstd::prelude::*;
use crate::shaping::{shape_chars, shaped};
use crate::text::{chars_of, string_of};

verus! {

/// First code point of the Hebrew/Arabic/Syriac/Thaana/NKo/... block range.
pub const RTL_START: u32 = 0x0590;
/// Last code point of that range.
pub const RTL_END: u32 = 0x08FF;
/// First code point of the Hebrew/Arabic presentation forms A range.
pub const RTL_FB_START: u32 = 0xFB1D;
/// Last code point of presentation forms A.
pub const RTL_FB_END: u32 = 0xFDFF;
/// First code point of the Arabic presentation forms B range.
pub const RTL_FE_START: u32 = 0xFE70;
/// Last code point taken as RTL in presentation forms B.
pub const RTL_FE_END: u32 = 0xFEFC;

/// A character is right-to-left when its code point lies in one of the three ranges.
pub open spec fn is_rtl(c: char) -> bool {
    let u = c as u32;
    (RTL_START <= u <= RTL_END) || (RTL_FB_START <= u <= RTL_FB_END) || (RTL_FE_START <= u
        <= RTL_FE_END)
}

/// Some character of `s` is right-to-left.
pub open spec fn has_rtl(s: Seq<char>) -> bool {
    exists|i: int| 0 <= i < s.len() && is_rtl(#[trigger] s[i])
}

fn char_is_rtl(c: char) -> (r: bool)
    ensures
        r == is_rtl(c),
{
    let u = c as u32;
    (u >= RTL_START && u <= RTL_END) || (u >= RTL_FB_START && u <= RTL_FB_END) || (u
        >= RTL_FE_START && u <= RTL_FE_END)
}

/// True when the string contains RTL (Hebrew/Arabic-family) characters.
pub fn contains_rtl(s: &str) -> (r: bool)
    ensures
        r == has_rtl(s@),
{
    for c in it: s.chars()
        invariant
            it.seq() == s@,
            forall|j: int| 0 <= j < it.index() ==> !is_rtl(#[trigger] s@[j]),
    {
        if char_is_rtl(c) {
            return true;
        }
    }
    false
}


/// A decimal digit, ASCII or Arabic-Indic.
pub open spec fn is_digit_char(c: char) -> bool {
    ('0' as u32 <= c as u32 <= '9' as u32) || (0x0660 <= c as u32 <= 0x0669)
}

fn is_digit(c: char) -> (r: bool)
    ensures
        r == is_digit_char(c),
{
    (c >= '0' && c <= '9') || (c >= '\u{0660}' && c <= '\u{0669}')
}

/// A character that joins whatever run it follows: space, tab or a digit.
pub open spec fn is_neutral(c: char) -> bool {
    c == ' ' || c == '\t' || is_digit_char(c)
}

/// A run of the line: its text and whether it is right-to-left.
pub type RunView = (Seq<char>, bool);

/// The runs after one more character `c`: the first character opens a run of
/// its own direction; a neutral character, or one of the current run's
/// direction, extends the current run; any other opens a new run.
pub open spec fn extend_runs(runs: Seq<RunView>, c: char) -> Seq<RunView> {
    if runs.len() == 0 {
        seq![(seq![c], is_rtl(c))]
    } else if is_neutral(c) || is_rtl(c) == runs.last().1 {
        runs.update(runs.len() - 1, (runs.last().0.push(c), runs.last().1))
    } else {
        runs.push((seq![c], is_rtl(c)))
    }
}

/// The direction runs of a line, in logical order.
pub open spec fn runs_of(s: Seq<char>) -> Seq<RunView>
    decreases s.len(),
{
    if s.len() == 0 {
        Seq::empty()
    } else {
        extend_runs(runs_of(s.drop_last()), s.last())
    }
}

/// A right-to-left run is shaped; a left-to-right run is kept.
pub open spec fn shape_run(r: RunView) -> RunView {
    if r.1 {
        (shaped(r.0), true)
    } else {
        r
    }
}

/// The number of right-to-left runs.
pub open spec fn count_rtl(runs: Seq<RunView>) -> nat
    decreases runs.len(),
{
    if runs.len() == 0 {
        0
    } else {
        count_rtl(runs.drop_last()) + if runs.last().1 {
            1nat
        } else {
            0nat
        }
    }
}

/// The texts of the runs, one after the other.
pub open spec fn concat_runs(runs: Seq<RunView>) -> Seq<char>
    decreases runs.len(),
{
    if runs.len() == 0 {
        Seq::empty()
    } else {
        concat_runs(runs.drop_last()) + runs.last().0
    }
}

/// The visual form of a line: a line without right-to-left characters is kept;
/// otherwise its right-to-left runs are shaped and, when at least half of the
/// runs are right-to-left, the runs are put in reverse order.
pub open spec fn visual(s: Seq<char>) -> Seq<char> {
    if !has_rtl(s) {
        s
    } else {
        let runs = runs_of(s);
        let shaped_runs = runs.map_values(|r: RunView| shape_run(r));
        if 2 * count_rtl(runs) >= runs.len() {
            concat_runs(shaped_runs.reverse())
        } else {
            concat_runs(shaped_runs)
        }
    }
}

/// The runs of `s` partition it into maximal direction runs: read in order
/// they give back `s`; none is empty; every non-neutral character of a run has
/// the run's direction; the first run takes the direction of its first
/// character; and every later run starts with a non-neutral character whose
/// direction differs from that of the run before it.
pub open spec fn is_run_partition(s: Seq<char>, runs: Seq<RunView>) -> bool {
    &&& concat_runs(runs) == s
    &&& forall|k: int| 0 <= k < runs.len() ==> (#[trigger] runs[k]).0.len() > 0
    &&& forall|k: int, j: int|
        0 <= k < runs.len() && 0 <= j < runs[k].0.len() && !is_neutral(#[trigger] runs[k].0[j])
            ==> is_rtl(runs[k].0[j]) == runs[k].1
    &&& runs.len() > 0 ==> runs[0].1 == is_rtl(runs[0].0[0])
    &&& forall|k: int|
        0 < k < runs.len() ==> !is_neutral((#[trigger] runs[k]).0[0]) && is_rtl(runs[k].0[0])
            != runs[k - 1].1
}

/// A line is split into its maximal direction runs: neutral characters
/// (spaces, tabs, digits) never open a run of their own after the first one,
/// so digits stay attached to the text before them, and no character is lost
/// or moved.
pub proof fn law_runs_partition_line(s: Seq<char>)
    ensures
        is_run_partition(s, runs_of(s)),
    decreases s.len(),
{
    if s.len() > 0 {
        let p = s.drop_last();
        let c = s.last();
        law_runs_partition_line(p);
        let r = runs_of(p);
        let r2 = runs_of(s);
        assert(s =~= p.push(c));
        if r.len() == 0 {
            assert(p.len() == 0) by {
                if p.len() > 0 {
                    assert(concat_runs(r) =~= Seq::<char>::empty());
                }
            }
            assert(r2 == seq![(seq![c], is_rtl(c))]);
            assert(concat_runs(r2.drop_last()) =~= Seq::<char>::empty());
            assert(concat_runs(r2) =~= s);
        } else if is_neutral(c) || is_rtl(c) == r.last().1 {
            let last = r.last();
            assert(r2 == r.update(r.len() - 1, (last.0.push(c), last.1)));
            assert(r2.drop_last() =~= r.drop_last());
            assert(concat_runs(r) == concat_runs(r.drop_last()) + last.0);
            assert(concat_runs(r2) =~= s);
            assert forall|k: int, j: int|
                0 <= k < r2.len() && 0 <= j < r2[k].0.len() && !is_neutral(#[trigger] r2[k].0[j])
                    implies is_rtl(r2[k].0[j]) == r2[k].1 by {
                if k < r.len() - 1 {
                    assert(r2[k] == r[k]);
                } else if j < last.0.len() {
                    assert(r2[k].0[j] == r[k].0[j]);
                }
            }
            assert forall|k: int| 0 < k < r2.len() implies !is_neutral((#[trigger] r2[k]).0[0])
                && is_rtl(r2[k].0[0]) != r2[k - 1].1 by {
                assert(r[k].0.len() > 0);
                assert(r2[k].0[0] == r[k].0[0]);
                if k - 1 < r.len() - 1 {
                    assert(r2[k - 1] == r[k - 1]);
                }
            }
            assert(r[0].0.len() > 0);
            assert(r2[0].0[0] == r[0].0[0]);
        } else {
            assert(r2 == r.push((seq![c], is_rtl(c))));
            assert(r2.drop_last() =~= r);
            assert(concat_runs(r2) =~= s);
            assert forall|k: int, j: int|
                0 <= k < r2.len() && 0 <= j < r2[k].0.len() && !is_neutral(#[trigger] r2[k].0[j])
                    implies is_rtl(r2[k].0[j]) == r2[k].1 by {
                if k < r.len() {
                    assert(r2[k] == r[k]);
                }
            }
            assert forall|k: int| 0 < k < r2.len() implies !is_neutral((#[trigger] r2[k]).0[0])
                && is_rtl(r2[k].0[0]) != r2[k - 1].1 by {
                if k < r.len() {
                    assert(r2[k] == r[k]);
                }
                assert(r2[k - 1] == r[k - 1]);
            }
            assert(r2[0] == r[0]);
        }
    } else {
        assert(s =~= Seq::<char>::empty());
    }
}

/// A right-to-left character, or a space, a tab or a digit (ASCII or
/// Arabic-Indic).
pub open spec fn rtl_or_spacing_or_digit(c: char) -> bool {
    is_rtl(c) || c == ' ' || c == '\t' || ('0' as u32 <= c as u32 <= '9' as u32) || (0x0660
        <= c as u32 <= 0x0669)
}

proof fn lemma_rtl_text_one_run(s: Seq<char>)
    requires
        s.len() > 0,
        is_rtl(s[0]),
        forall|j: int| 0 <= j < s.len() ==> rtl_or_spacing_or_digit(#[trigger] s[j]),
    ensures
        runs_of(s) == seq![(s, true)],
    decreases s.len(),
{
    let p = s.drop_last();
    let c = s.last();
    if p.len() == 0 {
        assert(runs_of(p) =~= Seq::<RunView>::empty());
        assert(seq![c] =~= s);
    } else {
        assert forall|j: int| 0 <= j < p.len() implies rtl_or_spacing_or_digit(#[trigger] p[j]) by {
            assert(p[j] == s[j]);
        }
        lemma_rtl_text_one_run(p);
        assert(rtl_or_spacing_or_digit(s[s.len() - 1]));
        assert(p.push(c) =~= s);
        assert(runs_of(s) =~~= seq![(s, true)]);
    }
}

/// Right-to-left text with spaces, tabs and numbers in it (ASCII or
/// Arabic-Indic digits) is a single right-to-left run: the numbers stay
/// attached where they are, and the line is shaped in place, not reordered.
pub proof fn law_rtl_text_with_numbers_is_one_run(s: Seq<char>)
    requires
        s.len() > 0,
        is_rtl(s[0]),
        forall|j: int| 0 <= j < s.len() ==> rtl_or_spacing_or_digit(#[trigger] s[j]),
    ensures
        runs_of(s) == seq![(s, true)],
        visual(s) == shaped(s),
{
    lemma_rtl_text_one_run(s);
    let runs = runs_of(s);
    let shaped_runs = runs.map_values(|r: RunView| shape_run(r));
    assert(has_rtl(s)) by {
        assert(is_rtl(s[0]));
    }
    assert(count_rtl(runs.drop_last()) == 0) by {
        assert(runs.drop_last() =~= Seq::<RunView>::empty());
    }
    assert(shaped_runs =~~= seq![(shaped(s), true)]);
    assert(shaped_runs.reverse() =~~= seq![(shaped(s), true)]);
    assert(seq![(shaped(s), true)].drop_last() =~= Seq::<RunView>::empty());
    let one = seq![(shaped(s), true)];
    assert(one.last() == (shaped(s), true));
    assert(concat_runs(one.drop_last()) == Seq::<char>::empty());
    assert(Seq::<char>::empty() + shaped(s) =~= shaped(s));
    assert(concat_runs(one) == concat_runs(one.drop_last()) + one.last().0);
}

/// A space, a tab or a digit (ASCII or Arabic-Indic).
pub open spec fn is_spacing_or_digit(c: char) -> bool {
    c == ' ' || c == '\t' || ('0' as u32 <= c as u32 <= '9' as u32) || (0x0660 <= c as u32
        <= 0x0669)
}

/// `t` is a stretch of text of one direction: it opens with a character of
/// that direction that is no space, tab or digit, and every other character
/// has that direction or is a space, a tab or a digit.
pub open spec fn one_direction(t: Seq<char>, rtl: bool) -> bool {
    &&& t.len() > 0
    &&& !is_spacing_or_digit(t[0])
    &&& is_rtl(t[0]) == rtl
    &&& forall|j: int| 0 <= j < t.len() ==> is_spacing_or_digit(#[trigger] t[j]) || is_rtl(t[j]) == rtl
}

proof fn lemma_one_direction_single_run(t: Seq<char>, rtl: bool)
    requires
        one_direction(t, rtl),
    ensures
        runs_of(t) == seq![(t, rtl)],
    decreases t.len(),
{
    let p = t.drop_last();
    let c = t.last();
    if p.len() == 0 {
        assert(runs_of(p) =~= Seq::<RunView>::empty());
        assert(seq![c] =~= t);
    } else {
        assert(p[0] == t[0]);
        assert forall|j: int| 0 <= j < p.len() implies is_spacing_or_digit(#[trigger] p[j])
            || is_rtl(p[j]) == rtl by {
            assert(p[j] == t[j]);
        }
        lemma_one_direction_single_run(p, rtl);
        assert(is_spacing_or_digit(t[t.len() - 1]) || is_rtl(t[t.len() - 1]) == rtl);
        assert(p.push(c) =~= t);
        assert(runs_of(t) =~~= seq![(t, rtl)]);
    }
}

proof fn lemma_append_run(s: Seq<char>, runs: Seq<RunView>, t: Seq<char>, rtl: bool)
    requires
        runs_of(s) == runs,
        runs.len() > 0,
        runs.last().1 != rtl,
        one_direction(t, rtl),
    ensures
        runs_of(s + t) == runs.push((t, rtl)),
    decreases t.len(),
{
    let p = t.drop_last();
    let c = t.last();
    if p.len() == 0 {
        assert(s + t =~= s.push(c));
        assert((s + t).drop_last() =~= s);
        assert(seq![c] =~= t);
        assert(runs_of(s + t) =~~= runs.push((t, rtl)));
    } else {
        assert(p[0] == t[0]);
        assert forall|j: int| 0 <= j < p.len() implies is_spacing_or_digit(#[trigger] p[j])
            || is_rtl(p[j]) == rtl by {
            assert(p[j] == t[j]);
        }
        lemma_append_run(s, runs, p, rtl);
        assert(is_spacing_or_digit(t[t.len() - 1]) || is_rtl(t[t.len() - 1]) == rtl);
        assert((s + t).drop_last() =~= s + p);
        assert((s + t).last() == c);
        assert(p.push(c) =~= t);
        assert(runs_of(s + t) =~~= runs.push((t, rtl)));
    }
}

/// When right-to-left runs are at least half of a line's runs, the runs are
/// shown in reverse order: left-to-right text followed by right-to-left text
/// is shown with the shaped right-to-left text first, and the other way round.
pub proof fn law_rtl_half_reverses_runs(x: Seq<char>, y: Seq<char>)
    requires
        one_direction(x, false),
        one_direction(y, true),
    ensures
        visual(x + y) == shaped(y) + x,
        visual(y + x) == x + shaped(y),
{
    lemma_one_direction_single_run(x, false);
    lemma_one_direction_single_run(y, true);
    lemma_append_run(x, seq![(x, false)], y, true);
    lemma_append_run(y, seq![(y, true)], x, false);
    assert(has_rtl(x + y)) by {
        assert((x + y)[x.len() as int] == y[0]);
    }
    assert(has_rtl(y + x)) by {
        assert((y + x)[0] == y[0]);
    }
    let r1 = seq![(x, false), (y, true)];
    let r2 = seq![(y, true), (x, false)];
    assert(seq![(x, false)].push((y, true)) =~~= r1);
    assert(seq![(y, true)].push((x, false)) =~~= r2);
    assert(r1.drop_last() =~~= seq![(x, false)]);
    assert(r1.drop_last().drop_last() =~= Seq::<RunView>::empty());
    assert(r2.drop_last() =~~= seq![(y, true)]);
    assert(r2.drop_last().drop_last() =~= Seq::<RunView>::empty());
    assert(count_rtl(r1.drop_last().drop_last()) == 0);
    assert(r1.drop_last().last() == (x, false));
    assert(count_rtl(r1.drop_last()) == 0);
    assert(r1.last() == (y, true));
    assert(count_rtl(r1) == 1);
    assert(count_rtl(r2.drop_last().drop_last()) == 0);
    assert(r2.drop_last().last() == (y, true));
    assert(count_rtl(r2.drop_last()) == 1);
    assert(r2.last() == (x, false));
    assert(count_rtl(r2) == 1);
    let s1 = r1.map_values(|r: RunView| shape_run(r));
    let s2 = r2.map_values(|r: RunView| shape_run(r));
    let o1 = seq![(shaped(y), true), (x, false)];
    let o2 = seq![(x, false), (shaped(y), true)];
    assert(s1.reverse() =~~= o1);
    assert(s2.reverse() =~~= o2);
    assert(o1.drop_last() =~~= seq![(shaped(y), true)]);
    assert(o1.drop_last().drop_last() =~= Seq::<RunView>::empty());
    assert(o2.drop_last() =~~= seq![(x, false)]);
    assert(o2.drop_last().drop_last() =~= Seq::<RunView>::empty());
    assert(o1.drop_last().last() == (shaped(y), true));
    assert(concat_runs(o1.drop_last().drop_last()) == Seq::<char>::empty());
    assert(concat_runs(o1.drop_last()) =~= shaped(y));
    assert(o1.last() == (x, false));
    assert(o2.drop_last().last() == (x, false));
    assert(concat_runs(o2.drop_last().drop_last()) == Seq::<char>::empty());
    assert(concat_runs(o2.drop_last()) =~= x);
    assert(o2.last() == (shaped(y), true));
}

/// When right-to-left runs are fewer than half of a line's runs, the runs
/// keep their order: a right-to-left stretch between two left-to-right ones
/// is shaped in place.
pub proof fn law_rtl_minority_keeps_order(x: Seq<char>, y: Seq<char>, z: Seq<char>)
    requires
        one_direction(x, false),
        one_direction(y, true),
        one_direction(z, false),
    ensures
        visual(x + y + z) == x + shaped(y) + z,
{
    lemma_one_direction_single_run(x, false);
    lemma_append_run(x, seq![(x, false)], y, true);
    let r2 = seq![(x, false)].push((y, true));
    lemma_append_run(x + y, r2, z, false);
    let r = r2.push((z, false));
    assert(has_rtl(x + y + z)) by {
        assert((x + y + z)[x.len() as int] == y[0]);
    }
    assert(r =~~= seq![(x, false), (y, true), (z, false)]);
    assert(r.drop_last() =~~= r2);
    assert(r2.drop_last() =~~= seq![(x, false)]);
    assert(r2.drop_last().drop_last() =~= Seq::<RunView>::empty());
    assert(count_rtl(r2.drop_last().drop_last()) == 0);
    assert(r2.drop_last().last() == (x, false));
    assert(count_rtl(r2.drop_last()) == 0);
    assert(r2.last() == (y, true));
    assert(count_rtl(r2) == 1);
    assert(r.last() == (z, false));
    assert(count_rtl(r) == 1);
    let sr = r.map_values(|q: RunView| shape_run(q));
    assert(sr =~~= seq![(x, false), (shaped(y), true), (z, false)]);
    assert(sr.drop_last() =~~= seq![(x, false), (shaped(y), true)]);
    assert(sr.drop_last().drop_last() =~~= seq![(x, false)]);
    assert(sr.drop_last().drop_last().drop_last() =~= Seq::<RunView>::empty());
    assert(sr.drop_last().drop_last().last() == (x, false));
    assert(concat_runs(sr.drop_last().drop_last().drop_last()) == Seq::<char>::empty());
    assert(concat_runs(sr.drop_last().drop_last()) =~= x);
    assert(sr.drop_last().last() == (shaped(y), true));
    assert(sr.last() == (z, false));
    assert(concat_runs(sr.drop_last()) =~= x + shaped(y));
    assert(concat_runs(sr) =~= x + shaped(y) + z);
}

/// A line without right-to-left characters is its own visual form.
pub proof fn law_visual_keeps_ltr_line(s: Seq<char>)
    requires
        !has_rtl(s),
    ensures
        visual(s) == s,
{
}

struct Token {
    text: Vec<char>,
    rtl: bool,
}

impl View for Token {
    type V = RunView;

    closed spec fn view(&self) -> RunView {
        (self.text@, self.rtl)
    }
}

spec fn token_views(tokens: Seq<Token>) -> Seq<RunView> {
    tokens.map_values(|t: Token| t@)
}

/// Whether some character of `chars` is right-to-left.
pub(crate) fn chars_have_rtl(chars: &Vec<char>) -> (r: bool)
    ensures
        r == has_rtl(chars@),
{
    let n = chars.len();
    for i in 0..n
        invariant
            n == chars@.len(),
            forall|j: int| 0 <= j < i ==> !is_rtl(#[trigger] chars@[j]),
    {
        if char_is_rtl(chars[i]) {
            return true;
        }
    }
    false
}

proof fn lemma_token_views_push(tokens: Seq<Token>, t: Token)
    ensures
        token_views(tokens.push(t)) == token_views(tokens).push(t@),
{
    assert(token_views(tokens.push(t)) =~= token_views(tokens).push(t@));
}

/// Splits a line into its direction runs.
fn tokenize(line: &Vec<char>) -> (tokens: Vec<Token>)
    ensures
        token_views(tokens@) == runs_of(line@),
{
    let n = line.len();
    let mut tokens: Vec<Token> = Vec::new();
    let mut cur: Vec<char> = Vec::new();
    let mut cur_rtl = false;
    let mut started = false;
    for i in 0..n
        invariant
            n == line@.len(),
            started == (i > 0),
            started ==> runs_of(line@.take(i as int)) == token_views(tokens@).push(
                (cur@, cur_rtl),
            ),
            !started ==> tokens@.len() == 0,
            !started ==> cur@.len() == 0,
    {
        let c = line[i];
        let r = char_is_rtl(c);
        let neutral = c == ' ' || c == '\t' || is_digit(c);
        let ghost views = token_views(tokens@);
        let ghost old_cur = cur@;
        assert(line@.take(i + 1).drop_last() == line@.take(i as int));
        assert(line@.take(i + 1).last() == c);
        assert(runs_of(line@.take(i + 1)) == extend_runs(runs_of(line@.take(i as int)), c));
        if !started {
            cur.push(c);
            cur_rtl = r;
            started = true;
            assert(line@.take(i as int) =~= Seq::<char>::empty());
            assert(token_views(tokens@) =~= Seq::<RunView>::empty());
            assert(cur@ =~= seq![c]);
        } else if neutral || r == cur_rtl {
            cur.push(c);
            assert(views.push((old_cur, cur_rtl)).update(views.len() as int, (old_cur.push(c), cur_rtl))
                =~= views.push((cur@, cur_rtl)));
        } else {
            let ghost done = Token { text: cur, rtl: cur_rtl };
            proof {
                lemma_token_views_push(tokens@, done);
            }
            tokens.push(Token { text: cur, rtl: cur_rtl });
            cur = Vec::new();
            cur.push(c);
            cur_rtl = r;
            assert(cur@ =~= seq![c]);
        }
        assert(runs_of(line@.take(i + 1)) == token_views(tokens@).push((cur@, cur_rtl)));
    }
    assert(line@.take(n as int) == line@);
    if started {
        let ghost last = Token { text: cur, rtl: cur_rtl };
        proof {
            lemma_token_views_push(tokens@, last);
        }
        tokens.push(Token { text: cur, rtl: cur_rtl });
    } else {
        assert(token_views(tokens@) =~= Seq::<RunView>::empty());
    }
    tokens
}

/// Reorder + shape a line given as characters.
pub fn visual_chars(line: &Vec<char>) -> (out: Vec<char>)
    ensures
        out@ == visual(line@),
{
    if !chars_have_rtl(line) {
        return line.clone();
    }
    let tokens = tokenize(line);
    let n = tokens.len();
    let ghost runs = runs_of(line@);
    let ghost shaped_runs = runs.map_values(|r: RunView| shape_run(r));
    let mut shaped_tokens: Vec<Token> = Vec::new();
    let mut rtl_count: usize = 0;
    for i in 0..n
        invariant
            n == tokens@.len(),
            token_views(tokens@) == runs,
            shaped_runs.len() == n,
            shaped_runs == runs.map_values(|r: RunView| shape_run(r)),
            token_views(shaped_tokens@) == shaped_runs.take(i as int),
            rtl_count == count_rtl(runs.take(i as int)),
            rtl_count <= i,
    {
        let t = &tokens[i];
        let ghost before = shaped_tokens@;
        assert(t@ == runs[i as int]);
        if t.rtl {
            shaped_tokens.push(Token { text: shape_chars(&t.text), rtl: true });
            rtl_count = rtl_count + 1;
        } else {
            shaped_tokens.push(Token { text: t.text.clone(), rtl: false });
        }
        proof {
            lemma_token_views_push(before, shaped_tokens@.last());
        }
        assert(shaped_tokens@ == before.push(shaped_tokens@.last()));
        assert(runs.take(i + 1).drop_last() == runs.take(i as int));
        assert(shaped_runs.take(i + 1) == shaped_runs.take(i as int).push(shaped_runs[i as int]));
    }
    assert(runs.take(n as int) == runs);
    assert(shaped_runs.take(n as int) == shaped_runs);
    let reverse = rtl_count >= n - rtl_count;
    let ghost ordered = if reverse {
        shaped_runs.reverse()
    } else {
        shaped_runs
    };
    let mut out: Vec<char> = Vec::new();
    for k in 0..n
        invariant
            n == shaped_tokens@.len(),
            token_views(shaped_tokens@) == shaped_runs,
            ordered == if reverse {
                shaped_runs.reverse()
            } else {
                shaped_runs
            },
            out@ == concat_runs(ordered.take(k as int)),
    {
        let t = if reverse {
            &shaped_tokens[n - 1 - k]
        } else {
            &shaped_tokens[k]
        };
        assert(t@ == ordered[k as int]);
        let mut j: usize = 0;
        let m = t.text.len();
        let ghost prefix = out@;
        while j < m
            invariant
                m == t.text@.len(),
                j <= m,
                out@ == prefix + t.text@.take(j as int),
            decreases m - j,
        {
            out.push(t.text[j]);
            assert(t.text@.take(j + 1) == t.text@.take(j as int).push(t.text@[j as int]));
            j = j + 1;
        }
        assert(t.text@.take(m as int) == t.text@);
        assert(ordered.take(k + 1).drop_last() == ordered.take(k as int));
    }
    assert(ordered.take(n as int) == ordered);
    out
}

/// Reorder + shape a single line into visual order.
pub fn visual_line(line: &String) -> (out: String)
    ensures
        out@ == visual(line@),
{
    let chars = chars_of(line.as_str());
    let v = visual_chars(&chars);
    string_of(&v)
}

} // verus!
