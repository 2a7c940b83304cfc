//! Terminal-output engine for right-to-left scripts: detection of RTL text,
//! logical-to-visual reordering of a line, Arabic presentation-form shaping,
//! and processing of terminal output that leaves ANSI escape sequences intact.

pub mod bidi;
pub mod session;
pub mod shaping;
pub mod text;

use vstd::prelude::*;
use crate::bidi::{has_rtl, is_rtl, visual, visual_chars, chars_have_rtl};
use crate::text::push_chars;

verus! {

/// The escape character that opens an ANSI escape sequence.
pub const ESC: char = '\x1b';
/// The bell character that ends an operating-system command sequence.
pub const BEL: char = '\x07';

/// An ASCII letter, which ends a control sequence.
pub open spec fn is_ascii_alpha(c: char) -> bool {
    ('A' as u32 <= c as u32 <= 'Z' as u32) || ('a' as u32 <= c as u32 <= 'z' as u32)
}

/// Is this an ASCII alphabetic char (ANSI terminator)?
fn is_alpha(c: char) -> (r: bool)
    ensures
        r == is_ascii_alpha(c),
{
    (c >= 'A' && c <= 'Z') || (c >= 'a' && c <= 'z')
}

/// Whether `c` closes an escape sequence of the given kind (the character
/// after ESC): a control sequence (`[`) ends at a letter, an operating-system
/// command (`]`) at BEL, and any other kind after one more character.
pub open spec fn ends_escape(kind: char, c: char) -> bool {
    (kind == '[' && is_ascii_alpha(c)) || (kind == ']' && c == BEL) || (kind != '[' && kind
        != ']')
}

/// The position just past the escape sequence of the given kind whose body
/// starts at `j` in `a`: past its terminator, or the end of `a` if none comes.
pub open spec fn escape_end(a: Seq<char>, kind: char, j: nat) -> nat
    decreases a.len() - j,
{
    if j >= a.len() {
        a.len()
    } else if ends_escape(kind, a[j as int]) {
        j + 1
    } else {
        escape_end(a, kind, j + 1)
    }
}

/// An escape sequence ends within the line and no earlier than its body starts.
pub proof fn lemma_escape_end_bounds(a: Seq<char>, kind: char, j: nat)
    requires
        j <= a.len(),
    ensures
        j <= escape_end(a, kind, j) <= a.len(),
    decreases a.len() - j,
{
    if j < a.len() && !ends_escape(kind, a[j as int]) {
        lemma_escape_end_bounds(a, kind, j + 1);
    }
}

/// The processed text of line `a` from position `i` on, where `plain` holds
/// the text read since the last escape sequence: each run of plain text is put
/// in visual order, and escape sequences are copied as they are.
pub open spec fn render_from(a: Seq<char>, i: nat, plain: Seq<char>) -> Seq<char>
    decreases a.len() - i,
{
    if i >= a.len() {
        visual(plain)
    } else if a[i as int] == ESC {
        if i + 1 >= a.len() {
            visual(plain) + seq![ESC]
        } else {
            let e = escape_end(a, a[i + 1int], i + 2);
            proof {
                lemma_escape_end_bounds(a, a[i + 1int], i + 2);
            }
            visual(plain) + a.subrange(i as int, e as int) + render_from(a, e, Seq::empty())
        }
    } else {
        render_from(a, i + 1, plain.push(a[i as int]))
    }
}

/// The processed form of one line: kept as it is when it holds no
/// right-to-left character.
pub open spec fn render_line(a: Seq<char>) -> Seq<char> {
    if !has_rtl(a) {
        a
    } else {
        render_from(a, 0, Seq::empty())
    }
}

/// A carriage return or a line feed.
pub open spec fn is_line_break(c: char) -> bool {
    c == '\r' || c == '\n'
}

/// The processed text of chunk `s` from position `i` on, where `buf` holds the
/// current line read so far: every line is processed and every line break is kept.
pub open spec fn output_from(s: Seq<char>, i: nat, buf: Seq<char>) -> Seq<char>
    decreases s.len() - i,
{
    if i >= s.len() {
        render_line(buf)
    } else if is_line_break(s[i as int]) {
        render_line(buf) + seq![s[i as int]] + output_from(s, i + 1, Seq::empty())
    } else {
        output_from(s, i + 1, buf.push(s[i as int]))
    }
}

/// The processed form of a chunk of terminal output.
pub open spec fn processed(s: Seq<char>) -> Seq<char> {
    output_from(s, 0, Seq::empty())
}

proof fn lemma_push_keeps_ltr(s: Seq<char>, c: char)
    requires
        !has_rtl(s),
        !is_rtl(c),
    ensures
        !has_rtl(s.push(c)),
{
    assert forall|k: int| 0 <= k < s.push(c).len() implies !is_rtl(#[trigger] s.push(c)[k]) by {
        if k < s.len() {
            assert(s.push(c)[k] == s[k]);
        }
    }
}

proof fn lemma_render_from_ltr(a: Seq<char>, i: nat, plain: Seq<char>)
    requires
        !has_rtl(a),
        !has_rtl(plain),
        i <= a.len(),
    ensures
        render_from(a, i, plain) == plain + a.subrange(i as int, a.len() as int),
    decreases a.len() - i,
{
    if i >= a.len() {
        assert(a.subrange(i as int, a.len() as int) =~= Seq::<char>::empty());
        assert(plain + Seq::<char>::empty() =~= plain);
    } else if a[i as int] == ESC {
        if i + 1 >= a.len() {
            assert(a.subrange(i as int, a.len() as int) =~= seq![ESC]);
        } else {
            let e = escape_end(a, a[i + 1int], i + 2);
            lemma_escape_end_bounds(a, a[i + 1int], i + 2);
            lemma_visual_empty();
            lemma_render_from_ltr(a, e, Seq::empty());
            assert(a.subrange(i as int, a.len() as int) =~= a.subrange(i as int, e as int)
                + a.subrange(e as int, a.len() as int));
            assert(Seq::<char>::empty() + a.subrange(e as int, a.len() as int) =~= a.subrange(
                e as int,
                a.len() as int,
            ));
        }
    } else {
        assert(!is_rtl(a[i as int]));
        lemma_push_keeps_ltr(plain, a[i as int]);
        lemma_render_from_ltr(a, i + 1, plain.push(a[i as int]));
        assert(plain.push(a[i as int]) + a.subrange(i + 1int, a.len() as int) =~= plain
            + a.subrange(i as int, a.len() as int));
    }
}

/// Rendering a line without right-to-left characters escape sequence by
/// escape sequence and run by run gives the line back unchanged: escape
/// sequences and left-to-right text are never altered, so handing such a line
/// over unchanged is only a shortcut.
pub proof fn law_render_keeps_ltr_line(a: Seq<char>)
    requires
        !has_rtl(a),
    ensures
        render_from(a, 0, Seq::empty()) == a,
{
    assert(!has_rtl(Seq::<char>::empty()));
    lemma_render_from_ltr(a, 0, Seq::empty());
    assert(Seq::<char>::empty() + a.subrange(0, a.len() as int) =~= a);
}

proof fn lemma_output_from_ltr(s: Seq<char>, i: nat, buf: Seq<char>)
    requires
        !has_rtl(s),
        !has_rtl(buf),
        i <= s.len(),
    ensures
        output_from(s, i, buf) == buf + s.subrange(i as int, s.len() as int),
    decreases s.len() - i,
{
    if i >= s.len() {
        assert(buf + s.subrange(i as int, s.len() as int) =~= buf);
    } else if is_line_break(s[i as int]) {
        assert(!has_rtl(Seq::<char>::empty()));
        lemma_output_from_ltr(s, i + 1, Seq::empty());
        assert(buf + seq![s[i as int]] + (Seq::<char>::empty() + s.subrange(i + 1int, s.len() as int))
            =~= buf + s.subrange(i as int, s.len() as int));
    } else {
        assert(!is_rtl(s[i as int]));
        lemma_push_keeps_ltr(buf, s[i as int]);
        lemma_output_from_ltr(s, i + 1, buf.push(s[i as int]));
        assert(buf.push(s[i as int]) + s.subrange(i + 1int, s.len() as int) =~= buf
            + s.subrange(i as int, s.len() as int));
    }
}

/// Terminal output without right-to-left characters comes out unchanged.
pub proof fn law_ltr_output_unchanged(s: Seq<char>)
    requires
        !has_rtl(s),
    ensures
        processed(s) == s,
{
    assert(!has_rtl(Seq::<char>::empty()));
    lemma_output_from_ltr(s, 0, Seq::empty());
    assert(Seq::<char>::empty() + s.subrange(0, s.len() as int) =~= s);
}

proof fn lemma_output_from_accumulates(s: Seq<char>, i: nat, buf: Seq<char>, k: nat)
    requires
        i <= k <= s.len(),
        forall|j: int| i <= j < k ==> !is_line_break(#[trigger] s[j]),
    ensures
        output_from(s, i, buf) == output_from(s, k, buf + s.subrange(i as int, k as int)),
    decreases k - i,
{
    if i < k {
        lemma_output_from_accumulates(s, i + 1, buf.push(s[i as int]), k);
        assert(buf.push(s[i as int]) + s.subrange(i + 1int, k as int) =~= buf + s.subrange(
            i as int,
            k as int,
        ));
    } else {
        assert(buf + s.subrange(i as int, k as int) =~= buf);
    }
}

proof fn lemma_output_from_shift(p: Seq<char>, r: Seq<char>, j: nat, buf: Seq<char>)
    requires
        j <= r.len(),
    ensures
        output_from(p + r, p.len() + j, buf) == output_from(r, j, buf),
    decreases r.len() - j,
{
    let s = p + r;
    if j < r.len() {
        assert(s[(p.len() + j) as int] == r[j as int]);
        lemma_output_from_shift(p, r, j + 1, Seq::empty());
        lemma_output_from_shift(p, r, j + 1, buf.push(r[j as int]));
    }
}

proof fn lemma_first_line_processed(line: Seq<char>, brk: char, rest: Seq<char>)
    requires
        forall|j: int| 0 <= j < line.len() ==> !is_line_break(#[trigger] line[j]),
        is_line_break(brk),
    ensures
        processed(line + seq![brk] + rest) == render_line(line) + seq![brk] + processed(rest),
        processed(line) == render_line(line),
{
    let s = line + seq![brk] + rest;
    assert forall|j: int| 0 <= j < line.len() implies !is_line_break(#[trigger] s[j]) by {
        assert(s[j] == line[j]);
    }
    lemma_output_from_accumulates(s, 0, Seq::empty(), line.len());
    assert(Seq::<char>::empty() + s.subrange(0, line.len() as int) =~= line);
    assert(s[line.len() as int] == brk);
    lemma_output_from_shift(line + seq![brk], rest, 0, Seq::empty());
    assert((line + seq![brk]).len() + 0 == line.len() + 1);
    lemma_output_from_accumulates(line, 0, Seq::empty(), line.len());
    assert(Seq::<char>::empty() + line.subrange(0, line.len() as int) =~= line);
}

proof fn lemma_first_line_break(a: Seq<char>, i: int) -> (k: int)
    requires
        0 <= i <= a.len(),
        forall|j: int| 0 <= j < i ==> !is_line_break(#[trigger] a[j]),
        exists|j: int| i <= j < a.len() && is_line_break(#[trigger] a[j]),
    ensures
        i <= k < a.len(),
        is_line_break(a[k]),
        forall|j: int| 0 <= j < k ==> !is_line_break(#[trigger] a[j]),
    decreases a.len() - i,
{
    if is_line_break(a[i]) {
        i
    } else {
        let w = choose|j: int| i <= j < a.len() && is_line_break(#[trigger] a[j]);
        assert(i + 1 <= w);
        lemma_first_line_break(a, i + 1)
    }
}

/// Output is processed line by line: whatever comes before a line break and
/// whatever comes after it are processed each on its own, and the line break
/// is kept between them.
pub proof fn law_lines_processed_separately(head: Seq<char>, brk: char, rest: Seq<char>)
    requires
        is_line_break(brk),
    ensures
        processed(head + seq![brk] + rest) == processed(head) + seq![brk] + processed(rest),
    decreases head.len(),
{
    if exists|j: int| 0 <= j < head.len() && is_line_break(#[trigger] head[j]) {
        let k = lemma_first_line_break(head, 0);
        let x = head.take(k);
        let b1 = head[k];
        let y = head.skip(k + 1);
        assert forall|j: int| 0 <= j < x.len() implies !is_line_break(#[trigger] x[j]) by {
            assert(x[j] == head[j]);
        }
        assert(head =~= x + seq![b1] + y);
        assert(head + seq![brk] + rest =~= x + seq![b1] + (y + seq![brk] + rest));
        lemma_first_line_processed(x, b1, y + seq![brk] + rest);
        lemma_first_line_processed(x, b1, y);
        law_lines_processed_separately(y, brk, rest);
        assert(render_line(x) + seq![b1] + (processed(y) + seq![brk] + processed(rest))
            =~= (render_line(x) + seq![b1] + processed(y)) + seq![brk] + processed(rest));
    } else {
        lemma_first_line_processed(head, brk, rest);
    }
}

/// A carriage return ends a line just as a line feed does: what comes before
/// it and what comes after it are processed each on its own, and it stays
/// between them.
pub proof fn law_carriage_return_ends_line(head: Seq<char>, rest: Seq<char>)
    ensures
        processed(head + seq!['\r'] + rest) == processed(head) + seq!['\r'] + processed(rest),
{
    law_lines_processed_separately(head, '\r', rest);
}

/// A line feed ends a line: what comes before it and what comes after it are
/// processed each on its own, and it stays between them.
pub proof fn law_line_feed_ends_line(head: Seq<char>, rest: Seq<char>)
    ensures
        processed(head + seq!['\n'] + rest) == processed(head) + seq!['\n'] + processed(rest),
{
    law_lines_processed_separately(head, '\n', rest);
}

proof fn lemma_escape_end_at(a: Seq<char>, kind: char, j: nat, m: nat)
    requires
        j <= m < a.len(),
        forall|t: int| j <= t < m ==> !ends_escape(kind, #[trigger] a[t]),
        ends_escape(kind, a[m as int]),
    ensures
        escape_end(a, kind, j) == m + 1,
    decreases m - j,
{
    if j < m {
        lemma_escape_end_at(a, kind, j + 1, m);
    }
}

/// A carriage return or a line feed, named by the characters themselves.
pub open spec fn is_cr_or_lf(c: char) -> bool {
    c == '\r' || c == '\n'
}

proof fn lemma_escape_then_text(e: Seq<char>, w: Seq<char>)
    requires
        e.len() >= 2,
        e[0] == ESC,
        escape_end(e + w, e[1], 2) == e.len(),
        forall|j: int| 0 <= j < e.len() ==> !is_cr_or_lf(#[trigger] e[j]),
        forall|j: int| 0 <= j < w.len() ==> #[trigger] w[j] != ESC && !is_cr_or_lf(w[j]),
    ensures
        processed(e + w) == e + visual(w),
{
    let a = e + w;
    let n = e.len();
    assert forall|j: int| 0 <= j < a.len() implies !is_line_break(#[trigger] a[j]) by {
        if j < n {
            assert(a[j] == e[j]);
        } else {
            assert(a[j] == w[j - n]);
        }
    }
    lemma_first_line_processed(a, '\n', Seq::empty());
    lemma_visual_empty();
    let w_rtl = has_rtl(w);
    if !has_rtl(a) {
        assert(!w_rtl) by {
            if w_rtl {
                let j = choose|j: int| 0 <= j < w.len() && is_rtl(#[trigger] w[j]);
                assert(a[j + n] == w[j]);
            }
        }
    } else {
        assert(a[0] == ESC && a[1] == e[1]);
        assert forall|j: int| n <= j < a.len() implies #[trigger] a[j] != ESC by {
            assert(a[j] == w[j - n]);
        }
        lemma_render_from_accumulates(a, n, Seq::empty(), a.len());
        assert(Seq::<char>::empty() + a.subrange(n as int, a.len() as int) =~= w);
        assert(a.subrange(0, n as int) =~= e);
        assert(Seq::<char>::empty() + e + visual(w) =~= e + visual(w));
        if !w_rtl {
            assert(visual(w) == w);
        }
    }
}

/// An ASCII letter, upper case or lower case, named by its code range.
pub open spec fn is_letter_a_to_z(c: char) -> bool {
    ('A' as u32 <= c as u32 <= 'Z' as u32) || ('a' as u32 <= c as u32 <= 'z' as u32)
}

/// A control sequence (ESC `[`, parameters, final letter) ends at the first
/// ASCII letter, upper case or lower case: the sequence is kept as it is and
/// the text after it is put in visual order as plain text.
pub proof fn law_control_sequence_ends_at_letter(params: Seq<char>, letter: char, w: Seq<char>)
    requires
        forall|j: int| 0 <= j < params.len() ==> !is_letter_a_to_z(#[trigger] params[j])
            && !is_cr_or_lf(params[j]),
        is_letter_a_to_z(letter),
        forall|j: int| 0 <= j < w.len() ==> #[trigger] w[j] != ESC && !is_cr_or_lf(w[j]),
    ensures
        processed(seq![ESC, '['] + params + seq![letter] + w) == seq![ESC, '['] + params
            + seq![letter] + visual(w),
{
    let e = seq![ESC, '['] + params + seq![letter];
    let a = e + w;
    let m = params.len() + 2;
    assert forall|t: int| 2 <= t < m implies !ends_escape('[', #[trigger] a[t]) by {
        assert(a[t] == params[t - 2]);
    }
    assert(a[m as int] == letter);
    lemma_escape_end_at(a, '[', 2, m);
    assert forall|j: int| 0 <= j < e.len() implies !is_cr_or_lf(#[trigger] e[j]) by {
        if 2 <= j < m {
            assert(e[j] == params[j - 2]);
        }
    }
    lemma_escape_then_text(e, w);
}

/// An operating-system command (ESC `]`) runs up to and including the first
/// BEL: the command is kept as it is, right-to-left text inside it included,
/// and the text after it is put in visual order as plain text.
pub proof fn law_os_command_ends_at_bell(body: Seq<char>, w: Seq<char>)
    requires
        forall|j: int| 0 <= j < body.len() ==> #[trigger] body[j] != '\x07' && !is_cr_or_lf(
            body[j],
        ),
        forall|j: int| 0 <= j < w.len() ==> #[trigger] w[j] != ESC && !is_cr_or_lf(w[j]),
    ensures
        processed(seq![ESC, ']'] + body + seq!['\x07'] + w) == seq![ESC, ']'] + body
            + seq!['\x07'] + visual(w),
{
    let e = seq![ESC, ']'] + body + seq!['\x07'];
    let a = e + w;
    let m = body.len() + 2;
    assert forall|t: int| 2 <= t < m implies !ends_escape(']', #[trigger] a[t]) by {
        assert(a[t] == body[t - 2]);
    }
    assert(a[m as int] == '\x07');
    lemma_escape_end_at(a, ']', 2, m);
    assert forall|j: int| 0 <= j < e.len() implies !is_cr_or_lf(#[trigger] e[j]) by {
        if 2 <= j < m {
            assert(e[j] == body[j - 2]);
        }
    }
    lemma_escape_then_text(e, w);
}

/// Any other escape (ESC followed by a kind other than `[` and `]`) takes
/// exactly one more character: those three characters are kept as they are
/// and the text after them is put in visual order as plain text.
pub proof fn law_other_escape_takes_one_char(kind: char, c: char, w: Seq<char>)
    requires
        kind != '[' && kind != ']',
        !is_cr_or_lf(kind),
        !is_cr_or_lf(c),
        forall|j: int| 0 <= j < w.len() ==> #[trigger] w[j] != ESC && !is_cr_or_lf(w[j]),
    ensures
        processed(seq![ESC, kind, c] + w) == seq![ESC, kind, c] + visual(w),
{
    let e = seq![ESC, kind, c];
    let a = e + w;
    assert(a[2] == c);
    lemma_escape_end_at(a, kind, 2, 2);
    lemma_escape_then_text(e, w);
}

proof fn lemma_escape_end_shift(q: Seq<char>, r: Seq<char>, kind: char, j: nat)
    requires
        j <= r.len(),
    ensures
        escape_end(q + r, kind, q.len() + j) == q.len() + escape_end(r, kind, j),
    decreases r.len() - j,
{
    if j < r.len() {
        assert((q + r)[(q.len() + j) as int] == r[j as int]);
        lemma_escape_end_shift(q, r, kind, j + 1);
    }
}

proof fn lemma_render_from_shift(q: Seq<char>, r: Seq<char>, j: nat, plain: Seq<char>)
    requires
        j <= r.len(),
    ensures
        render_from(q + r, q.len() + j, plain) == render_from(r, j, plain),
    decreases r.len() - j,
{
    let a = q + r;
    let i = q.len() + j;
    if j < r.len() {
        assert(a[i as int] == r[j as int]);
        if r[j as int] == ESC {
            if j + 1 < r.len() {
                assert(a[i + 1int] == r[j + 1int]);
                let kind = r[j + 1int];
                lemma_escape_end_shift(q, r, kind, j + 2);
                lemma_escape_end_bounds(r, kind, j + 2);
                let e = escape_end(r, kind, j + 2);
                assert(a.subrange(i as int, (q.len() + e) as int) =~= r.subrange(j as int, e as int));
                lemma_render_from_shift(q, r, e, Seq::empty());
            }
        } else {
            lemma_render_from_shift(q, r, j + 1, plain.push(r[j as int]));
        }
    }
}

proof fn lemma_render_from_accumulates(a: Seq<char>, i: nat, plain: Seq<char>, k: nat)
    requires
        i <= k <= a.len(),
        forall|j: int| i <= j < k ==> #[trigger] a[j] != ESC,
    ensures
        render_from(a, i, plain) == render_from(a, k, plain + a.subrange(i as int, k as int)),
    decreases k - i,
{
    if i < k {
        lemma_render_from_accumulates(a, i + 1, plain.push(a[i as int]), k);
        assert(plain.push(a[i as int]) + a.subrange(i + 1int, k as int) =~= plain + a.subrange(
            i as int,
            k as int,
        ));
    } else {
        assert(plain + a.subrange(i as int, k as int) =~= plain);
    }
}

/// `e` is one whole escape sequence when followed by `r`: ESC, then its kind
/// and its body up to and including the terminator (or up to the end of the
/// line when no terminator comes), or ESC alone at the end of the line.
pub open spec fn is_escape_sequence(e: Seq<char>, r: Seq<char>) -> bool {
    &&& e.len() >= 1
    &&& e[0] == ESC
    &&& if e.len() == 1 {
        r.len() == 0
    } else {
        escape_end(e + r, e[1], 2) == e.len()
    }
}

/// ANSI escape sequences are never altered: in a line with right-to-left text,
/// the plain text before an escape sequence is put in visual order on its own,
/// the escape sequence is copied unchanged, and the rest of the line is
/// processed on its own.
pub proof fn law_escape_sequences_kept(p: Seq<char>, e: Seq<char>, r: Seq<char>)
    requires
        forall|j: int| 0 <= j < p.len() ==> #[trigger] p[j] != ESC,
        is_escape_sequence(e, r),
    ensures
        render_from(p + e + r, 0, Seq::empty()) == visual(p) + e + render_from(r, 0, Seq::empty()),
{
    let a = p + e + r;
    let i = p.len();
    assert forall|j: int| 0 <= j < i implies #[trigger] a[j] != ESC by {
        assert(a[j] == p[j]);
    }
    lemma_render_from_accumulates(a, 0, Seq::empty(), i);
    assert(Seq::<char>::empty() + a.subrange(0, i as int) =~= p);
    assert(a[i as int] == ESC);
    lemma_visual_empty();
    if e.len() == 1 {
        assert(a =~= p + seq![ESC]);
        assert(render_from(r, 0, Seq::empty()) == visual(Seq::<char>::empty()));
        assert(visual(p) + e + Seq::<char>::empty() =~= visual(p) + e);
    } else {
        let kind = e[1];
        assert(a[i + 1int] == kind);
        assert(a =~= p + (e + r));
        lemma_escape_end_shift(p, e + r, kind, 2);
        let end = escape_end(a, kind, i + 2);
        assert(end == p.len() + e.len());
        assert(a.subrange(i as int, end as int) =~= e);
        assert(a =~= (p + e) + r);
        lemma_render_from_shift(p + e, r, 0, Seq::empty());
    }
}

/// The visual form of the empty text is empty.
proof fn lemma_visual_empty()
    ensures
        visual(Seq::<char>::empty()) == Seq::<char>::empty(),
{
}

/// Process one line: split ANSI sequences out, reorder/shape plain runs.
fn process_line(line: &Vec<char>, out: &mut String)
    ensures
        final(out)@ == old(out)@ + render_line(line@),
{
    if !chars_have_rtl(line) {
        push_chars(out, line);
        return;
    }
    let n = line.len();
    let mut plain: Vec<char> = Vec::new();
    let mut i: usize = 0;
    proof {
        lemma_visual_empty();
    }
    while i < n
        invariant
            n == line@.len(),
            i <= n,
            has_rtl(line@),
            old(out)@ + render_line(line@) == out@ + render_from(line@, i as nat, plain@),
        decreases n - i,
    {
        if line[i] == ESC {
            let ghost base = out@;
            let ghost before = plain@;
            if plain.len() > 0 {
                let v = visual_chars(&plain);
                push_chars(out, &v);
                plain.clear();
            } else {
                assert(before =~= Seq::<char>::empty());
            }
            assert(out@ == base + visual(before));
            if i + 1 >= n {
                out.push(ESC);
                i = n;
            } else {
                let kind = line[i + 1];
                out.push(ESC);
                out.push(kind);
                let ghost start = out@.len() - 2;
                proof {
                    lemma_escape_end_bounds(line@, kind, (i + 2) as nat);
                }
                let mut j: usize = i + 2;
                let mut done = false;
                while j < n && !done
                    invariant
                        n == line@.len(),
                        i + 2 <= j <= n,
                        kind == line@[i + 1],
                        line@[i as int] == ESC,
                        out@ == base + visual(before) + line@.subrange(i as int, j as int),
                        done ==> j == escape_end(line@, kind, (i + 2) as nat),
                        !done ==> escape_end(line@, kind, j as nat) == escape_end(
                            line@,
                            kind,
                            (i + 2) as nat,
                        ),
                    decreases n - j,
                {
                    let c = line[j];
                    out.push(c);
                    if (kind == '[' && is_alpha(c)) || (kind == ']' && c == BEL) || (kind != '['
                        && kind != ']') {
                        done = true;
                    }
                    assert(line@.subrange(i as int, j + 1) == line@.subrange(i as int, j as int).push(c));
                    j = j + 1;
                }
                assert(j == escape_end(line@, kind, (i + 2) as nat));
                i = j;
            }
        } else {
            plain.push(line[i]);
            i = i + 1;
        }
    }
    let ghost base = out@;
    if plain.len() > 0 {
        let v = visual_chars(&plain);
        push_chars(out, &v);
    } else {
        assert(plain@ =~= Seq::<char>::empty());
    }
}

/// Main entry: reorder + shape a chunk of terminal output for visual display.
/// ANSI escape sequences are never altered.
pub fn process_output(chunk: &str) -> (out: String)
    ensures
        out@ == processed(chunk@),
{
    let mut out = String::new();
    let mut buf: Vec<char> = Vec::new();
    for c in it: chunk.chars()
        invariant
            it.seq() == chunk@,
            processed(chunk@) == out@ + output_from(chunk@, it.index() as nat, buf@),
    {
        if c == '\r' || c == '\n' {
            process_line(&buf, &mut out);
            out.push(c);
            buf.clear();
        } else {
            buf.push(c);
        }
    }
    process_line(&buf, &mut out);
    out
}

} // verus!
