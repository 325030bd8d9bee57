//! The pieces that screens are made of: styled text, boxes, hints, bars.
use crate::sort::views;
use crate::text::{chars_of, decimal, number, push_repeated, repeated, string_of};
use vstd::prelude::*;
use vstd::slice::slice_subrange;
use vstd::string::*;
use vstd::utf8::is_ascii_chars;

verus! {

#[derive(Debug, Clone, Copy, PartialEq, Eq, Structural)]
pub enum Color {
    /// the terminal's own
    Reset,
    Black,
    Red,
    Green,
    Yellow,
    Cyan,
    Gray,
    DarkGray,
}

#[derive(Debug, Clone, Copy, PartialEq, Eq, Structural)]
pub struct Style {
    pub fg: Option<Color>,
    pub bg: Option<Color>,
    pub bold: bool,
}

pub open spec fn plain_style() -> Style {
    Style { fg: None, bg: None, bold: false }
}

pub open spec fn fg_style(c: Color) -> Style {
    Style { fg: Some(c), bg: None, bold: false }
}

pub open spec fn bold_style(c: Color) -> Style {
    Style { fg: Some(c), bg: None, bold: true }
}

impl Style {
    pub fn plain() -> (r: Style)
        ensures
            r == plain_style(),
    {
        Style { fg: None, bg: None, bold: false }
    }

    pub fn fg(c: Color) -> (r: Style)
        ensures
            r == fg_style(c),
    {
        Style { fg: Some(c), bg: None, bold: false }
    }

    pub fn bold_fg(c: Color) -> (r: Style)
        ensures
            r == bold_style(c),
    {
        Style { fg: Some(c), bg: None, bold: true }
    }
}

/// A run of text in one style.
#[derive(Debug, Clone)]
pub struct Span {
    pub text: String,
    pub style: Style,
}

/// The value of a `Span`.
pub struct SpanV {
    pub text: Seq<char>,
    pub style: Style,
}

impl View for Span {
    type V = SpanV;

    open spec fn view(&self) -> SpanV {
        SpanV { text: self.text@, style: self.style }
    }
}

/// A run of text in a style, as a value.
pub open spec fn span(text: Seq<char>, style: Style) -> SpanV {
    SpanV { text, style }
}

/// A run of text without a style, as a value.
pub open spec fn raw(text: Seq<char>) -> SpanV {
    SpanV { text, style: plain_style() }
}

/// The text of a line.
pub open spec fn line_text(spans: Seq<SpanV>) -> Seq<char>
    decreases spans.len(),
{
    if spans.len() == 0 {
        Seq::empty()
    } else {
        line_text(spans.drop_last()) + spans.last().text
    }
}

/// Append a run of text to a line.
pub fn push_span(line: &mut Vec<Span>, text: String, style: Style)
    ensures
        views(final(line)@) == views(old(line)@).push(span(text@, style)),
{
    let ghost had = line@;
    let s = Span { text, style };
    let ghost v = s@;
    line.push(s);
    assert(views(line@) =~= views(had).push(v));
}

/// Append a run of text without a style to a line.
pub fn push_raw(line: &mut Vec<Span>, text: &str)
    ensures
        views(final(line)@) == views(old(line)@).push(raw(text@)),
{
    push_span(line, text.to_owned(), Style::plain());
}

/// The text of a line.
pub fn text_of(line: &[Span]) -> (r: String)
    ensures
        r@ == line_text(views(line@)),
{
    let ghost all = views(line@);
    let mut out = String::new();
    let mut i: usize = 0;
    assert(all.take(0) =~= Seq::<SpanV>::empty());
    while i < line.len()
        invariant
            i <= line@.len(),
            all == views(line@),
            out@ == line_text(all.take(i as int)),
        decreases line@.len() - i,
    {
        assert(all.take(i + 1).drop_last() =~= all.take(i as int));
        assert(all.take(i + 1).last() == line@[i as int]@);
        out.append(line[i].text.as_str());
        i += 1;
    }
    assert(all.take(i as int) =~= all);
    out
}

/// The number of columns that `ratatui::text::Span::width` counts for a text
/// that is not plain.
pub uninterp spec fn unicode_columns(text: Seq<char>) -> nat;

/// A text whose characters take one column each: ASCII without a carriage
/// return.
pub open spec fn is_plain(text: Seq<char>) -> bool {
    is_ascii_chars(text) && !text.contains('\r')
}

/// The number of columns that a terminal shows a text in.
pub open spec fn columns(text: Seq<char>) -> nat {
    if is_plain(text) {
        text.len()
    } else {
        unicode_columns(text)
    }
}

/// `ratatui::text::Span::width` of an unstyled span. A plain text takes one
/// column for each character; of any other text the number is only claimed to
/// depend on the text alone.
#[verifier::external_body]
pub(crate) fn span_width(text: &str) -> (r: usize)
    ensures
        is_plain(text@) ==> r == text@.len(),
        !is_plain(text@) ==> r == unicode_columns(text@),
{
    ratatui::text::Span::raw(text).width()
}

/// The number of columns of a line: those of its spans together.
pub open spec fn line_columns(spans: Seq<SpanV>) -> nat
    decreases spans.len(),
{
    if spans.len() == 0 {
        0
    } else {
        line_columns(spans.drop_last()) + columns(spans.last().text)
    }
}

/// What is left of `width` columns behind a line and two more columns.
pub open spec fn room_behind(spans: Seq<SpanV>, width: int) -> int {
    let left = width - line_columns(spans) - 2;
    if left < 0 {
        0
    } else {
        left
    }
}

/// How many columns are left behind a line and a gap of two.
pub fn free_columns(line: &[Span], width: usize) -> (r: usize)
    ensures
        r == room_behind(views(line@), width as int),
{
    let ghost all = views(line@);
    let mut left: usize = width;
    let mut i: usize = 0;
    assert(all.take(0) =~= Seq::<SpanV>::empty());
    while i < line.len()
        invariant
            i <= line@.len(),
            all == views(line@),
            left == (if width >= line_columns(all.take(i as int)) {
                width - line_columns(all.take(i as int))
            } else {
                0
            }),
        decreases line@.len() - i,
    {
        assert(all.take(i + 1).drop_last() =~= all.take(i as int));
        assert(all.take(i + 1).last() == line@[i as int]@);
        left = left.saturating_sub(span_width(line[i].text.as_str()));
        i += 1;
    }
    assert(all.take(i as int) =~= all);
    left.saturating_sub(2)
}

// ---------------------------------------------------------------------------
// boxes
// ---------------------------------------------------------------------------

/// A box on the screen.
#[derive(Debug, Clone, Copy, PartialEq, Eq, Structural)]
pub struct Rect {
    pub x: u16,
    pub y: u16,
    pub width: u16,
    pub height: u16,
}

impl Rect {
    /// The box lies on a screen whose cells can be numbered.
    pub open spec fn wf(self) -> bool {
        self.x + self.width <= u16::MAX && self.y + self.height <= u16::MAX
    }

    /// The box lies inside the other.
    pub open spec fn inside(self, other: Rect) -> bool {
        &&& other.x <= self.x
        &&& other.y <= self.y
        &&& self.x + self.width <= other.x + other.width
        &&& self.y + self.height <= other.y + other.height
    }
}

pub open spec fn smaller(a: u16, b: u16) -> u16 {
    if a <= b {
        a
    } else {
        b
    }
}

/// The smaller of two numbers.
pub fn min_u16(a: u16, b: u16) -> (r: u16)
    ensures
        r == smaller(a, b),
{
    if a <= b {
        a
    } else {
        b
    }
}

/// A `w`x`h` box in the middle of `area`, shrunk to fit if it has to be.
pub open spec fn middle(area: Rect, w: u16, h: u16) -> Rect {
    let width = smaller(w, area.width);
    let height = smaller(h, area.height);
    Rect {
        x: (area.x + (area.width - width) / 2) as u16,
        y: (area.y + (area.height - height) / 2) as u16,
        width,
        height,
    }
}

/// A `w`x`h` box in the middle of `area`, shrunk to fit if it has to be.
pub fn centered(area: Rect, w: u16, h: u16) -> (r: Rect)
    requires
        area.wf(),
    ensures
        r == middle(area, w, h),
{
    let w: u16 = min_u16(w, area.width);
    let h: u16 = min_u16(h, area.height);
    Rect {
        x: area.x + (area.width - w) / 2,
        y: area.y + (area.height - h) / 2,
        width: w,
        height: h,
    }
}

/// A centered box never leaves its area, and is as large as asked for wherever
/// there is room.
pub proof fn a_centered_box_stays_inside(area: Rect, w: u16, h: u16)
    requires
        area.wf(),
    ensures
        middle(area, w, h).inside(area),
        w <= area.width ==> middle(area, w, h).width == w,
        h <= area.height ==> middle(area, w, h).height == h,
{
}

/// The box at the right end of a row, one column from the edge.
pub open spec fn right_end(area: Rect, width: int) -> Rect {
    Rect {
        x: (area.x + area.width - width - 1) as u16,
        y: area.y,
        width: width as u16,
        height: 1,
    }
}

/// The box at the right end of a row, one column from the edge.
pub fn at_right_end(area: Rect, width: usize) -> (r: Rect)
    requires
        area.wf(),
        width < area.width,
    ensures
        r == right_end(area, width as int),
{
    let width: u16 = width as u16;
    Rect { x: area.x + area.width - width - 1, y: area.y, width, height: 1 }
}

// ---------------------------------------------------------------------------
// fitting text
// ---------------------------------------------------------------------------

/// A text cut to `max` characters, the last of which is an ellipsis where
/// something was cut.
pub open spec fn cut_to(s: Seq<char>, max: nat) -> Seq<char> {
    if s.len() <= max {
        s
    } else {
        s.take(
            if max == 0 {
                0
            } else {
                max - 1
            },
        ).push('…')
    }
}

/// Cut a text to `max` characters.
pub fn truncate(s: &str, max: usize) -> (r: String)
    ensures
        r@ == cut_to(s@, max as nat),
{
    let chars = chars_of(s);
    if chars.len() <= max {
        s.to_owned()
    } else {
        let keep: usize = if max == 0 {
            0
        } else {
            max - 1
        };
        let mut out = string_of(slice_subrange(chars.as_slice(), 0, keep));
        out.push('…');
        assert(out@ =~= cut_to(s@, max as nat));
        out
    }
}

/// A truncated text never has more characters than it was cut to, and a text
/// that fits is left alone.
pub proof fn a_truncated_text_fits(s: Seq<char>, max: nat)
    requires
        max > 0 || s.len() == 0,
    ensures
        cut_to(s, max).len() <= max,
        s.len() <= max ==> cut_to(s, max) == s,
{
}

/// The first candidate of at most `width` characters, else the last one.
pub open spec fn fitting(candidates: Seq<Seq<char>>, width: nat) -> Seq<char>
    decreases candidates.len(),
{
    if candidates.len() == 0 {
        Seq::empty()
    } else if candidates[0].len() <= width || candidates.len() == 1 {
        candidates[0]
    } else {
        fitting(candidates.skip(1), width)
    }
}

/// The first candidate that fits `width`, else the last (shortest) one.
pub fn first_that_fits(candidates: &[String], width: usize) -> (r: String)
    requires
        candidates@.len() > 0,
    ensures
        r@ == fitting(views(candidates@), width as nat),
{
    let ghost all = views(candidates@);
    let n: usize = candidates.len();
    let mut i: usize = 0;
    assert(all.skip(0) =~= all);
    while i < n - 1
        invariant
            i <= n - 1,
            n == candidates@.len(),
            n > 0,
            all == views(candidates@),
            fitting(all.skip(i as int), width as nat) == fitting(all, width as nat),
        decreases n - i,
    {
        assert(all.skip(i as int)[0] == candidates@[i as int]@);
        assert(all.skip(i as int).skip(1) =~= all.skip(i + 1));
        if candidates[i].as_str().unicode_len() <= width {
            return candidates[i].clone();
        }
        i += 1;
    }
    assert(all.skip(i as int)[0] == candidates@[i as int]@);
    candidates[n - 1].clone()
}

/// What is shown is one of the candidates, and fits whenever one of them does.
pub proof fn the_chosen_candidate_fits_if_any_does(candidates: Seq<Seq<char>>, width: nat)
    requires
        candidates.len() > 0,
    ensures
        candidates.contains(fitting(candidates, width)),
        (exists|i: int| 0 <= i < candidates.len() && (#[trigger] candidates[i]).len() <= width)
            ==> fitting(candidates, width).len() <= width,
    decreases candidates.len(),
{
    if candidates[0].len() <= width || candidates.len() == 1 {
        assert(candidates[0] == fitting(candidates, width));
        if exists|i: int| 0 <= i < candidates.len() && (#[trigger] candidates[i]).len() <= width {
            let i = choose|i: int|
                0 <= i < candidates.len() && (#[trigger] candidates[i]).len() <= width;
        }
    } else {
        let rest = candidates.skip(1);
        the_chosen_candidate_fits_if_any_does(rest, width);
        let k = choose|k: int| 0 <= k < rest.len() && rest[k] == fitting(rest, width);
        assert(candidates[k + 1] == fitting(candidates, width));
        if exists|i: int| 0 <= i < candidates.len() && (#[trigger] candidates[i]).len() <= width {
            let i = choose|i: int|
                0 <= i < candidates.len() && (#[trigger] candidates[i]).len() <= width;
            assert(rest[i - 1].len() <= width);
        }
    }
}

/// How much of a bar is filled.
pub open spec fn bar_filled(done: nat, of: nat, width: nat) -> int {
    let share = done * width / (if of == 0 {
        1
    } else {
        of
    });
    if share <= width {
        share as int
    } else {
        width as int
    }
}

/// A bar of `width` characters.
pub open spec fn bar_text(done: nat, of: nat, width: nat) -> Seq<char> {
    let filled = bar_filled(done, of, width);
    repeated('█', filled as nat) + repeated('░', (width - filled) as nat)
}

/// A bar of `width` characters, filled as far as `done` goes into `of`.
pub fn progress_bar(done: usize, of: usize, width: usize) -> (r: String)
    ensures
        r@ == bar_text(done as nat, of as nat, width as nat),
{
    let of: u128 = if of == 0 {
        1
    } else {
        of as u128
    };
    assert(done * width <= 0xffff_ffff_ffff_ffff * 0xffff_ffff_ffff_ffff) by (nonlinear_arith)
        requires
            0 <= done <= 0xffff_ffff_ffff_ffff,
            0 <= width <= 0xffff_ffff_ffff_ffff,
    ;
    let share: u128 = done as u128 * width as u128 / of;
    let filled: usize = if share <= width as u128 {
        share as usize
    } else {
        width
    };
    let mut out = String::new();
    push_repeated(&mut out, '█', filled);
    push_repeated(&mut out, '░', width - filled);
    assert(0 <= done * width) by (nonlinear_arith)
        requires
            0 <= done,
            0 <= width,
    ;
    assert(out@ =~= bar_text(done as nat, of as nat, width as nat));
    out
}

/// A bar is always as wide as asked for, empty at the start and full at the
/// end.
pub proof fn a_bar_keeps_its_width(done: nat, of: nat, width: nat)
    requires
        of > 0,
    ensures
        bar_text(done, of, width).len() == width,
        bar_filled(0, of, width) == 0,
        done >= of ==> bar_filled(done, of, width) == width,
{
    assert(0 <= done * width) by (nonlinear_arith);
    assert(done * width / of >= 0) by (nonlinear_arith)
        requires
            0 <= done * width,
            of > 0,
    ;
    assert(0 * width / of == 0) by (nonlinear_arith)
        requires
            of > 0,
    ;
    if done >= of {
        assert(done * width / of >= width) by (nonlinear_arith)
            requires
                done >= of,
                of > 0,
                width >= 0,
        ;
    }
}

// ---------------------------------------------------------------------------
// hints
// ---------------------------------------------------------------------------

/// Keys and labels as texts.
pub open spec fn hint_texts(hints: Seq<(&str, &str)>) -> Seq<(Seq<char>, Seq<char>)> {
    Seq::new(hints.len(), |i: int| (hints[i].0@, hints[i].1@))
}

/// "k label  " — the cost of one rendered hint, including its separator.
pub open spec fn hint_cost(h: (Seq<char>, Seq<char>)) -> nat {
    h.0.len() + h.1.len() + 3
}

/// The cost of hints together.
pub open spec fn hints_cost(hints: Seq<(Seq<char>, Seq<char>)>) -> nat
    decreases hints.len(),
{
    if hints.len() == 0 {
        0
    } else {
        hints_cost(hints.drop_last()) + hint_cost(hints.last())
    }
}

/// How many of the hints fit in `max` columns, from the first.
pub open spec fn hints_fitting(hints: Seq<(Seq<char>, Seq<char>)>, max: nat) -> int
    decreases hints.len(),
{
    if hints.len() == 0 {
        0
    } else {
        let before = hints_fitting(hints.drop_last(), max);
        if before == hints.len() - 1 && hints_cost(hints) <= max {
            hints.len() as int
        } else {
            before
        }
    }
}

/// A line of hints, each with a separator behind it.
pub open spec fn hint_line(hints: Seq<(Seq<char>, Seq<char>)>) -> Seq<SpanV>
    decreases hints.len(),
{
    if hints.len() == 0 {
        Seq::empty()
    } else {
        hint_line(hints.drop_last()) + seq![
            span(hints.last().0, fg_style(Color::Cyan)),
            raw(" "@),
            span(hints.last().1, fg_style(Color::DarkGray)),
            raw("  "@),
        ]
    }
}

/// As many hints as fit, without the separator behind the last one.
pub open spec fn hints_shown(hints: Seq<(Seq<char>, Seq<char>)>, max: nat) -> Seq<SpanV> {
    let line = hint_line(hints.take(hints_fitting(hints, max)));
    if line.len() == 0 {
        line
    } else {
        line.drop_last()
    }
}

/// "k label  " — the cost of one rendered hint, including its separator.
pub fn hint_width(hint: (&str, &str)) -> (r: usize)
    requires
        hint.0@.len() + hint.1@.len() + 3 <= usize::MAX,
    ensures
        r == hint_cost((hint.0@, hint.1@)),
{
    hint.0.unicode_len() + hint.1.unicode_len() + 3
}

proof fn lemma_hints_stop(hints: Seq<(Seq<char>, Seq<char>)>, k: int, max: nat)
    requires
        0 <= k < hints.len(),
        hints_fitting(hints.take(k), max) == k,
        hints_cost(hints.take(k + 1)) > max,
    ensures
        hints_fitting(hints, max) == k,
    decreases hints.len(),
{
    assert(hints.take(k + 1).drop_last() =~= hints.take(k));
    if k + 1 == hints.len() {
        assert(hints.take(k + 1) =~= hints);
    } else {
        let front = hints.drop_last();
        assert(front.take(k) =~= hints.take(k));
        assert(front.take(k + 1) =~= hints.take(k + 1));
        lemma_hints_stop(front, k, max);
    }
}

/// As many hints as fit in `max` columns, in priority order. Drops whole hints
/// off the tail rather than truncating one mid-word.
pub fn hint_spans(hints: &[(&str, &str)], max: usize) -> (r: Vec<Span>)
    requires
        forall|i: int|
            0 <= i < hints@.len() ==> (#[trigger] hints@[i]).0@.len() + hints@[i].1@.len() + 3
                <= usize::MAX,
    ensures
        views(r@) == hints_shown(hint_texts(hints@), max as nat),
{
    let ghost all = hint_texts(hints@);
    let mut spans: Vec<Span> = Vec::new();
    let mut used: usize = 0;
    let mut i: usize = 0;
    assert(all.take(0) =~= Seq::<(Seq<char>, Seq<char>)>::empty());
    assert(views(spans@) =~= hint_line(all.take(0)));
    assert(all.take(all.len() as int) =~= all);
    while i < hints.len()
        invariant_except_break
            hints_fitting(all.take(i as int), max as nat) == i,
        invariant
            i <= hints@.len(),
            all == hint_texts(hints@),
            all.take(all.len() as int) == all,
            forall|j: int|
                0 <= j < hints@.len() ==> (#[trigger] hints@[j]).0@.len() + hints@[j].1@.len() + 3
                    <= usize::MAX,
            used == hints_cost(all.take(i as int)),
            used <= max,
            views(spans@) == hint_line(all.take(i as int)),
        ensures
            hints_fitting(all, max as nat) == i,
        decreases hints@.len() - i,
    {
        assert(all.take(i + 1).drop_last() =~= all.take(i as int));
        assert(all.take(i + 1).last() == all[i as int]);
        let h = hints[i];
        let w: usize = hint_width(h);
        if max - used < w {
            proof {
                lemma_hints_stop(all, i as int, max as nat);
            }
            break;
        }
        used = used + w;
        push_span(&mut spans, h.0.to_owned(), Style::fg(Color::Cyan));
        push_raw(&mut spans, " ");
        push_span(&mut spans, h.1.to_owned(), Style::fg(Color::DarkGray));
        push_raw(&mut spans, "  ");
        assert(views(spans@) =~= hint_line(all.take(i + 1)));
        i += 1;
    }
    let ghost line = spans@;
    if spans.len() > 0 {
        let _separator = spans.pop();
        assert(views(spans@) =~= views(line).drop_last());
    }
    spans
}

proof fn lemma_hint_line_len(hints: Seq<(Seq<char>, Seq<char>)>)
    ensures
        line_text(hint_line(hints)).len() == hints_cost(hints),
        hints.len() > 0 ==> hint_line(hints).len() > 0 && line_text(
            hint_line(hints).drop_last(),
        ).len() == hints_cost(hints) - 2,
        hints.len() == 0 ==> hint_line(hints).len() == 0,
    decreases hints.len(),
{
    if hints.len() > 0 {
        lemma_hint_line_len(hints.drop_last());
        reveal_strlit(" ");
        reveal_strlit("  ");
        let front = hint_line(hints.drop_last());
        let a = span(hints.last().0, fg_style(Color::Cyan));
        let b = raw(" "@);
        let c = span(hints.last().1, fg_style(Color::DarkGray));
        let d = raw("  "@);
        let l1 = front.push(a);
        let l2 = l1.push(b);
        let l3 = l2.push(c);
        let l4 = l3.push(d);
        assert(hint_line(hints) =~= l4);
        assert(l1.drop_last() =~= front);
        assert(l2.drop_last() =~= l1);
        assert(l3.drop_last() =~= l2);
        assert(l4.drop_last() =~= l3);
        assert(line_text(l1) == line_text(front) + a.text);
        assert(line_text(l2) == line_text(l1) + b.text);
        assert(line_text(l3) == line_text(l2) + c.text);
        assert(line_text(l4) == line_text(l3) + d.text);
    }
}

proof fn lemma_hints_fitting(hints: Seq<(Seq<char>, Seq<char>)>, max: nat)
    ensures
        0 <= hints_fitting(hints, max) <= hints.len(),
        hints_cost(hints.take(hints_fitting(hints, max))) <= max,
        hints_fitting(hints, max) < hints.len() ==> hints_cost(
            hints.take(hints_fitting(hints, max) + 1),
        ) > max,
    decreases hints.len(),
{
    if hints.len() > 0 {
        let front = hints.drop_last();
        lemma_hints_fitting(front, max);
        let k = hints_fitting(front, max);
        assert(front.take(k) =~= hints.take(k));
        assert(hints.take(hints.len() as int) =~= hints);
        if k < front.len() {
            assert(front.take(k + 1) =~= hints.take(k + 1));
        } else {
            assert(hints.take(k + 1) =~= hints);
        }
    } else {
        assert(hints.take(0) =~= hints);
    }
}

/// Hints never take more columns than they are given, are never cut in the
/// middle, and are only dropped when the next one does not fit.
pub proof fn hints_are_dropped_whole(hints: Seq<(Seq<char>, Seq<char>)>, max: nat)
    ensures
        line_text(hints_shown(hints, max)).len() <= max,
        ({
            let n = hints_fitting(hints, max);
            &&& 0 <= n <= hints.len()
            &&& n < hints.len() ==> hints_cost(hints.take(n + 1)) > max
            &&& n > 0 ==> line_text(hints_shown(hints, max)).len() == hints_cost(
                hints.take(n),
            ) - 2
            &&& n == 0 ==> hints_shown(hints, max).len() == 0
            &&& n > 0 ==> 3 <= hints_cost(hints.take(n)) <= max
        }),
{
    lemma_hints_fitting(hints, max);
    lemma_hint_line_len(hints.take(hints_fitting(hints, max)));
}

// ---------------------------------------------------------------------------
// dates
// ---------------------------------------------------------------------------

/// A point in time as the clock on the wall shows it.
#[derive(Debug, Clone, Copy, PartialEq, Eq, Structural)]
pub struct LocalTime {
    pub year: i32,
    pub month: u32,
    pub day: u32,
    pub hour: u32,
    pub minute: u32,
}

/// A number with at least `w` digits.
pub open spec fn zero_padded(n: nat, w: nat) -> Seq<char> {
    if decimal(n).len() >= w {
        decimal(n)
    } else {
        repeated('0', (w - decimal(n).len()) as nat) + decimal(n)
    }
}

/// A year of at least four digits, with a sign where it is not one of the
/// years 0 to 9999.
pub open spec fn year_text(year: int) -> Seq<char> {
    if 0 <= year <= 9999 {
        zero_padded(year as nat, 4)
    } else if year > 0 {
        "+"@ + zero_padded(year as nat, 4)
    } else {
        "-"@ + zero_padded((-year) as nat, 4)
    }
}

/// The time of day for today, the date for any other day, in ten columns.
pub open spec fn date_text(d: LocalTime, today: LocalTime) -> Seq<char> {
    if d.year == today.year && d.month == today.month && d.day == today.day {
        zero_padded(d.hour as nat, 2) + ":"@ + zero_padded(d.minute as nat, 2) + "     "@
    } else {
        year_text(d.year as int) + "-"@ + zero_padded(d.month as nat, 2) + "-"@ + zero_padded(
            d.day as nat,
            2,
        )
    }
}

fn push_padded(out: &mut String, n: usize, w: usize)
    ensures
        final(out)@ == old(out)@ + zero_padded(n as nat, w as nat),
{
    let ghost start = out@;
    let digits = number(n);
    let len: usize = digits.as_str().unicode_len();
    if len < w {
        push_repeated(out, '0', w - len);
    }
    out.append(digits.as_str());
    assert(out@ =~= start + zero_padded(n as nat, w as nat));
}

/// The time of day for today, the date for any other day.
pub fn fmt_date(d: LocalTime, today: LocalTime) -> (r: String)
    ensures
        r@ == date_text(d, today),
{
    let mut out = String::new();
    if d.year == today.year && d.month == today.month && d.day == today.day {
        push_padded(&mut out, d.hour as usize, 2);
        out.append(":");
        push_padded(&mut out, d.minute as usize, 2);
        out.append("     ");
    } else {
        if d.year > 9999 {
            out.append("+");
            push_padded(&mut out, d.year as usize, 4);
        } else if d.year >= 0 {
            push_padded(&mut out, d.year as usize, 4);
        } else {
            let back: i64 = -(d.year as i64);
            out.append("-");
            push_padded(&mut out, back as usize, 4);
        }
        assert(out@ =~= year_text(d.year as int));
        out.append("-");
        push_padded(&mut out, d.month as usize, 2);
        out.append("-");
        push_padded(&mut out, d.day as usize, 2);
    }
    assert(out@ =~= date_text(d, today));
    out
}

} // verus!
