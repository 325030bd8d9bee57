//! What the screen says: every row, title and hint as styled text, and where
//! the boxes go. Putting it on a terminal is done elsewhere.
use crate::clock::{now, Timestamp, NANOS_PER_DAY};
use crate::imap_client::{SweepProgress, WINDOW};
use crate::sort::views;
use crate::stacks::{all_messages, MsgMeta, MsgV, Stack, StackV};
pub use crate::text::commas;
use crate::text::{
    decimal, grouped, is_empty, join, joined, lowercase, number, right_align, right_aligned,
};
use crate::ui::account::{AccountV, AccountView};
use crate::ui::app::{Alert, AlertV, App, AppV, Mode, ModeV, SessionStats, StatsV};
use crate::ui::jobs::{method_for, source_readable, stack_method};
use crate::ui::widgets::{
    at_right_end, bold_style, centered, cut_to, date_text, fg_style, first_that_fits, fitting,
    fmt_date, free_columns, hint_line, hint_spans, hint_texts, hint_width, hints_are_dropped_whole,
    hints_cost, hints_fitting, hints_shown, line_text, middle, min_u16, plain_style, push_raw,
    push_span, raw, right_end, room_behind, smaller, span, text_of, truncate, Color, LocalTime,
    Rect, Span, SpanV, Style,
};
use vstd::prelude::*;
use vstd::string::*;

verus! {

// ---------------------------------------------------------------------------
// too small a terminal
// ---------------------------------------------------------------------------

/// The layout needs 6 rows (tab + 3 panes + status + help) and enough columns
/// for a stack row; below this the panes would be squeezed to nothing, which
/// reads as a broken TUI rather than a small one.
pub const MIN_WIDTH: u16 = 80;

pub const MIN_HEIGHT: u16 = 24;

/// Is the terminal too small for the panes?
pub fn too_small(width: u16, height: u16) -> (r: bool)
    ensures
        r == (width < MIN_WIDTH || height < MIN_HEIGHT),
        r == (width < 80 || height < 24),
{
    width < MIN_WIDTH || height < MIN_HEIGHT
}

/// What a terminal that is too small is told, line by line.
pub open spec fn too_small_text(width: u16, height: u16) -> Seq<SpanV> {
    seq![
        span("terminal too small"@, bold_style(Color::Yellow)),
        span(
            "need 80x24 — this one is "@ + decimal(width as nat) + "x"@ + decimal(height as nat),
            fg_style(Color::Gray),
        ),
    ]
}

/// What a terminal that is too small is told, line by line.
pub fn too_small_lines(width: u16, height: u16) -> (r: Vec<Span>)
    ensures
        views(r@) == too_small_text(width, height),
{
    let mut lines: Vec<Span> = Vec::new();
    push_span(&mut lines, "terminal too small".to_owned(), Style::bold_fg(Color::Yellow));
    let mut line = "need 80x24 — this one is ".to_owned();
    let w = number(width as usize);
    let h = number(height as usize);
    line.append(w.as_str());
    line.append("x");
    line.append(h.as_str());
    push_span(&mut lines, line, Style::fg(Color::Gray));
    assert(views(lines@) =~= too_small_text(width, height));
    lines
}

/// Where the two lines go: in the middle of the height.
pub fn too_small_box(area: Rect) -> (r: Rect)
    requires
        area.wf(),
    ensures
        r == (Rect {
            x: area.x,
            y: (area.y + (if area.height >= 2 {
                (area.height - 2) / 2
            } else {
                0
            })) as u16,
            width: area.width,
            height: smaller(2, area.height),
        }),
{
    Rect {
        x: area.x,
        y: area.y + area.height.saturating_sub(2) / 2,
        width: area.width,
        height: min_u16(2, area.height),
    }
}

// ---------------------------------------------------------------------------
// the tab row
// ---------------------------------------------------------------------------

/// One account's tab.
pub open spec fn tab(a: AccountV, active: bool) -> Seq<SpanV> {
    seq![
        raw("  "@),
        span(
            a.cfg.name,
            if active {
                bold_style(Color::Cyan)
            } else {
                fg_style(Color::DarkGray)
            },
        ),
    ]
}

/// The tabs of the first `n` accounts, behind the program's name.
pub open spec fn tabs(app: AppV, n: int) -> Seq<SpanV>
    decreases n,
{
    if n <= 0 {
        seq![
            span(
                " mailprune "@,
                Style { fg: Some(Color::Black), bg: Some(Color::Cyan), bold: true },
            ),
        ]
    } else {
        tabs(app, n - 1) + tab(app.accounts[n - 1], n - 1 == app.active)
    }
}

/// The tab row.
pub fn tab_spans(app: &App) -> (r: Vec<Span>)
    ensures
        views(r@) == tabs(app@, app@.accounts.len() as int),
{
    let mut spans: Vec<Span> = Vec::new();
    push_span(
        &mut spans,
        " mailprune ".to_owned(),
        Style { fg: Some(Color::Black), bg: Some(Color::Cyan), bold: true },
    );
    assert(views(spans@) =~= tabs(app@, 0));
    let mut i: usize = 0;
    while i < app.accounts.len()
        invariant
            i <= app.accounts@.len(),
            views(spans@) == tabs(app@, i as int),
        decreases app.accounts@.len() - i,
    {
        assert(app@.accounts[i as int] == app.accounts@[i as int]@);
        let style = if i == app.active {
            Style::bold_fg(Color::Cyan)
        } else {
            Style::fg(Color::DarkGray)
        };
        push_raw(&mut spans, "  ");
        push_span(&mut spans, app.accounts[i].cfg.name.clone(), style);
        i += 1;
        assert(views(spans@) =~= tabs(app@, i as int));
    }
    spans
}

/// One counter, where it counted something: "12 trashed", or "12d" where it
/// has to be short.
pub open spec fn counter(n: nat, long: Seq<char>, abbrev: Seq<char>, short: bool) -> Seq<
    Seq<char>,
> {
    if n == 0 {
        Seq::empty()
    } else if short {
        seq![decimal(n) + abbrev]
    } else {
        seq![decimal(n) + " "@ + long]
    }
}

/// The counters of a session that counted something.
pub open spec fn counters(s: StatsV, short: bool) -> Seq<Seq<char>> {
    counter(s.trashed, "trashed"@, "d"@, short) + counter(s.archived, "archived"@, "e"@, short)
        + counter(s.marked_read, "read"@, "r"@, short) + counter(
        s.unsubscribed,
        "unsubbed"@,
        "u"@,
        short,
    )
}

/// The counters in `max` columns or fewer: in full, else short, else not at
/// all.
pub open spec fn counters_text(s: StatsV, max: nat) -> Option<Seq<char>> {
    let full = joined(counters(s, false), " · "@);
    let short = joined(counters(s, true), " · "@);
    if counters(s, false).len() == 0 {
        None
    } else if full.len() <= max {
        Some(full)
    } else if short.len() <= max {
        Some(short)
    } else {
        None
    }
}

fn push_counter(parts: &mut Vec<String>, n: usize, long: &str, abbrev: &str, short: bool)
    ensures
        views(final(parts)@) == views(old(parts)@) + counter(n as nat, long@, abbrev@, short),
{
    let ghost had = parts@;
    if n > 0 {
        let mut part = number(n);
        if short {
            part.append(abbrev);
        } else {
            part.append(" ");
            part.append(long);
        }
        let ghost v = part@;
        parts.push(part);
        assert(views(parts@) =~= views(had).push(v));
    }
    assert(views(parts@) =~= views(had) + counter(n as nat, long@, abbrev@, short));
}

fn counter_parts(stats: &SessionStats, short: bool) -> (r: Vec<String>)
    ensures
        views(r@) == counters(stats@, short),
{
    let mut parts: Vec<String> = Vec::new();
    push_counter(&mut parts, stats.trashed, "trashed", "d", short);
    push_counter(&mut parts, stats.archived, "archived", "e", short);
    push_counter(&mut parts, stats.marked_read, "read", "r", short);
    push_counter(&mut parts, stats.unsubscribed, "unsubbed", "u", short);
    assert(views(parts@) =~= counters(stats@, short));
    parts
}

/// What this session has actually cleared, in `max` columns or fewer, or None
/// when nothing has been done yet — the row stays empty until it has something
/// to say. Abbreviates to the action keys before it gives up.
pub fn session_counters(stats: &SessionStats, max: usize) -> (r: Option<String>)
    ensures
        match r {
            Some(s) => counters_text(stats@, max as nat) == Some(s@),
            None => counters_text(stats@, max as nat) is None,
        },
{
    let parts = counter_parts(stats, false);
    if parts.len() == 0 {
        return None;
    }
    let full = join(&parts, " · ");
    if full.as_str().unicode_len() <= max {
        return Some(full);
    }
    let short = join(&counter_parts(stats, true), " · ");
    if short.as_str().unicode_len() <= max {
        Some(short)
    } else {
        None
    }
}

proof fn lemma_decimal_nonempty(n: nat)
    ensures
        decimal(n).len() > 0,
{
}

proof fn lemma_joined_nonempty(parts: Seq<Seq<char>>, sep: Seq<char>)
    requires
        parts.len() > 0,
        parts.last().len() > 0,
    ensures
        joined(parts, sep).len() > 0,
{
}

proof fn lemma_counters_nonempty(s: StatsV, short: bool)
    ensures
        counters(s, short).len() > 0 ==> counters(s, short).last().len() > 0,
        counters(s, true).len() == counters(s, false).len(),
{
    lemma_decimal_nonempty(s.trashed);
    lemma_decimal_nonempty(s.archived);
    lemma_decimal_nonempty(s.marked_read);
    lemma_decimal_nonempty(s.unsubscribed);
}

proof fn lemma_counters_say_something(s: StatsV, max: nat)
    ensures
        counters_text(s, max) matches Some(t) ==> 0 < t.len() <= max,
{
    lemma_counters_nonempty(s, false);
    lemma_counters_nonempty(s, true);
    if counters(s, false).len() > 0 {
        lemma_joined_nonempty(counters(s, false), " · "@);
        lemma_joined_nonempty(counters(s, true), " · "@);
    }
}

/// The session's running totals ride the free end of the tab row, and where
/// they go.
pub open spec fn tab_totals(app: AppV, area: Rect) -> Option<(Rect, Seq<char>)> {
    let used = line_text(tabs(app, app.accounts.len() as int)).len();
    let free = if area.width >= used + 2 {
        area.width - used - 2
    } else {
        0
    };
    match counters_text(app.stats, free as nat) {
        Some(s) => Some((right_end(area, s.len() as int), s)),
        None => None,
    }
}

/// The running totals on the tab row, and where they go.
pub fn tab_counters(app: &App, area: Rect) -> (r: Option<(Rect, String)>)
    requires
        area.wf(),
    ensures
        match r {
            Some((rect, s)) => tab_totals(app@, area) == Some((rect, s@)),
            None => tab_totals(app@, area) is None,
        },
{
    let line = text_of(tab_spans(app).as_slice());
    let used: usize = line.as_str().unicode_len();
    let free: usize = (area.width as usize).saturating_sub(used).saturating_sub(2);
    match session_counters(&app.stats, free) {
        Some(s) => {
            let width: usize = s.as_str().unicode_len();
            proof {
                lemma_counters_say_something(app@.stats, free as nat);
            }
            Some((at_right_end(area, width), s))
        },
        None => None,
    }
}

// ---------------------------------------------------------------------------
// the stack pane
// ---------------------------------------------------------------------------

/// A sender name never needs more than this, however wide the pane gets.
pub const NAME_MAX: usize = 22;

/// Below this a subject says nothing useful, so it is dropped instead.
pub const SUBJECT_MIN: usize = 12;

/// Nor does a subject need more than this.
pub const SUBJECT_MAX: usize = 32;

/// Everything left of the name is fixed-width: mark, count, rate, unsub badge
/// and their separating spaces.
pub const FIXED: usize = 13;

/// The marked count, where something is marked.
pub open spec fn marked_text(marked: Set<Seq<char>>, short: bool) -> Seq<char> {
    if marked.is_empty() {
        Seq::empty()
    } else if short {
        " · "@ + decimal(marked.len()) + "▌"@
    } else {
        " · "@ + decimal(marked.len()) + " marked"@
    }
}

/// How much of the mailbox is loaded: "newest 412 of 137,482 msgs", or "all
/// 3,120 msgs" once the window reaches the oldest message.
pub open spec fn extent_text(a: AccountV) -> Seq<char> {
    if a.reached_end {
        "all "@ + grouped(a.total) + " msgs"@
    } else {
        "newest "@ + grouped(all_messages(a.stacks).len()) + " of "@ + grouped(a.total) + " msgs"@
    }
}

/// " stacks (42)"
pub open spec fn stacks_label(n: nat) -> Seq<char> {
    " stacks ("@ + decimal(n) + ")"@
}

/// Grouping and sorting: " · by sender · sort count", or " · sender · count".
pub open spec fn state_label(app: AppV, long: bool) -> Seq<char> {
    if long {
        " · by "@ + app.group_by.name() + " · sort "@ + app.sort_by.name()
    } else {
        " · "@ + app.group_by.name() + " · "@ + app.sort_by.name()
    }
}

pub open spec fn wide_title(
    stacks: Seq<char>,
    extent: Seq<char>,
    state: Seq<char>,
    marked: Seq<char>,
) -> Seq<char> {
    stacks + " · "@ + extent + state + marked + " "@
}

pub open spec fn narrow_title(head: Seq<char>, state: Seq<char>, marked: Seq<char>) -> Seq<char> {
    head + state + marked + " "@
}

/// The titles that the list can have, from the widest to the narrowest.
/// Group-by, sort and the marked count are the state that keys change, so they
/// are the last things to go; the labels around them and the message total
/// drop first.
pub open spec fn list_titles(app: AppV) -> Seq<Seq<char>> {
    let a = app.acct();
    let n = a.visible(app.filter).len();
    let stacks = stacks_label(n);
    let ratio = grouped(all_messages(a.stacks).len()) + "/"@ + grouped(a.total);
    let marked = marked_text(a.marked, false);
    seq![
        wide_title(stacks, extent_text(a), state_label(app, true), marked),
        wide_title(stacks, ratio, state_label(app, true), marked),
        wide_title(stacks, ratio, state_label(app, false), marked),
        narrow_title(stacks, state_label(app, false), marked),
        narrow_title(" "@ + decimal(n), state_label(app, false), marked),
        narrow_title(" "@ + decimal(n), state_label(app, false), marked_text(a.marked, true)),
    ]
}

/// The titles of a filtered list, from the widest to the narrowest.
pub open spec fn filter_titles(app: AppV) -> Seq<Seq<char>> {
    let a = app.acct();
    let n = decimal(a.visible(app.filter).len());
    let marked = marked_text(a.marked, false);
    let marked_short = marked_text(a.marked, true);
    seq![
        " stacks ("@ + n + ") · filter: "@ + app.filter + marked + " "@,
        " ("@ + n + ") /"@ + app.filter + marked + " "@,
        " ("@ + n + ") /"@ + app.filter + marked_short + " "@,
    ]
}

/// The stack pane's title.
pub open spec fn title_text(app: AppV, inner: nat) -> Seq<char> {
    fitting(
        if app.filter.len() == 0 {
            list_titles(app)
        } else {
            filter_titles(app)
        },
        inner,
    )
}

fn marked_label(acct: &AccountView, short: bool) -> (r: String)
    ensures
        r@ == marked_text(acct@.marked, short),
{
    if acct.marked.is_empty() {
        return String::new();
    }
    let n = number(acct.marked.len());
    let mut out = " · ".to_owned();
    out.append(n.as_str());
    out.append(
        if short {
            "▌"
        } else {
            " marked"
        },
    );
    out
}

fn extent_label(acct: &AccountView) -> (r: String)
    requires
        acct@.wf(),
    ensures
        r@ == extent_text(acct@),
{
    let total = commas(acct.inbox_total());
    let mut out = String::new();
    if acct.exhausted() {
        out.append("all ");
    } else {
        let loaded = commas(acct.loaded_messages());
        out.append("newest ");
        out.append(loaded.as_str());
        out.append(" of ");
    }
    out.append(total.as_str());
    out.append(" msgs");
    assert(out@ =~= extent_text(acct@));
    out
}

fn push_title(titles: &mut Vec<String>, title: String)
    ensures
        views(final(titles)@) == views(old(titles)@).push(title@),
{
    let ghost had = titles@;
    let ghost v = title@;
    titles.push(title);
    assert(views(titles@) =~= views(had).push(v));
}

fn state_text(app: &App, long: bool) -> (r: String)
    ensures
        r@ == state_label(app@, long),
{
    let mut out = if long {
        " · by ".to_owned()
    } else {
        " · ".to_owned()
    };
    out.append(app.group_by.label());
    out.append(
        if long {
            " · sort "
        } else {
            " · "
        },
    );
    out.append(app.sort_by.label());
    out
}

fn make_wide(stacks: &str, extent: &str, state: &str, marked: &str) -> (r: String)
    ensures
        r@ == wide_title(stacks@, extent@, state@, marked@),
{
    let mut out = stacks.to_owned();
    out.append(" · ");
    out.append(extent);
    out.append(state);
    out.append(marked);
    out.append(" ");
    out
}

fn make_narrow(head: &str, state: &str, marked: &str) -> (r: String)
    ensures
        r@ == narrow_title(head@, state@, marked@),
{
    let mut out = head.to_owned();
    out.append(state);
    out.append(marked);
    out.append(" ");
    out
}

fn plain_titles(app: &App) -> (r: Vec<String>)
    requires
        app@.wf(),
    ensures
        views(r@) == list_titles(app@),
{
    let acct = app.account();
    assert(acct@.wf());
    let count = number(app.visible_stacks().len());
    let marked = marked_label(acct, false);
    let marked_short = marked_label(acct, true);
    let extent = extent_label(acct);
    let mut ratio = commas(acct.loaded_messages());
    let total = commas(acct.inbox_total());
    ratio.append("/");
    ratio.append(total.as_str());
    let long = state_text(app, true);
    let state = state_text(app, false);
    let mut stacks = " stacks (".to_owned();
    stacks.append(count.as_str());
    stacks.append(")");
    let mut head = " ".to_owned();
    head.append(count.as_str());
    let (k, e, r) = (stacks.as_str(), extent.as_str(), ratio.as_str());
    let (l, s, m) = (long.as_str(), state.as_str(), marked.as_str());
    let mut titles: Vec<String> = Vec::new();
    push_title(&mut titles, make_wide(k, e, l, m));
    push_title(&mut titles, make_wide(k, r, l, m));
    push_title(&mut titles, make_wide(k, r, s, m));
    push_title(&mut titles, make_narrow(k, s, m));
    push_title(&mut titles, make_narrow(head.as_str(), s, m));
    push_title(&mut titles, make_narrow(head.as_str(), s, marked_short.as_str()));
    assert(views(titles@) =~= list_titles(app@));
    titles
}

fn filtered_titles(app: &App) -> (r: Vec<String>)
    requires
        app@.wf(),
    ensures
        views(r@) == filter_titles(app@),
{
    let acct = app.account();
    let count = number(app.visible_stacks().len());
    let marked = marked_label(acct, false);
    let marked_short = marked_label(acct, true);
    let mut t0 = " stacks (".to_owned();
    t0.append(count.as_str());
    t0.append(") · filter: ");
    t0.append(app.filter.as_str());
    t0.append(marked.as_str());
    t0.append(" ");
    let mut t1 = " (".to_owned();
    t1.append(count.as_str());
    t1.append(") /");
    t1.append(app.filter.as_str());
    let mut t2 = t1.clone();
    t1.append(marked.as_str());
    t1.append(" ");
    t2.append(marked_short.as_str());
    t2.append(" ");
    let mut titles: Vec<String> = Vec::new();
    push_title(&mut titles, t0);
    push_title(&mut titles, t1);
    push_title(&mut titles, t2);
    assert(views(titles@) =~= filter_titles(app@));
    titles
}

/// The stack pane's title, in `inner` columns if it can be.
pub fn pane_title(app: &App, inner: usize) -> (r: String)
    requires
        app@.wf(),
    ensures
        r@ == title_text(app@, inner as nat),
{
    let titles = if is_empty(app.filter.as_str()) {
        plain_titles(app)
    } else {
        filtered_titles(app)
    };
    assert(views(titles@).len() == titles@.len());
    first_that_fits(titles.as_slice(), inner)
}

/// The count of a row; one that is known to be short says so.
pub open spec fn count_text(n: nat, partial: bool) -> Seq<char> {
    right_aligned(
        if partial {
            "~"@ + decimal(n)
        } else {
            decimal(n)
        },
        4,
    )
}

/// The unread count of a row, where there is something unread.
pub open spec fn unread_text(n: nat) -> Seq<char> {
    if n > 0 {
        " ("@ + decimal(n) + " new)"@
    } else {
        Seq::empty()
    }
}

/// Red for mail that is hardly ever opened, yellow for some of it.
pub open spec fn rate_style(rate: int) -> Style {
    if rate <= 10 {
        fg_style(Color::Red)
    } else if rate <= 40 {
        fg_style(Color::Yellow)
    } else {
        fg_style(Color::DarkGray)
    }
}

pub open spec fn name_style(marked: bool, unread: bool) -> Style {
    if marked {
        bold_style(Color::Cyan)
    } else if unread {
        Style { fg: None, bg: None, bold: true }
    } else {
        plain_style()
    }
}

/// The columns left for name and subject.
pub open spec fn row_room(inner: nat, unread: nat) -> nat {
    let taken = FIXED + unread_text(unread).len();
    if inner >= taken {
        (inner - taken) as nat
    } else {
        0
    }
}

/// The columns left for the name.
pub open spec fn name_room(inner: nat, unread: nat) -> nat {
    if row_room(inner, unread) <= NAME_MAX {
        row_room(inner, unread)
    } else {
        NAME_MAX as nat
    }
}

/// The subject of a row, where it has one and there is room for it. It is the
/// first thing to go: a truncated sender is worse than no subject at all.
pub open spec fn subject_part(s: StackV, inner: nat) -> Seq<SpanV> {
    let room = (row_room(inner, s.unread_count) - name_room(inner, s.unread_count)) as int;
    match s.subject {
        Some(subject) => if room >= SUBJECT_MIN + 3 {
            seq![
                span(
                    " · "@ + cut_to(
                        subject,
                        (if room - 3 <= SUBJECT_MAX {
                            room - 3
                        } else {
                            SUBJECT_MAX as int
                        }) as nat,
                    ),
                    fg_style(Color::Gray),
                ),
            ]
        } else {
            Seq::empty()
        },
        None => Seq::empty(),
    }
}

/// The stack's sender was only partly listed.
pub open spec fn is_partial(a: AccountV, s: StackV) -> bool {
    !a.partial_senders.is_empty() && a.partial_senders.contains(
        lowercase(s.msgs[0].sender_email),
    )
}

/// A row of the stack pane.
pub open spec fn row_spans(a: AccountV, s: StackV, inner: nat) -> Seq<SpanV> {
    let marked = a.marked.contains(s.key);
    seq![
        span(
            if marked {
                "▌"@
            } else {
                " "@
            },
            bold_style(Color::Cyan),
        ),
        span(count_text(s.msgs.len(), is_partial(a, s)), fg_style(Color::Yellow)),
        raw(" "@),
        span(right_aligned(decimal(s.rate() as nat), 3) + "%"@, rate_style(s.rate())),
        raw(" "@),
        span(
            if s.can_unsubscribe {
                "U"@
            } else {
                " "@
            },
            bold_style(Color::Green),
        ),
        raw(" "@),
        span(
            cut_to(s.display_name, name_room(inner, s.unread_count)),
            name_style(marked, s.unread_count > 0),
        ),
    ] + subject_part(s, inner) + seq![
        span(unread_text(s.unread_count), fg_style(Color::Cyan)),
    ]
}

fn count_label(n: usize, partial: bool) -> (r: String)
    ensures
        r@ == count_text(n as nat, partial),
{
    let digits = number(n);
    if partial {
        let mut out = "~".to_owned();
        out.append(digits.as_str());
        right_align(out.as_str(), 4)
    } else {
        right_align(digits.as_str(), 4)
    }
}

fn unread_label(n: usize) -> (r: String)
    ensures
        r@ == unread_text(n as nat),
{
    if n == 0 {
        return String::new();
    }
    let digits = number(n);
    let mut out = " (".to_owned();
    out.append(digits.as_str());
    out.append(" new)");
    out
}

fn row_head(acct: &AccountView, s: &Stack, name_budget: usize) -> (r: Vec<Span>)
    requires
        s@.msgs.len() > 0,
    ensures
        views(r@) == seq![
            span(
                if acct@.marked.contains(s@.key) {
                    "▌"@
                } else {
                    " "@
                },
                bold_style(Color::Cyan),
            ),
            span(count_text(s@.msgs.len(), is_partial(acct@, s@)), fg_style(Color::Yellow)),
            raw(" "@),
            span(right_aligned(decimal(s@.rate() as nat), 3) + "%"@, rate_style(s@.rate())),
            raw(" "@),
            span(
                if s@.can_unsubscribe {
                    "U"@
                } else {
                    " "@
                },
                bold_style(Color::Green),
            ),
            raw(" "@),
            span(
                cut_to(s@.display_name, name_budget as nat),
                name_style(acct@.marked.contains(s@.key), s@.unread_count > 0),
            ),
        ],
{
    let marked = acct.marked.contains(s.key.as_str());
    let rate: u8 = s.read_rate();
    let digits = number(rate as usize);
    let mut percent = right_align(digits.as_str(), 3);
    percent.append("%");
    let rate_style = if rate <= 10 {
        Style::fg(Color::Red)
    } else if rate <= 40 {
        Style::fg(Color::Yellow)
    } else {
        Style::fg(Color::DarkGray)
    };
    let name_style = if marked {
        Style::bold_fg(Color::Cyan)
    } else if s.unread_count > 0 {
        Style { fg: None, bg: None, bold: true }
    } else {
        Style::plain()
    };
    let mark = if marked {
        "▌"
    } else {
        " "
    };
    let badge = if s.can_unsubscribe {
        "U"
    } else {
        " "
    };
    let mut spans: Vec<Span> = Vec::new();
    push_span(&mut spans, mark.to_owned(), Style::bold_fg(Color::Cyan));
    // a refused fan-out leaves only part of the sender's mail, so the count
    // under-reports. The marker is the warning; it shares the count's width
    // rather than costing a column of its own.
    push_span(
        &mut spans,
        count_label(s.msgs.len(), acct.is_partial(s)),
        Style::fg(Color::Yellow),
    );
    push_raw(&mut spans, " ");
    push_span(&mut spans, percent, rate_style);
    push_raw(&mut spans, " ");
    push_span(&mut spans, badge.to_owned(), Style::bold_fg(Color::Green));
    push_raw(&mut spans, " ");
    push_span(&mut spans, truncate(s.display_name.as_str(), name_budget), name_style);
    assert(views(spans@) =~= seq![
        span(mark@, bold_style(Color::Cyan)),
        span(count_text(s@.msgs.len(), is_partial(acct@, s@)), fg_style(Color::Yellow)),
        raw(" "@),
        span(percent@, rate_style),
        raw(" "@),
        span(badge@, bold_style(Color::Green)),
        raw(" "@),
        span(cut_to(s@.display_name, name_budget as nat), name_style),
    ]);
    spans
}

/// A row of the stack pane, for a pane of `inner` columns.
pub fn stack_row(acct: &AccountView, s: &Stack, inner: usize) -> (r: Vec<Span>)
    requires
        s@.msgs.len() > 0,
    ensures
        views(r@) == row_spans(acct@, s@, inner as nat),
{
    let unread = unread_label(s.unread_count);
    let unread_len: usize = unread.as_str().unicode_len();
    let free: usize = inner.saturating_sub(FIXED).saturating_sub(unread_len);
    let name_budget: usize = if free <= NAME_MAX {
        free
    } else {
        NAME_MAX
    };
    let mut spans = row_head(acct, s, name_budget);
    let ghost head = views(spans@);
    let room: usize = free - name_budget;
    if let Some(subject) = &s.subject {
        if room >= SUBJECT_MIN + 3 {
            let budget: usize = if room - 3 <= SUBJECT_MAX {
                room - 3
            } else {
                SUBJECT_MAX
            };
            let cut = truncate(subject.as_str(), budget);
            let mut text = " · ".to_owned();
            text.append(cut.as_str());
            push_span(&mut spans, text, Style::fg(Color::Gray));
        }
    }
    assert(views(spans@) =~= head + subject_part(s@, inner as nat));
    push_span(&mut spans, unread, Style::fg(Color::Cyan));
    assert(views(spans@) =~= row_spans(acct@, s@, inner as nat));
    spans
}

/// The row that is highlighted: the cursor's, as far as there are rows.
pub fn highlighted(selected: usize, rows: usize) -> (r: usize)
    requires
        rows > 0,
    ensures
        r == (if selected < rows {
            selected as int
        } else {
            rows - 1
        }),
{
    if selected < rows {
        selected
    } else {
        rows - 1
    }
}

/// The stacks actually on screen: what `rows` rows show from `offset` on.
pub fn on_screen(visible: &Vec<usize>, offset: usize, rows: usize) -> (r: Vec<usize>)
    ensures
        r@ == (if offset >= visible@.len() {
            Seq::empty()
        } else if offset + rows >= visible@.len() {
            visible@.skip(offset as int)
        } else {
            visible@.subrange(offset as int, offset + rows)
        }),
{
    let mut out: Vec<usize> = Vec::new();
    if offset >= visible.len() {
        return out;
    }
    let end: usize = if visible.len() - offset <= rows {
        visible.len()
    } else {
        offset + rows
    };
    let mut i: usize = offset;
    while i < end
        invariant
            offset <= i <= end,
            end <= visible@.len(),
            out@ == visible@.subrange(offset as int, i as int),
        decreases end - i,
    {
        out.push(visible[i]);
        i += 1;
        assert(out@ =~= visible@.subrange(offset as int, i as int));
    }
    assert(visible@.subrange(offset as int, visible@.len() as int) =~= visible@.skip(
        offset as int,
    ));
    out
}

/// Why the stack pane is empty.
pub open spec fn empty_text(app: AppV) -> Seq<char> {
    let a = app.acct();
    if app.loading {
        "loading…"@
    } else if !a.loaded {
        "nothing loaded — press R to try again"@
    } else if app.filter.len() > 0 {
        "nothing matches the filter — Esc to clear it"@
    } else if a.reached_end {
        "inbox zero — nothing left to triage"@
    } else {
        "all clear — press m to sweep "@ + grouped(WINDOW as nat) + " more messages"@
    }
}

/// Why the stack pane is empty — the one place the UI can tell "cleared the
/// window" from "cleared the inbox", and both are worth saying.
pub fn empty_state(app: &App) -> (r: String)
    requires
        app@.wf(),
    ensures
        r@ == empty_text(app@),
{
    let acct = app.account();
    if app.loading {
        "loading…".to_owned()
    } else if !acct.loaded {
        "nothing loaded — press R to try again".to_owned()
    } else if !is_empty(app.filter.as_str()) {
        "nothing matches the filter — Esc to clear it".to_owned()
    } else if acct.exhausted() {
        "inbox zero — nothing left to triage".to_owned()
    } else {
        let mut out = "all clear — press m to sweep ".to_owned();
        let n = commas(WINDOW);
        out.append(n.as_str());
        out.append(" more messages");
        out
    }
}

// ---------------------------------------------------------------------------
// the message pane
// ---------------------------------------------------------------------------

/// The message pane's title: who the stack is from, and how it can be
/// unsubscribed from.
pub open spec fn detail_title_text(s: StackV) -> Seq<char> {
    " "@ + cut_to(s.display_name, 28) + " <"@ + s.key + ">"@ + (match stack_method(s) {
        Some(m) => " · unsub: "@ + m.description(),
        None => Seq::empty(),
    }) + " "@
}

/// The message pane's title.
pub fn detail_title(s: &Stack) -> (r: String)
    requires
        source_readable(s@),
    ensures
        r@ == detail_title_text(s@),
{
    let name = truncate(s.display_name.as_str(), 28);
    let mut out = " ".to_owned();
    out.append(name.as_str());
    out.append(" <");
    out.append(s.key.as_str());
    out.append(">");
    let unsub = match method_for(s) {
        Some(m) => {
            let mut u = " · unsub: ".to_owned();
            u.append(m.describe());
            u
        },
        None => String::new(),
    };
    out.append(unsub.as_str());
    out.append(" ");
    out
}

pub const RECENT_DAYS: i64 = 30;

/// Received within the last 30 days. A date in the future (clock skew on the
/// sending side) counts as recent rather than ancient.
pub open spec fn recent(d: Timestamp, at: Timestamp) -> bool {
    at.elapsed(d) < RECENT_DAYS * NANOS_PER_DAY
}

/// Was this received within the last 30 days, seen from a point in time?
pub fn is_recent_at(d: Timestamp, at: Timestamp) -> (r: bool)
    ensures
        r == recent(d, at),
{
    at.nanos_since(d) < RECENT_DAYS as i128 * NANOS_PER_DAY
}

/// Was this received within the last 30 days?
pub fn is_recent(d: Timestamp) -> (r: bool)
    ensures
        exists|at: Timestamp| r == #[trigger] recent(d, at),
{
    let at = now();
    is_recent_at(d, at)
}

/// A row of the message pane. Recent mail is what you still have context on,
/// so its date reads heavier than the archaeology below it.
pub open spec fn detail_spans(
    m: MsgV,
    local: Option<LocalTime>,
    today: LocalTime,
    at: Timestamp,
) -> Seq<SpanV> {
    seq![
        span(
            match local {
                Some(d) => date_text(d, today),
                None => "          "@,
            },
            if m.date matches Some(d) && recent(d, at) {
                bold_style(Color::DarkGray)
            } else {
                fg_style(Color::DarkGray)
            },
        ),
        raw(" "@),
        span(
            if m.unread {
                "●"@
            } else {
                " "@
            },
            fg_style(Color::Cyan),
        ),
        raw(" "@),
        span(
            m.subject,
            if m.unread {
                Style { fg: None, bg: None, bold: true }
            } else {
                fg_style(Color::Gray)
            },
        ),
    ]
}

/// A row of the message pane. `local` is the message's date on the wall clock,
/// if it has one.
pub fn detail_row(
    m: &MsgMeta,
    local: Option<LocalTime>,
    today: LocalTime,
    at: Timestamp,
) -> (r: Vec<Span>)
    ensures
        views(r@) == detail_spans(m@, local, today, at),
{
    let date = match local {
        Some(d) => fmt_date(d, today),
        None => "          ".to_owned(),
    };
    let is_new = match m.date {
        Some(d) => is_recent_at(d, at),
        None => false,
    };
    let date_style = if is_new {
        Style::bold_fg(Color::DarkGray)
    } else {
        Style::fg(Color::DarkGray)
    };
    let dot = if m.unread {
        "●"
    } else {
        " "
    };
    let style = if m.unread {
        Style { fg: None, bg: None, bold: true }
    } else {
        Style::fg(Color::Gray)
    };
    let mut spans: Vec<Span> = Vec::new();
    push_span(&mut spans, date, date_style);
    push_raw(&mut spans, " ");
    push_span(&mut spans, dot.to_owned(), Style::fg(Color::Cyan));
    push_raw(&mut spans, " ");
    push_span(&mut spans, m.subject.clone(), style);
    assert(views(spans@) =~= detail_spans(m@, local, today, at));
    spans
}

// ---------------------------------------------------------------------------
// the alert
// ---------------------------------------------------------------------------

/// The frames of the braille spinner, one per event-loop tick while busy.
pub open spec fn spinner_text(tick: usize) -> Seq<char> {
    match tick % 10 {
        0 => "⠋"@,
        1 => "⠙"@,
        2 => "⠹"@,
        3 => "⠸"@,
        4 => "⠼"@,
        5 => "⠴"@,
        6 => "⠦"@,
        7 => "⠧"@,
        8 => "⠇"@,
        _ => "⠏"@,
    }
}

/// The spinner's frame at a tick.
pub fn spinner_frame(tick: usize) -> (r: &'static str)
    ensures
        r@ == spinner_text(tick),
{
    match tick % 10 {
        0 => "⠋",
        1 => "⠙",
        2 => "⠹",
        3 => "⠸",
        4 => "⠼",
        5 => "⠴",
        6 => "⠦",
        7 => "⠧",
        8 => "⠇",
        _ => "⠏",
    }
}

/// The spinner never rests: the frame of a tick is not that of the next one.
pub proof fn the_spinner_always_moves(tick: usize)
    requires
        tick < usize::MAX,
    ensures
        spinner_text(tick) != spinner_text((tick + 1) as usize),
{
    reveal_strlit("⠋");
    reveal_strlit("⠙");
    reveal_strlit("⠹");
    reveal_strlit("⠸");
    reveal_strlit("⠼");
    reveal_strlit("⠴");
    reveal_strlit("⠦");
    reveal_strlit("⠧");
    reveal_strlit("⠇");
    reveal_strlit("⠏");
    assert(spinner_text(tick)[0] != spinner_text((tick + 1) as usize)[0]);
}

/// The alert's frame: 60 columns because the first sweep draws it over a blank
/// screen, where a smaller box reads as a crash rather than as progress, and
/// six rows for a border, a headline, a bar and a hint.
pub const ALERT_W: u16 = 60;

pub const ALERT_H: u16 = 6;

/// What the alert's three states have in common — the same box, filled in.
pub struct AlertView {
    /// names the state; takes `colour` along with the border
    pub title: &'static str,
    pub colour: Color,
    pub headline: String,
    /// The state is one the user is waiting on, so the headline is spun. This
    /// is not `bar.is_some()`: a sweep that has not reported its first chunk
    /// yet has nothing to fill a bar with, and that is exactly the moment — an
    /// alert alone on a blank screen — that has to read as progress rather
    /// than as a crash.
    pub spins: bool,
    /// `(done, of)` when there is progress to show. It rides *alongside* the
    /// spinner rather than replacing it: the bar carries progress, the spinner
    /// carries liveness, and a bar that has not moved in two seconds is
    /// ambiguous where a stopped spinner is not.
    pub bar: Option<(usize, usize)>,
    /// the keys that work right now, and only those
    pub hint: &'static str,
}

/// The value of an `AlertView`.
pub struct AlertViewV {
    pub title: Seq<char>,
    pub colour: Color,
    pub headline: Seq<char>,
    pub spins: bool,
    pub bar: Option<(usize, usize)>,
    pub hint: Seq<char>,
}

impl View for AlertView {
    type V = AlertViewV;

    open spec fn view(&self) -> AlertViewV {
        AlertViewV {
            title: self.title@,
            colour: self.colour,
            headline: self.headline@,
            spins: self.spins,
            bar: self.bar,
            hint: self.hint@,
        }
    }
}

/// "3,000 of 5,000 · 41 stacks"
pub open spec fn progress_text(p: SweepProgress) -> Seq<char> {
    grouped(p.swept as nat) + " of "@ + grouped(p.bound as nat) + " · "@ + decimal(
        p.stacks as nat,
    ) + " stacks"@
}

/// What is in the one centered slot, or nothing.
pub open spec fn alert_shown(app: AppV) -> Option<AlertViewV> {
    match app.mode {
        ModeV::Confirm(action) => Some(
            AlertViewV {
                title: " confirm "@,
                colour: Color::Yellow,
                headline: action.question(app.acct().stacks, app.reach.beyond.len()),
                // the app is waiting on the user here, not the other way round
                spins: false,
                bar: None,
                hint: "y yes · n no"@,
            },
        ),
        _ => match app.alert {
            Some(AlertV::Sweeping { starting, progress }) => Some(
                AlertViewV {
                    title: " sweeping "@,
                    colour: Color::Cyan,
                    headline: match progress {
                        Some(p) => progress_text(p),
                        None => starting,
                    },
                    spins: true,
                    bar: match progress {
                        Some(p) => Some((p.swept, p.bound)),
                        None => None,
                    },
                    hint: "q quit"@,
                },
            ),
            Some(AlertV::Failed(headline)) => Some(
                AlertViewV {
                    title: " sweep failed "@,
                    colour: Color::Red,
                    headline,
                    spins: false,
                    bar: None,
                    hint: "m retry · any key to continue"@,
                },
            ),
            None => None,
        },
    }
}

fn progress_line(p: SweepProgress) -> (r: String)
    ensures
        r@ == progress_text(p),
{
    let mut out = commas(p.swept);
    let bound = commas(p.bound);
    let stacks = number(p.stacks);
    out.append(" of ");
    out.append(bound.as_str());
    out.append(" · ");
    out.append(stacks.as_str());
    out.append(" stacks");
    out
}

/// What is in the one centered slot, or nothing. The confirm's copy lives in
/// `Mode::Confirm` rather than in `Alert`, so the two are merged here; they
/// cannot both be up, because a sweep refuses the keys that open a confirm.
pub fn alert_view(app: &App) -> (r: Option<AlertView>)
    requires
        app@.wf(),
        app@.targets_valid(),
    ensures
        match r {
            Some(a) => alert_shown(app@) == Some(a@),
            None => alert_shown(app@) is None,
        },
{
    if let Mode::Confirm(action) = &app.mode {
        return Some(
            AlertView {
                title: " confirm ",
                colour: Color::Yellow,
                headline: action.prompt_for(app.account(), app.reach.beyond.len()),
                spins: false,
                bar: None,
                hint: "y yes · n no",
            },
        );
    }
    match &app.alert {
        Some(Alert::Sweeping { starting, progress }) => Some(
            AlertView {
                title: " sweeping ",
                colour: Color::Cyan,
                headline: match progress {
                    Some(p) => progress_line(*p),
                    None => starting.clone(),
                },
                spins: true,
                bar: match progress {
                    Some(p) => Some((p.swept, p.bound)),
                    None => None,
                },
                hint: "q quit",
            },
        ),
        Some(Alert::Failed(headline)) => Some(
            AlertView {
                title: " sweep failed ",
                colour: Color::Red,
                headline: headline.clone(),
                spins: false,
                bar: None,
                hint: "m retry · any key to continue",
            },
        ),
        None => None,
    }
}

/// The alert's headline in `width` columns. The spinner costs two of them.
pub open spec fn headline_text(alert: AlertViewV, tick: usize, width: nat) -> Seq<char> {
    if alert.spins {
        spinner_text(tick) + " "@ + cut_to(
            alert.headline,
            (if width >= 2 {
                width - 2
            } else {
                0
            }) as nat,
        )
    } else {
        cut_to(alert.headline, width)
    }
}

/// The alert's headline in `width` columns.
pub fn alert_headline(alert: &AlertView, tick: usize, width: usize) -> (r: String)
    ensures
        r@ == headline_text(alert@, tick, width as nat),
{
    if alert.spins {
        let text = truncate(alert.headline.as_str(), width.saturating_sub(2));
        let mut out = spinner_frame(tick).to_owned();
        out.append(" ");
        out.append(text.as_str());
        out
    } else {
        truncate(alert.headline.as_str(), width)
    }
}

/// Where the alert's parts go.
#[derive(Debug, Clone, Copy, PartialEq, Eq, Structural)]
pub struct AlertLayout {
    pub frame: Rect,
    pub headline: Rect,
    pub bar: Rect,
    pub hint: Rect,
}

/// The alert's `k`th row inside its frame.
pub open spec fn alert_row(frame: Rect, k: int) -> Rect {
    Rect {
        x: (frame.x + 2) as u16,
        y: (frame.y + 1 + k) as u16,
        width: (frame.width - 4) as u16,
        height: 1,
    }
}

/// Where the alert's parts go: headline, blank, bar, hint — the blank and the
/// bar row hold their places in the states that have no bar, so the box is one
/// shape in every state.
pub fn alert_layout(area: Rect) -> (r: AlertLayout)
    requires
        area.wf(),
        area.width >= ALERT_W,
        area.height >= ALERT_H,
    ensures
        r.frame == middle(area, ALERT_W, ALERT_H),
        r.headline == alert_row(r.frame, 0),
        r.bar == alert_row(r.frame, 2),
        r.hint == alert_row(r.frame, 3),
{
    let frame = centered(area, ALERT_W, ALERT_H);
    let (x, y): (u16, u16) = (frame.x + 2, frame.y + 1);
    let width: u16 = frame.width - 4;
    AlertLayout {
        frame,
        headline: Rect { x, y, width, height: 1 },
        bar: Rect { x, y: y + 2, width, height: 1 },
        hint: Rect { x, y: y + 3, width, height: 1 },
    }
}

/// The foreground that everything behind the alert is repainted with, if it
/// is. Overwriting rather than dimming, because terminals are free to ignore
/// that. Without colour the box's border carries the whole job of separating
/// the alert from the app behind it — which is the reason the box is large.
pub fn behind_alert(no_color: bool) -> (r: Option<Color>)
    ensures
        r == (if no_color {
            None
        } else {
            Some(Color::DarkGray)
        }),
{
    if no_color {
        None
    } else {
        Some(Color::DarkGray)
    }
}

/// A colour of the alert, where there are colours.
pub fn alert_colour(no_color: bool, colour: Color) -> (r: Color)
    ensures
        r == (if no_color {
            Color::Reset
        } else {
            colour
        }),
{
    if no_color {
        Color::Reset
    } else {
        colour
    }
}

/// What lies over the panes.
#[derive(Debug, Clone, Copy, PartialEq, Eq, Structural)]
pub enum Overlay {
    Nothing,
    Alert,
    Help,
}

/// What lies over the panes. The alert owns the screen while it is up, so
/// nothing else overlays with it — a sweep refuses `?`, and a confirm is
/// answered before anything else.
pub fn overlay(app: &App) -> (r: Overlay)
    ensures
        r == (if alert_shown(app@) is Some {
            Overlay::Alert
        } else if app@.mode is Help {
            Overlay::Help
        } else {
            Overlay::Nothing
        }),
{
    match &app.mode {
        Mode::Confirm(_) => Overlay::Alert,
        Mode::Help => if app.alert.is_some() {
            Overlay::Alert
        } else {
            Overlay::Help
        },
        _ => if app.alert.is_some() {
            Overlay::Alert
        } else {
            Overlay::Nothing
        },
    }
}

// ---------------------------------------------------------------------------
// the status row and the hints
// ---------------------------------------------------------------------------

/// The status row's text.
pub open spec fn status_line(app: AppV, alert_up: bool) -> Seq<SpanV> {
    match app.mode {
        ModeV::Filter => seq![
            span("filter: "@ + app.filter + "▏"@, fg_style(Color::Cyan)),
        ],
        // An in-flight action is the one wait the alert does not cover.
        // Without the spinner the row would say "trashing 400 messages…" with
        // nothing on screen moving behind it.
        _ => (if app.busy && !alert_up {
            seq![span(spinner_text(app.spinner) + " "@, bold_style(Color::Cyan))]
        } else {
            Seq::empty()
        }) + seq![span(app.status, fg_style(Color::Gray))],
    }
}

/// The status row's text.
pub fn status_spans(app: &App, alert_up: bool) -> (r: Vec<Span>)
    ensures
        views(r@) == status_line(app@, alert_up),
{
    let mut spans: Vec<Span> = Vec::new();
    match &app.mode {
        Mode::Filter => {
            let mut text = "filter: ".to_owned();
            text.append(app.filter.as_str());
            text.append("▏");
            push_span(&mut spans, text, Style::fg(Color::Cyan));
        },
        _ => {
            if app.busy && !alert_up {
                let mut text = spinner_frame(app.spinner).to_owned();
                text.append(" ");
                push_span(&mut spans, text, Style::bold_fg(Color::Cyan));
            }
            push_span(&mut spans, app.status.clone(), Style::fg(Color::Gray));
        },
    }
    assert(views(spans@) =~= status_line(app@, alert_up));
    spans
}

/// The keys that change the view. Group before sort: it is the coarser
/// control, so it is the one worth keeping when a narrow terminal drops the
/// tail.
pub open spec fn view_keys() -> Seq<(Seq<char>, Seq<char>)> {
    seq![("m"@, "more"@), ("g"@, "group"@), ("s"@, "sort"@), ("Tab"@, "acct"@)]
}

/// The keys that change what happens to mail.
pub open spec fn action_keys() -> Seq<(Seq<char>, Seq<char>)> {
    seq![
        ("j/k"@, "move"@),
        ("Space"@, "mark"@),
        ("d"@, "trash"@),
        ("e"@, "archive"@),
        ("r"@, "read"@),
        ("u"@, "unsub"@),
        ("/"@, "filter"@),
    ]
}

/// The way to every other key.
pub open spec fn help_key() -> Seq<(Seq<char>, Seq<char>)> {
    seq![("?"@, "keys"@)]
}

/// The view keys in so many columns at the right end of the status row, and
/// where they go: with the state they change, and only in a list that takes
/// them.
pub open spec fn keys_in_room(app: AppV, area: Rect, alert_up: bool, room: nat) -> Option<
    (Rect, Seq<SpanV>),
> {
    let hints = hints_shown(view_keys(), room);
    if !(app.mode is Normal) || app.loading || alert_up || hints.len() == 0 {
        None
    } else {
        Some((right_end(area, line_text(hints).len() as int), hints))
    }
}

/// The view keys at the right end of the status row: in what the status leaves
/// of it.
pub open spec fn status_keys(app: AppV, area: Rect, alert_up: bool) -> Option<
    (Rect, Seq<SpanV>),
> {
    let room = room_behind(status_line(app, alert_up), area.width as int);
    keys_in_room(app, area, alert_up, room as nat)
}

fn view_key_hints() -> (r: Vec<(&'static str, &'static str)>)
    ensures
        hint_texts(r@) == view_keys(),
        forall|i: int|
            0 <= i < r@.len() ==> (#[trigger] r@[i]).0@.len() + r@[i].1@.len() + 3 <= usize::MAX,
{
    let mut keys: Vec<(&'static str, &'static str)> = Vec::new();
    keys.push(("m", "more"));
    keys.push(("g", "group"));
    keys.push(("s", "sort"));
    keys.push(("Tab", "acct"));
    proof {
        reveal_strlit("m");
        reveal_strlit("more");
        reveal_strlit("g");
        reveal_strlit("group");
        reveal_strlit("s");
        reveal_strlit("sort");
        reveal_strlit("Tab");
        reveal_strlit("acct");
    }
    assert(hint_texts(keys@) =~= view_keys());
    keys
}

fn action_key_hints() -> (r: Vec<(&'static str, &'static str)>)
    ensures
        hint_texts(r@) == action_keys(),
        forall|i: int|
            0 <= i < r@.len() ==> (#[trigger] r@[i]).0@.len() + r@[i].1@.len() + 3 <= usize::MAX,
{
    let mut keys: Vec<(&'static str, &'static str)> = Vec::new();
    keys.push(("j/k", "move"));
    keys.push(("Space", "mark"));
    keys.push(("d", "trash"));
    keys.push(("e", "archive"));
    keys.push(("r", "read"));
    keys.push(("u", "unsub"));
    keys.push(("/", "filter"));
    proof {
        reveal_strlit("j/k");
        reveal_strlit("move");
        reveal_strlit("Space");
        reveal_strlit("mark");
        reveal_strlit("d");
        reveal_strlit("trash");
        reveal_strlit("e");
        reveal_strlit("archive");
        reveal_strlit("r");
        reveal_strlit("read");
        reveal_strlit("u");
        reveal_strlit("unsub");
        reveal_strlit("/");
        reveal_strlit("filter");
    }
    assert(hint_texts(keys@) =~= action_keys());
    keys
}

fn help_key_hint() -> (r: Vec<(&'static str, &'static str)>)
    ensures
        hint_texts(r@) == help_key(),
        r@.len() == 1,
        r@[0].0@.len() + r@[0].1@.len() + 3 == 8,
{
    let mut keys: Vec<(&'static str, &'static str)> = Vec::new();
    keys.push(("?", "keys"));
    proof {
        reveal_strlit("?");
        reveal_strlit("keys");
    }
    assert(hint_texts(keys@) =~= help_key());
    keys
}

/// The view keys in `free` columns at the right end of the status row, and
/// where they go.
pub fn place_hints(app: &App, area: Rect, alert_up: bool, free: usize) -> (r: Option<
    (Rect, Vec<Span>),
>)
    requires
        area.wf(),
        free <= area.width,
    ensures
        match r {
            Some((rect, spans)) => keys_in_room(app@, area, alert_up, free as nat) == Some(
                (rect, views(spans@)),
            ),
            None => keys_in_room(app@, area, alert_up, free as nat) is None,
        },
{
    match app.mode {
        Mode::Normal => {},
        _ => return None,
    }
    // an alert refuses all four, and its hint line names the ones that do
    // respond — offering them here would be the UI saying two things
    if app.loading || alert_up {
        return None;
    }
    let spans = hint_spans(view_key_hints().as_slice(), free);
    if spans.len() == 0 {
        return None;
    }
    let text = text_of(spans.as_slice());
    let width: usize = text.as_str().unicode_len();
    proof {
        hints_are_dropped_whole(view_keys(), free as nat);
    }
    Some((at_right_end(area, width), spans))
}

/// The view keys at the right end of the status row, and where they go.
pub fn status_hints(app: &App, area: Rect, alert_up: bool) -> (r: Option<(Rect, Vec<Span>)>)
    requires
        area.wf(),
    ensures
        match r {
            Some((rect, spans)) => status_keys(app@, area, alert_up) == Some((rect, views(spans@))),
            None => status_keys(app@, area, alert_up) is None,
        },
{
    let line = status_spans(app, alert_up);
    let free: usize = free_columns(line.as_slice(), area.width as usize);
    place_hints(app, area, alert_up, free)
}

/// The footer: the keys that change what happens to mail. The tail is reserved
/// for `? keys`: whatever else gets dropped, the way to find it back must not
/// be. A sweep refuses every one of these, and so does an alert of any kind,
/// so the row goes blank for its length rather than offer keys that do
/// nothing.
pub open spec fn footer(app: AppV, width: nat, alert_up: bool) -> Option<Seq<SpanV>> {
    if app.loading || alert_up {
        None
    } else {
        let budget = if width >= 9 {
            (width - 9) as nat
        } else {
            0
        };
        Some(
            seq![raw(" "@)] + hints_shown(action_keys(), budget) + seq![raw("  "@)] + hints_shown(
                help_key(),
                usize::MAX as nat,
            ),
        )
    }
}

/// The footer, in `width` columns.
pub fn help_spans(app: &App, width: usize, alert_up: bool) -> (r: Option<Vec<Span>>)
    ensures
        match r {
            Some(spans) => footer(app@, width as nat, alert_up) == Some(views(spans@)),
            None => footer(app@, width as nat, alert_up) is None,
        },
{
    if app.loading || alert_up {
        return None;
    }
    let help = help_key_hint();
    let mut spans: Vec<Span> = Vec::new();
    push_raw(&mut spans, " ");
    let budget: usize = width.saturating_sub(1 + hint_width(help[0]));
    let mut actions = hint_spans(action_key_hints().as_slice(), budget);
    let mut way_back = hint_spans(help.as_slice(), usize::MAX);
    let ghost (a, b) = (actions@, way_back@);
    let ghost s0 = spans@;
    spans.append(&mut actions);
    assert(views(spans@) =~= views(s0) + views(a));
    push_raw(&mut spans, "  ");
    let ghost s1 = spans@;
    spans.append(&mut way_back);
    assert(views(spans@) =~= views(s1) + views(b));
    assert(Some(views(spans@)) == footer(app@, width as nat, alert_up)) by {
        assert(views(spans@) =~= footer(app@, width as nat, alert_up)->0);
    }
    Some(spans)
}

// ---------------------------------------------------------------------------
// the help overlay
// ---------------------------------------------------------------------------

/// A line of the help overlay.
pub enum HelpRow {
    Blank,
    Section(&'static str),
    Binding(&'static str, &'static str),
}

/// The value of a `HelpRow`.
pub enum HelpRowV {
    Blank,
    Section(Seq<char>),
    Binding(Seq<char>, Seq<char>),
}

impl View for HelpRow {
    type V = HelpRowV;

    open spec fn view(&self) -> HelpRowV {
        match self {
            HelpRow::Blank => HelpRowV::Blank,
            HelpRow::Section(t) => HelpRowV::Section(t@),
            HelpRow::Binding(k, d) => HelpRowV::Binding(k@, d@),
        }
    }
}

/// Every binding, grouped.
pub open spec fn help_text() -> Seq<HelpRowV> {
    seq![
        HelpRowV::Section("move"@),
        HelpRowV::Binding("j / k, ↓ / ↑"@, "next / previous"@),
        HelpRowV::Binding("Home / End"@, "top / bottom (G = End)"@),
        HelpRowV::Binding("Esc"@, "clear marks, else clear filter"@),
        HelpRowV::Binding("Tab"@, "next account"@),
        HelpRowV::Blank,
        HelpRowV::Section("select"@),
        HelpRowV::Binding("Space"@, "mark stack, advance"@),
        HelpRowV::Binding("a"@, "mark / unmark everything in view"@),
        HelpRowV::Blank,
        HelpRowV::Section("act on selection"@),
        HelpRowV::Binding("d"@, "trash"@),
        HelpRowV::Binding("e"@, "archive"@),
        HelpRowV::Binding("r"@, "mark read"@),
        HelpRowV::Binding("u"@, "unsubscribe"@),
        HelpRowV::Blank,
        HelpRowV::Section("view"@),
        HelpRowV::Binding("m"@, "sweep 5,000 more messages"@),
        HelpRowV::Binding("g"@, "group by sender / subject"@),
        HelpRowV::Binding("s"@, "re-sort everything loaded"@),
        HelpRowV::Binding("/"@, "filter"@),
        HelpRowV::Binding("R"@, "reload from scratch"@),
        HelpRowV::Binding("q"@, "quit"@),
    ]
}

fn push_help(rows: &mut Vec<HelpRow>, row: HelpRow)
    ensures
        views(final(rows)@) == views(old(rows)@).push(row@),
{
    let ghost had = rows@;
    let ghost v = row@;
    rows.push(row);
    assert(views(rows@) =~= views(had).push(v));
}

/// Every binding, grouped.
pub fn help_rows() -> (r: Vec<HelpRow>)
    ensures
        views(r@) == help_text(),
{
    let mut rows: Vec<HelpRow> = Vec::new();
    push_help(&mut rows, HelpRow::Section("move"));
    push_help(&mut rows, HelpRow::Binding("j / k, ↓ / ↑", "next / previous"));
    push_help(&mut rows, HelpRow::Binding("Home / End", "top / bottom (G = End)"));
    push_help(&mut rows, HelpRow::Binding("Esc", "clear marks, else clear filter"));
    push_help(&mut rows, HelpRow::Binding("Tab", "next account"));
    push_help(&mut rows, HelpRow::Blank);
    push_help(&mut rows, HelpRow::Section("select"));
    push_help(&mut rows, HelpRow::Binding("Space", "mark stack, advance"));
    push_help(&mut rows, HelpRow::Binding("a", "mark / unmark everything in view"));
    push_help(&mut rows, HelpRow::Blank);
    push_help(&mut rows, HelpRow::Section("act on selection"));
    push_help(&mut rows, HelpRow::Binding("d", "trash"));
    push_help(&mut rows, HelpRow::Binding("e", "archive"));
    push_help(&mut rows, HelpRow::Binding("r", "mark read"));
    push_help(&mut rows, HelpRow::Binding("u", "unsubscribe"));
    push_help(&mut rows, HelpRow::Blank);
    push_help(&mut rows, HelpRow::Section("view"));
    push_help(&mut rows, HelpRow::Binding("m", "sweep 5,000 more messages"));
    push_help(&mut rows, HelpRow::Binding("g", "group by sender / subject"));
    push_help(&mut rows, HelpRow::Binding("s", "re-sort everything loaded"));
    push_help(&mut rows, HelpRow::Binding("/", "filter"));
    push_help(&mut rows, HelpRow::Binding("R", "reload from scratch"));
    push_help(&mut rows, HelpRow::Binding("q", "quit"));
    assert(views(rows@) =~= help_text());
    rows
}

/// A line of the help overlay as it is shown.
pub open spec fn help_line(row: HelpRowV) -> Seq<SpanV> {
    match row {
        HelpRowV::Blank => Seq::empty(),
        HelpRowV::Section(t) => seq![span(" "@ + t, bold_style(Color::Yellow))],
        HelpRowV::Binding(k, d) => seq![
            span(" "@ + right_aligned(k, 14) + "  "@, fg_style(Color::Cyan)),
            span(d, fg_style(Color::Gray)),
        ],
    }
}

/// A line of the help overlay as it is shown.
pub fn help_row(row: &HelpRow) -> (r: Vec<Span>)
    ensures
        views(r@) == help_line(row@),
{
    let mut spans: Vec<Span> = Vec::new();
    match row {
        HelpRow::Blank => {},
        HelpRow::Section(t) => {
            let mut text = " ".to_owned();
            text.append(*t);
            push_span(&mut spans, text, Style::bold_fg(Color::Yellow));
        },
        HelpRow::Binding(k, d) => {
            let key = right_align(*k, 14);
            let mut text = " ".to_owned();
            text.append(key.as_str());
            text.append("  ");
            push_span(&mut spans, text, Style::fg(Color::Cyan));
            push_span(&mut spans, (*d).to_owned(), Style::fg(Color::Gray));
        },
    }
    assert(views(spans@) =~= help_line(row@));
    spans
}

pub const HELP_TITLE: &'static str = " keys · any key to close ";

pub const HELP_W: u16 = 54;

/// Where the help overlay goes, for so many lines.
pub fn help_popup(area: Rect, lines: u16) -> (r: Rect)
    requires
        area.wf(),
        lines + 2 <= u16::MAX,
    ensures
        r == middle(area, HELP_W, (lines + 2) as u16),
{
    centered(area, HELP_W, lines + 2)
}

// ---------------------------------------------------------------------------
// what the screen promises
// ---------------------------------------------------------------------------

/// While an alert is up or a sweep runs, neither row of hints offers a key.
pub proof fn an_alert_takes_the_hints_down(app: AppV, area: Rect, width: nat)
    ensures
        status_keys(app, area, true) is None,
        footer(app, width, true) is None,
        app.loading ==> status_keys(app, area, false) is None && footer(app, width, false) is None,
{
}

/// The alert's box is the same in every state: its size and its place depend
/// on the screen alone, and on any screen large enough for the panes it is
/// sixty by six.
pub proof fn the_alert_keeps_one_frame(area: Rect)
    requires
        area.wf(),
        area.width >= MIN_WIDTH,
        area.height >= MIN_HEIGHT,
    ensures
        middle(area, ALERT_W, ALERT_H).inside(area),
        middle(area, ALERT_W, ALERT_H).width == ALERT_W,
        middle(area, ALERT_W, ALERT_H).height == ALERT_H,
{
}

/// The alert spins exactly while the user is waiting for it, and only then
/// can it have a bar.
pub proof fn the_alert_spins_while_the_user_waits(app: AppV)
    ensures
        alert_shown(app) matches Some(a) ==> {
            &&& a.spins <==> !(app.mode is Confirm) && app.alert is Some && app.alert->0 is Sweeping
            &&& a.bar is Some ==> a.spins
        },
        alert_shown(app) is None <==> !(app.mode is Confirm) && app.alert is None,
{
}

/// Counters take no more columns than they are given, and there are none
/// while there is nothing to count.
pub proof fn counters_fit(s: StatsV, max: nat)
    ensures
        counters_text(s, max) matches Some(t) ==> t.len() <= max,
        s.trashed + s.archived + s.marked_read + s.unsubscribed == 0 ==> counters_text(
            s,
            max,
        ) is None,
{
}

proof fn lemma_line_add(a: Seq<SpanV>, b: Seq<SpanV>)
    ensures
        line_text(a + b) == line_text(a) + line_text(b),
    decreases b.len(),
{
    if b.len() == 0 {
        assert(a + b =~= a);
        assert(line_text(a) + line_text(b) =~= line_text(a));
    } else {
        assert((a + b).drop_last() =~= a + b.drop_last());
        lemma_line_add(a, b.drop_last());
        assert(line_text(a + b) =~= line_text(a) + line_text(b));
    }
}

proof fn lemma_line_one(s: SpanV)
    ensures
        line_text(seq![s]) == s.text,
{
    assert(seq![s].drop_last() =~= Seq::<SpanV>::empty());
    assert(seq![s].last() == s);
    reveal_with_fuel(line_text, 2);
    assert(line_text(seq![s]) =~= s.text);
}

/// The footer never overflows its row, and always ends with the way to the
/// help.
pub proof fn the_footer_fits_and_keeps_the_help(app: AppV, width: nat)
    requires
        width >= 9,
    ensures
        footer(app, width, false) matches Some(spans) ==> {
            &&& line_text(spans).len() <= width
            &&& exists|rest: Seq<char>| line_text(spans) == #[trigger] (rest + "? keys"@)
        },
{
    if !app.loading {
        let budget = (width - 9) as nat;
        let actions = hints_shown(action_keys(), budget);
        let help = hints_shown(help_key(), usize::MAX as nat);
        let lead = seq![raw(" "@)];
        let gap = seq![raw("  "@)];
        reveal_strlit(" ");
        reveal_strlit("  ");
        reveal_strlit("?");
        reveal_strlit("keys");
        reveal_strlit("? keys");
        hints_are_dropped_whole(action_keys(), budget);
        lemma_help_line();
        lemma_line_add(lead, actions);
        lemma_line_add(lead + actions, gap);
        lemma_line_add(lead + actions + gap, help);
        lemma_line_one(raw(" "@));
        lemma_line_one(raw("  "@));
        let rest = line_text(lead + actions + gap);
        assert(line_text(footer(app, width, false)->0) == rest + "? keys"@);
    }
}

proof fn lemma_help_line()
    ensures
        line_text(hints_shown(help_key(), usize::MAX as nat)) == "? keys"@,
{
    let hints = help_key();
    let max = usize::MAX as nat;
    reveal_strlit(" ");
    reveal_strlit("?");
    reveal_strlit("keys");
    reveal_strlit("? keys");
    assert(hints.drop_last() =~= Seq::<(Seq<char>, Seq<char>)>::empty());
    assert(hints.take(1) =~= hints);
    reveal_with_fuel(hints_cost, 2);
    reveal_with_fuel(hints_fitting, 2);
    reveal_with_fuel(hint_line, 2);
    assert(hints_fitting(hints, max) == 1);
    let a = span("?"@, fg_style(Color::Cyan));
    let b = raw(" "@);
    let c = span("keys"@, fg_style(Color::DarkGray));
    let shown = hints_shown(hints, max);
    assert(shown =~= seq![a] + seq![b] + seq![c]);
    lemma_line_add(seq![a], seq![b]);
    lemma_line_add(seq![a] + seq![b], seq![c]);
    lemma_line_one(a);
    lemma_line_one(b);
    lemma_line_one(c);
    assert(line_text(shown) =~= "? keys"@);
}

proof fn lemma_line_push(s: Seq<SpanV>, x: SpanV)
    ensures
        line_text(s.push(x)).len() == line_text(s).len() + x.text.len(),
{
    assert(s.push(x).drop_last() =~= s);
}

/// A row fits its pane: wherever there is a column left for the name, and the
/// count has no more than its four, the row takes no more columns than the
/// pane has.
pub proof fn a_row_fits_its_pane(a: AccountV, s: StackV, inner: nat)
    requires
        inner > FIXED + unread_text(s.unread_count).len(),
        count_text(s.msgs.len(), is_partial(a, s)).len() <= 4,
        0 <= s.rate() <= 100,
    ensures
        line_text(row_spans(a, s, inner)).len() <= inner,
{
    reveal_strlit("▌");
    reveal_strlit(" ");
    reveal_strlit("%");
    reveal_strlit("U");
    reveal_strlit(" · ");
    let r = row_spans(a, s, inner);
    let e = Seq::<SpanV>::empty();
    let l1 = e.push(r[0]);
    let l2 = l1.push(r[1]);
    let l3 = l2.push(r[2]);
    let l4 = l3.push(r[3]);
    let l5 = l4.push(r[4]);
    let l6 = l5.push(r[5]);
    let l7 = l6.push(r[6]);
    let l8 = l7.push(r[7]);
    lemma_line_push(e, r[0]);
    lemma_line_push(l1, r[1]);
    lemma_line_push(l2, r[2]);
    lemma_line_push(l3, r[3]);
    lemma_line_push(l4, r[4]);
    lemma_line_push(l5, r[5]);
    lemma_line_push(l6, r[6]);
    lemma_line_push(l7, r[7]);
    lemma_rate_len(s.rate() as nat);
    assert(r[3].text.len() == 4);
    assert(line_text(l8).len() <= FIXED + name_room(inner, s.unread_count));
    let part = subject_part(s, inner);
    if part.len() > 0 {
        let l9 = l8.push(r[8]);
        lemma_line_push(l8, r[8]);
        lemma_line_push(l9, r[9]);
        assert(r =~= l9.push(r[9]));
    } else {
        lemma_line_push(l8, r[8]);
        assert(r =~= l8.push(r[8]));
    }
}

proof fn lemma_rate_len(n: nat)
    requires
        n <= 100,
    ensures
        1 <= decimal(n).len() <= 3,
{
    reveal_with_fuel(decimal, 4);
}

} // verus!
