//! What the screen shows, in terms of what it shows it of.
use crate::clock::Timestamp;
use crate::imap_client::SweepProgress;
use crate::stacks::{all_messages, MsgV, StackV};
use crate::text::{
    a_number_is_read_back, begins, decimal, grouped, joined, lowercase, number_read, occurs,
    repeated, right_aligned,
    to_begin_is_to_go_on, to_occur_is_to_stand_somewhere,
};
use crate::ui::account::AccountV;
use crate::ui::app::{AlertV, AppV, ModeV, StatsV};
use crate::ui::jobs::stack_method;
use crate::ui::view::{
    alert_shown, counters, counters_text, detail_spans, detail_title_text, empty_text, extent_text,
    filter_titles, headline_text, help_text, is_partial, list_titles, marked_text, name_room,
    narrow_title, progress_text, recent, row_room, row_spans, spinner_text, stacks_label,
    state_label, status_line, subject_part, tab_totals, tabs, title_text, unread_text, wide_title,
    HelpRowV,
};
use crate::ui::widgets::{
    bar_filled, bar_text, columns, cut_to, date_text, fitting, hint_cost, hint_line, line_columns,
    line_text, middle, right_end, room_behind, the_chosen_candidate_fits_if_any_does, year_text,
    zero_padded, Color, LocalTime, Rect, SpanV,
};
use vstd::prelude::*;
use vstd::utf8::is_ascii_chars;

verus! {

// ---------------------------------------------------------------------------
// fitting
// ---------------------------------------------------------------------------

/// A text that does not fit keeps its beginning and ends in an ellipsis, as
/// wide as there is room.
pub proof fn a_cut_text_keeps_its_beginning(s: Seq<char>, max: nat)
    requires
        max > 0,
    ensures
        s.len() <= max ==> cut_to(s, max) == s,
        s.len() > max ==> {
            let r = cut_to(s, max);
            &&& r.len() == max
            &&& r.take(max - 1) == s.take(max - 1)
            &&& r.last() == '…'
        },
{
    if s.len() > max {
        assert(cut_to(s, max).take(max - 1) =~= s.take(max - 1));
    }
}

/// The first candidate that fits is shown; where none does, the last.
pub proof fn the_first_that_fits_is_shown(candidates: Seq<Seq<char>>, width: nat, i: int)
    requires
        0 <= i < candidates.len(),
        forall|j: int| 0 <= j < i ==> (#[trigger] candidates[j]).len() > width,
        candidates[i].len() <= width || i == candidates.len() - 1,
    ensures
        fitting(candidates, width) == candidates[i],
    decreases i,
{
    if i > 0 {
        assert(candidates[0].len() > width);
        let rest = candidates.skip(1);
        assert forall|j: int| 0 <= j < i - 1 implies (#[trigger] rest[j]).len() > width by {
            assert(rest[j] == candidates[j + 1]);
        }
        the_first_that_fits_is_shown(rest, width, i - 1);
    }
}

/// A bar is filled by the share that is done, rounded down, from the left.
pub proof fn a_bar_is_filled_by_its_share(done: nat, of: nat, width: nat)
    requires
        0 < of,
        done <= of,
    ensures
        ({
            let n = bar_filled(done, of, width);
            &&& 0 <= n <= width
            &&& n * of <= done * width < (n + 1) * of
            &&& bar_text(done, of, width).len() == width
            &&& forall|i: int|
                0 <= i < width ==> #[trigger] bar_text(done, of, width)[i] == (if i < n {
                    '█'
                } else {
                    '░'
                })
        }),
{
    let share = done * width / of;
    assert(0 <= share <= width && share * of <= done * width < (share + 1) * of)
        by (nonlinear_arith)
        requires
            share == done * width / of,
            0 < of,
            done <= of,
            0 <= width,
            0 <= done,
    ;
}

/// A centered box leaves as much on its left as on its right, and as much above
/// as below, give or take one.
pub proof fn a_centered_box_is_in_the_middle(area: Rect, w: u16, h: u16)
    requires
        area.wf(),
    ensures
        ({
            let r = middle(area, w, h);
            let (left, right) = (r.x - area.x, area.x + area.width - (r.x + r.width));
            let (above, below) = (r.y - area.y, area.y + area.height - (r.y + r.height));
            &&& 0 <= right - left <= 1
            &&& 0 <= below - above <= 1
            &&& left >= 0 && above >= 0
        }),
{
}

/// What stands at the right end of a row ends one column before the row does.
pub proof fn the_right_end_leaves_one_column(area: Rect, width: int)
    requires
        area.wf(),
        0 <= width < area.width,
    ensures
        ({
            let r = right_end(area, width);
            r.x + r.width + 1 == area.x + area.width && r.width == width && r.y == area.y
                && r.height == 1
        }),
{
}

/// The text of a line is the texts of its spans, one after the other.
pub proof fn a_line_is_its_spans(a: Seq<SpanV>, b: Seq<SpanV>, s: SpanV)
    ensures
        line_text(a + b) == line_text(a) + line_text(b),
        line_text(seq![s]) == s.text,
        line_text(Seq::empty()).len() == 0,
    decreases b.len(),
{
    let one = seq![s];
    assert(one.drop_last() =~= Seq::<SpanV>::empty());
    assert(one.last() == s);
    reveal_with_fuel(line_text, 2);
    assert(line_text(one) =~= s.text);
    if b.len() == 0 {
        assert(a + b =~= a);
        assert(line_text(a) + line_text(b) =~= line_text(a));
    } else {
        a_line_is_its_spans(a, b.drop_last(), s);
        assert((a + b).drop_last() =~= a + b.drop_last());
        assert(line_text(a + b) =~= line_text(a) + line_text(b));
    }
}

// ---------------------------------------------------------------------------
// dates
// ---------------------------------------------------------------------------

proof fn lemma_zeros_read(n: nat, zeros: nat)
    ensures
        number_read(repeated('0', zeros) + decimal(n)) == Some(n),
    decreases n,
{
    let d = decimal(n);
    let all = repeated('0', zeros) + d;
    a_number_is_read_back(n);
    if n < 10 {
        assert(d == seq![d[0]]);
        assert(all.drop_last() =~= repeated('0', zeros));
        assert(all.last() == d[0]);
        if zeros > 0 {
            lemma_only_zeros(zeros);
        } else {
            assert(all =~= d);
        }
    } else {
        lemma_zeros_read(n / 10, zeros);
        assert(d == decimal(n / 10).push(d.last()));
        assert(all.drop_last() =~= repeated('0', zeros) + decimal(n / 10));
        assert(all.last() == d.last());
        assert(d.drop_last() =~= decimal(n / 10));
        a_number_is_read_back(n / 10);
    }
}

proof fn lemma_only_zeros(zeros: nat)
    requires
        zeros > 0,
    ensures
        number_read(repeated('0', zeros)) == Some(0nat),
    decreases zeros,
{
    let s = repeated('0', zeros);
    assert(s.last() == '0');
    assert(s.drop_last() =~= repeated('0', (zeros - 1) as nat));
    if zeros > 1 {
        lemma_only_zeros((zeros - 1) as nat);
    }
}

/// A padded number is the number that was padded, in no fewer digits than
/// asked for.
pub proof fn a_padded_number_is_read_back(n: nat, w: nat)
    ensures
        number_read(zero_padded(n, w)) == Some(n),
        zero_padded(n, w).len() >= w,
        zero_padded(n, w).len() == w || zero_padded(n, w) == decimal(n),
{
    a_number_is_read_back(n);
    if decimal(n).len() < w {
        lemma_zeros_read(n, (w - decimal(n).len()) as nat);
    }
}

proof fn lemma_two_digits(n: nat)
    requires
        n < 100,
    ensures
        zero_padded(n, 2).len() == 2,
{
    reveal_with_fuel(decimal, 3);
}

proof fn lemma_four_digits(n: nat)
    requires
        n < 10_000,
    ensures
        zero_padded(n, 4).len() == 4,
{
    reveal_with_fuel(decimal, 5);
}

/// A message of today shows the hour and the minute, any other one the year,
/// the month and the day; either takes ten columns.
pub proof fn a_date_is_read_back(d: LocalTime, today: LocalTime)
    requires
        d.hour < 24,
        d.minute < 60,
        1 <= d.month <= 12,
        1 <= d.day <= 31,
        0 <= d.year <= 9999,
    ensures
        ({
            let t = date_text(d, today);
            let same = (d.year, d.month, d.day) == (today.year, today.month, today.day);
            &&& t.len() == 10
            &&& same ==> {
                &&& number_read(t.take(2)) == Some(d.hour as nat)
                &&& t[2] == ':'
                &&& number_read(t.subrange(3, 5)) == Some(d.minute as nat)
                &&& forall|i: int| 5 <= i < 10 ==> #[trigger] t[i] == ' '
            }
            &&& !same ==> {
                &&& number_read(t.take(4)) == Some(d.year as nat)
                &&& t[4] == '-' && t[7] == '-'
                &&& number_read(t.subrange(5, 7)) == Some(d.month as nat)
                &&& number_read(t.subrange(8, 10)) == Some(d.day as nat)
            }
        }),
{
    let t = date_text(d, today);
    a_padded_number_is_read_back(d.hour as nat, 2);
    a_padded_number_is_read_back(d.minute as nat, 2);
    a_padded_number_is_read_back(d.month as nat, 2);
    a_padded_number_is_read_back(d.day as nat, 2);
    a_padded_number_is_read_back(d.year as nat, 4);
    lemma_two_digits(d.hour as nat);
    lemma_two_digits(d.minute as nat);
    lemma_two_digits(d.month as nat);
    lemma_two_digits(d.day as nat);
    lemma_four_digits(d.year as nat);
    if (d.year, d.month, d.day) == (today.year, today.month, today.day) {
        reveal_strlit(":");
        reveal_strlit("     ");
        assert(t.take(2) =~= zero_padded(d.hour as nat, 2));
        assert(t.subrange(3, 5) =~= zero_padded(d.minute as nat, 2));
    } else {
        reveal_strlit("-");
        assert(year_text(d.year as int) == zero_padded(d.year as nat, 4));
        assert(t.take(4) =~= zero_padded(d.year as nat, 4));
        assert(t.subrange(5, 7) =~= zero_padded(d.month as nat, 2));
        assert(t.subrange(8, 10) =~= zero_padded(d.day as nat, 2));
    }
}

/// Mail is recent for thirty days, and mail from the future is.
pub proof fn mail_is_recent_for_thirty_days(d: Timestamp, at: Timestamp)
    ensures
        recent(d, at) <==> at.elapsed(d) < 30 * 86_400_000_000_000,
        at.elapsed(d) <= 0 ==> recent(d, at),
{
}

// ---------------------------------------------------------------------------
// the list
// ---------------------------------------------------------------------------

/// Every account has a tab with its name, in the order of the accounts, and
/// the active one stands out.
pub proof fn every_account_has_a_tab(app: AppV, n: int, i: int)
    requires
        0 <= i < n,
    ensures
        tabs(app, n).len() == 1 + 2 * n,
        tabs(app, n)[2 + 2 * i].text == app.accounts[i].cfg.name,
        tabs(app, n)[2 + 2 * i].style.bold <==> i == app.active,
    decreases n,
{
    lemma_tabs_len(app, n);
    lemma_tabs_len(app, n - 1);
    if i < n - 1 {
        every_account_has_a_tab(app, n - 1, i);
    }
}

proof fn lemma_tabs_len(app: AppV, n: int)
    requires
        n >= 0,
    ensures
        tabs(app, n).len() == 1 + 2 * n,
    decreases n,
{
    if n > 0 {
        lemma_tabs_len(app, n - 1);
    }
}

/// Each total that is not zero is shown with its number, in a fixed order; a
/// zero is not shown.
pub proof fn totals_are_shown_by_number(s: StatsV)
    ensures
        ({
            let c = counters(s, false);
            let one = |n: nat|
                if n > 0 {
                    1int
                } else {
                    0int
                };
            &&& c.len() == one(s.trashed) + one(s.archived) + one(s.marked_read) + one(
                s.unsubscribed,
            )
            &&& s.trashed > 0 ==> c[0] == decimal(s.trashed) + " "@ + "trashed"@
            &&& s.archived > 0 ==> c[one(s.trashed)] == decimal(s.archived) + " "@ + "archived"@
            &&& s.marked_read > 0 ==> c[one(s.trashed) + one(s.archived)] == decimal(s.marked_read)
                + " "@ + "read"@
            &&& s.unsubscribed > 0 ==> c.last() == decimal(s.unsubscribed) + " "@ + "unsubbed"@
        }),
{
}

/// The title says how much of the mailbox is in view: all of it once the window
/// reaches the oldest message, else the newest so many of so many.
pub proof fn the_title_says_how_much_is_in_view(a: AccountV)
    ensures
        a.reached_end ==> begins(extent_text(a), "all "@ + grouped(a.total)),
        !a.reached_end ==> begins(
            extent_text(a),
            "newest "@ + grouped(all_messages(a.stacks).len()) + " of "@ + grouped(a.total),
        ),
{
    to_begin_is_to_go_on(extent_text(a), "all "@ + grouped(a.total));
    to_begin_is_to_go_on(
        extent_text(a),
        "newest "@ + grouped(all_messages(a.stacks).len()) + " of "@ + grouped(a.total),
    );
}

/// A row shows its mark, its count, its read rate, whether it can be
/// unsubscribed from, its name, its subject where there is one and room for it,
/// and how many of its messages are unread.
pub proof fn a_row_shows_its_stack(a: AccountV, s: StackV, inner: nat)
    ensures
        ({
            let r = row_spans(a, s, inner);
            &&& (r[0].text == "▌"@ <==> a.marked.contains(s.key))
            &&& is_partial(a, s) <==> a.partial_senders.contains(lowercase(s.msgs[0].sender_email))
            &&& !is_partial(a, s) ==> r[1].text == right_aligned(decimal(s.msgs.len()), 4)
            &&& is_partial(a, s) ==> r[1].text == right_aligned("~"@ + decimal(s.msgs.len()), 4)
            &&& r[3].text == right_aligned(decimal(s.rate() as nat), 3) + "%"@
            &&& s.rate() <= 10 ==> r[3].style.fg == Some(Color::Red)
            &&& 10 < s.rate() <= 40 ==> r[3].style.fg == Some(Color::Yellow)
            &&& s.rate() > 40 ==> r[3].style.fg == Some(Color::DarkGray)
            &&& (r[5].text == "U"@ <==> s.can_unsubscribe)
            &&& r[7].text == cut_to(s.display_name, name_room(inner, s.unread_count))
            &&& s.unread_count > 0 ==> r.last().text == " ("@ + decimal(s.unread_count) + " new)"@
            &&& s.unread_count == 0 ==> r.last().text.len() == 0
            &&& r.len() == 9 + subject_part(s, inner).len()
        }),
        name_room(inner, s.unread_count) <= 22,
        inner >= 13 + 22 + unread_text(s.unread_count).len() ==> name_room(inner, s.unread_count)
            == 22,
{
    if a.partial_senders.contains(lowercase(s.msgs[0].sender_email)) {
        assert(!a.partial_senders.is_empty());
    }
    reveal_strlit("▌");
    reveal_strlit(" ");
    reveal_strlit("U");
    assert("▌"@[0] == '▌' && " "@[0] == ' ' && "U"@[0] == 'U');
}

/// The title of the message pane names the sender and the key, and the way to
/// unsubscribe where there is one.
pub proof fn the_message_pane_names_its_stack(s: StackV)
    ensures
        begins(detail_title_text(s), " "@ + cut_to(s.display_name, 28) + " <"@ + s.key + ">"@),
        stack_method(s) matches Some(m) ==> occurs(
            detail_title_text(s),
            " · unsub: "@ + m.description(),
        ),
{
    let t = detail_title_text(s);
    let p = " "@ + cut_to(s.display_name, 28) + " <"@ + s.key + ">"@;
    let way = match stack_method(s) {
        Some(m) => " · unsub: "@ + m.description(),
        None => Seq::empty(),
    };
    assert(t == p + way + " "@);
    assert(t =~= p + (way + " "@));
    to_begin_is_to_go_on(t, p);
    to_occur_is_to_stand_somewhere(t, way);
}

/// A row of the message pane shows the date of its message, a dot where it is
/// unread, and the whole subject; recent dates stand out.
pub proof fn a_message_row_shows_its_message(
    m: MsgV,
    local: Option<LocalTime>,
    today: LocalTime,
    at: Timestamp,
)
    ensures
        ({
            let r = detail_spans(m, local, today, at);
            &&& r.len() == 5
            &&& local matches Some(d) ==> r[0].text == date_text(d, today)
            &&& r[0].style.bold <==> (m.date matches Some(d) && recent(d, at))
            &&& (r[2].text == "●"@ <==> m.unread)
            &&& r[4].text == m.subject
            &&& r[4].style.bold <==> m.unread
        }),
{
    reveal_strlit("●");
    reveal_strlit(" ");
    assert("●"@[0] == '●' && " "@[0] == ' ');
}

// ---------------------------------------------------------------------------
// the alert and the status
// ---------------------------------------------------------------------------

/// The one alert is the question where one waits for an answer, with what moves
/// beyond the view counted in; otherwise the sweep that runs, with what it read
/// out of what it will, or the one that failed.
pub proof fn the_alert_shows_what_waits(app: AppV)
    ensures
        match (app.mode, app.alert) {
            (ModeV::Confirm(action), _) => alert_shown(app) matches Some(a) && a.headline
                == action.question(app.acct().stacks, app.reach.beyond.len()) && !a.spins
                && a.bar is None,
            (_, Some(AlertV::Sweeping { starting, progress: None })) => alert_shown(
                app,
            ) matches Some(a) && a.headline == starting && a.spins && a.bar is None,
            (_, Some(AlertV::Sweeping { progress: Some(p), .. })) => alert_shown(
                app,
            ) matches Some(a) && a.headline == progress_text(p) && a.spins && a.bar == Some(
                (p.swept, p.bound),
            ),
            (_, Some(AlertV::Failed(why))) => alert_shown(app) matches Some(a) && a.headline == why
                && !a.spins,
            (_, None) => alert_shown(app) is None,
        },
{
}

/// Progress is told in messages read, out of those that will be, and in senders
/// seen.
pub proof fn progress_is_told_in_numbers(p: SweepProgress)
    ensures
        begins(
            progress_text(p),
            grouped(p.swept as nat) + " of "@ + grouped(p.bound as nat) + " · "@ + decimal(
                p.stacks as nat,
            ),
        ),
{
    let head = grouped(p.swept as nat) + " of "@ + grouped(p.bound as nat) + " · "@ + decimal(
        p.stacks as nat,
    );
    to_begin_is_to_go_on(progress_text(p), head);
}

/// The status row shows the status, behind a spinner where a job is in flight
/// that no alert tells of; while a filter is typed it shows the filter.
pub proof fn the_status_row_shows_the_status(app: AppV, alert_up: bool)
    ensures
        ({
            let r = status_line(app, alert_up);
            &&& !(app.mode is Filter) ==> r.last().text == app.status
            &&& !(app.mode is Filter) ==> r.len() == (if app.busy && !alert_up {
                2int
            } else {
                1int
            })
            &&& app.mode is Filter ==> begins(r[0].text, "filter: "@ + app.filter)
        }),
{
    if app.mode is Filter {
        let t = status_line(app, alert_up)[0].text;
        to_begin_is_to_go_on(t, "filter: "@ + app.filter);
    }
}

/// An alert's headline is shown whole where it fits, behind the spinner where
/// the alert spins.
pub proof fn a_headline_is_shown_whole_where_it_fits(app: AppV, tick: usize, width: nat)
    requires
        alert_shown(app) is Some,
        (alert_shown(app)->0).headline.len() + 2 <= width,
    ensures
        ({
            let alert = alert_shown(app)->0;
            let r = headline_text(alert, tick, width);
            &&& !alert.spins ==> r == alert.headline
            &&& alert.spins ==> r == spinner_text(tick) + seq![' '] + alert.headline
        }),
{
    reveal_strlit(" ");
    assert(" "@ =~= seq![' ']);
}

/// However narrow the pane, the title keeps what keys change: the number of
/// rows, the grouping and the order; and the marks where there are any.
pub proof fn every_title_keeps_the_state(app: AppV, k: int)
    requires
        0 <= k < list_titles(app).len(),
    ensures
        ({
            let t = list_titles(app)[k];
            &&& occurs(t, decimal(app.acct().visible(app.filter).len()))
            &&& occurs(t, app.group_by.name())
            &&& occurs(t, app.sort_by.name())
            &&& !app.acct().marked.is_empty() ==> occurs(t, decimal(app.acct().marked.len()))
        }),
{
    let a = app.acct();
    let n = decimal(a.visible(app.filter).len());
    let ratio = grouped(all_messages(a.stacks).len()) + "/"@ + grouped(a.total);
    let m = decimal(a.marked.len());
    lemma_state_label(app, true);
    lemma_state_label(app, false);
    lemma_within(" stacks ("@, n, ")"@);
    lemma_within(" "@, n, Seq::empty());
    assert(" "@ + n + Seq::<char>::empty() =~= " "@ + n);
    if !a.marked.is_empty() {
        lemma_within(" · "@, m, "▌"@);
        lemma_within(" · "@, m, " marked"@);
    }
    lemma_wide(stacks_label(a.visible(app.filter).len()), extent_text(a), app, true, n, m);
    lemma_wide(stacks_label(a.visible(app.filter).len()), ratio, app, true, n, m);
    lemma_wide(stacks_label(a.visible(app.filter).len()), ratio, app, false, n, m);
    lemma_narrow(stacks_label(a.visible(app.filter).len()), app, false, n, m);
    lemma_narrow(" "@ + n, app, false, n, m);
    lemma_narrow(" "@ + n, app, true, n, m);
    assert(k == 0 || k == 1 || k == 2 || k == 3 || k == 4 || k == 5);
}

proof fn lemma_within(a: Seq<char>, x: Seq<char>, b: Seq<char>)
    ensures
        occurs(a + x + b, x),
{
    to_occur_is_to_stand_somewhere(a + x + b, x);
}

proof fn lemma_deeper(a: Seq<char>, t: Seq<char>, b: Seq<char>, x: Seq<char>)
    requires
        occurs(t, x),
    ensures
        occurs(a + t + b, x),
{
    to_occur_is_to_stand_somewhere(t, x);
    let (p, q) = choose|p: Seq<char>, q: Seq<char>| t == #[trigger] (p + x + q);
    assert(a + t + b =~= (a + p) + x + (q + b));
    to_occur_is_to_stand_somewhere(a + t + b, x);
}

proof fn lemma_state_label(app: AppV, long: bool)
    ensures
        occurs(state_label(app, long), app.group_by.name()),
        occurs(state_label(app, long), app.sort_by.name()),
{
    let (g, s) = (app.group_by.name(), app.sort_by.name());
    let none = Seq::<char>::empty();
    let (before, between) = if long {
        (" · by "@, " · sort "@)
    } else {
        (" · "@, " · "@)
    };
    let t = state_label(app, long);
    assert(t == before + g + between + s);
    lemma_within(before, g, between + s);
    assert(before + g + (between + s) =~= t);
    lemma_within(before + g + between, s, none);
    assert(before + g + between + s + none =~= t);
}

proof fn lemma_narrow(head: Seq<char>, app: AppV, short: bool, n: Seq<char>, m: Seq<char>)
    requires
        occurs(head, n),
        m == decimal(app.acct().marked.len()),
    ensures
        ({
            let t = narrow_title(head, state_label(app, false), marked_text(app.acct().marked, short));
            &&& occurs(t, n)
            &&& occurs(t, app.group_by.name())
            &&& occurs(t, app.sort_by.name())
            &&& !app.acct().marked.is_empty() ==> occurs(t, m)
        }),
{
    let none = Seq::<char>::empty();
    let state = state_label(app, false);
    let marked = marked_text(app.acct().marked, short);
    let end = " "@;
    let t = narrow_title(head, state, marked);
    lemma_state_label(app, false);
    assert(t == head + state + marked + end);
    lemma_deeper(none, head, state + marked + end, n);
    assert(none + head + (state + marked + end) =~= t);
    lemma_deeper(head, state, marked + end, app.group_by.name());
    lemma_deeper(head, state, marked + end, app.sort_by.name());
    assert(head + state + (marked + end) =~= t);
    if !app.acct().marked.is_empty() {
        lemma_marked(app.acct().marked, short);
        lemma_deeper(head + state, marked, end, m);
    }
}

proof fn lemma_marked(marked: Set<Seq<char>>, short: bool)
    requires
        !marked.is_empty(),
    ensures
        occurs(marked_text(marked, short), decimal(marked.len())),
{
    lemma_within(
        " · "@,
        decimal(marked.len()),
        if short {
            "▌"@
        } else {
            " marked"@
        },
    );
}

proof fn lemma_wide(
    head: Seq<char>,
    extent: Seq<char>,
    app: AppV,
    long: bool,
    n: Seq<char>,
    m: Seq<char>,
)
    requires
        occurs(head, n),
        m == decimal(app.acct().marked.len()),
    ensures
        ({
            let t = wide_title(
                head,
                extent,
                state_label(app, long),
                marked_text(app.acct().marked, false),
            );
            &&& occurs(t, n)
            &&& occurs(t, app.group_by.name())
            &&& occurs(t, app.sort_by.name())
            &&& !app.acct().marked.is_empty() ==> occurs(t, m)
        }),
{
    let none = Seq::<char>::empty();
    let state = state_label(app, long);
    let marked = marked_text(app.acct().marked, false);
    let end = " "@;
    let first = head + " · "@ + extent;
    let t = wide_title(head, extent, state, marked);
    lemma_state_label(app, long);
    assert(t == first + state + marked + end);
    lemma_deeper(none, head, " · "@ + extent, n);
    assert(none + head + (" · "@ + extent) =~= first);
    lemma_deeper(none, first, state + marked + end, n);
    assert(none + first + (state + marked + end) =~= t);
    lemma_deeper(first, state, marked + end, app.group_by.name());
    lemma_deeper(first, state, marked + end, app.sort_by.name());
    assert(first + state + (marked + end) =~= t);
    if !app.acct().marked.is_empty() {
        lemma_marked(app.acct().marked, false);
        lemma_deeper(first + state, marked, end, m);
    }
}

/// The totals are shown in full where they fit, shortened where only that does,
/// and not at all otherwise.
pub proof fn totals_are_shown_as_long_as_they_fit(s: StatsV, max: nat)
    ensures
        ({
            let full = joined(counters(s, false), " · "@);
            let short = joined(counters(s, true), " · "@);
            &&& counters(s, false).len() > 0 && full.len() <= max ==> counters_text(s, max) == Some(
                full,
            )
            &&& counters(s, false).len() > 0 && full.len() > max && short.len() <= max
                ==> counters_text(s, max) == Some(short)
            &&& full.len() > max && short.len() > max ==> counters_text(s, max) is None
        }),
        counters(s, true).len() == counters(s, false).len(),
        s.trashed > 0 ==> counters(s, true)[0] == decimal(s.trashed) + "d"@,
        s.unsubscribed > 0 ==> counters(s, true).last() == decimal(s.unsubscribed) + "u"@,
{
}

/// Every title of a filtered list shows how many rows are left and the whole
/// filter.
pub proof fn a_filtered_title_shows_the_filter(app: AppV, k: int)
    requires
        0 <= k < filter_titles(app).len(),
    ensures
        occurs(filter_titles(app)[k], decimal(app.acct().visible(app.filter).len())),
        occurs(filter_titles(app)[k], app.filter),
{
    let a = app.acct();
    let n = decimal(a.visible(app.filter).len());
    let f = app.filter;
    let end = " "@;
    let long = marked_text(a.marked, false);
    let short = marked_text(a.marked, true);
    lemma_two(" stacks ("@, n, ") · filter: "@, f, long, end);
    lemma_two(" ("@, n, ") /"@, f, long, end);
    lemma_two(" ("@, n, ") /"@, f, short, end);
    assert(k == 0 || k == 1 || k == 2);
}

proof fn lemma_two(
    a: Seq<char>,
    x: Seq<char>,
    b: Seq<char>,
    y: Seq<char>,
    c: Seq<char>,
    d: Seq<char>,
)
    ensures
        occurs(a + x + b + y + c + d, x),
        occurs(a + x + b + y + c + d, y),
{
    let t = a + x + b + y + c + d;
    lemma_within(a, x, b + y + c + d);
    assert(a + x + (b + y + c + d) =~= t);
    lemma_within(a + x + b, y, c + d);
    assert(a + x + b + y + (c + d) =~= t);
}

/// A row shows the subject that its stack has, cut to the room, wherever the
/// name leaves fifteen columns; a stack without one shows none.
pub proof fn a_row_shows_its_subject_where_there_is_room(s: StackV, inner: nat)
    ensures
        ({
            let part = subject_part(s, inner);
            let room = row_room(inner, s.unread_count) - name_room(inner, s.unread_count);
            &&& s.subject is None ==> part.len() == 0
            &&& room < 15 ==> part.len() == 0
            &&& s.subject matches Some(subject) ==> room >= 15 ==> part.len() == 1 && part[0].text
                == " · "@ + cut_to(
                subject,
                (if room - 3 < 32 {
                    room - 3
                } else {
                    32
                }) as nat,
            )
        }),
{
}

/// An empty list says why it is empty.
pub proof fn an_empty_list_says_why(app: AppV)
    ensures
        app.loading ==> empty_text(app) == "loading…"@,
        !app.loading && !app.acct().loaded ==> empty_text(app)
            == "nothing loaded — press R to try again"@,
        !app.loading && app.acct().loaded && app.filter.len() > 0 ==> empty_text(app)
            == "nothing matches the filter — Esc to clear it"@,
        !app.loading && app.acct().loaded && app.filter.len() == 0 && app.acct().reached_end
            ==> empty_text(app) == "inbox zero — nothing left to triage"@,
        !app.loading && app.acct().loaded && app.filter.len() == 0 && !app.acct().reached_end
            ==> empty_text(app) == "all clear — press m to sweep "@ + grouped(5000)
            + " more messages"@,
{
}

/// A hint is its key, a space and its label, with two spaces behind it.
pub proof fn a_hint_is_its_key_and_its_label(
    hints: Seq<(Seq<char>, Seq<char>)>,
    key: Seq<char>,
    label: Seq<char>,
)
    ensures
        line_text(hint_line(hints.push((key, label)))) == line_text(hint_line(hints)) + key + " "@
            + label + "  "@,
        hint_cost((key, label)) == key.len() + 1 + label.len() + 2,
{
    let all = hint_line(hints.push((key, label)));
    let before = hint_line(hints);
    assert(hints.push((key, label)).drop_last() =~= hints);
    assert(hints.push((key, label)).last() == (key, label));
    let (a, b, c, d) = (
        all[before.len() as int],
        all[before.len() as int + 1],
        all[before.len() as int + 2],
        all[before.len() as int + 3],
    );
    let (x, y, z) = (before.push(a), before.push(a).push(b), before.push(a).push(b).push(c));
    assert(x.drop_last() =~= before && y.drop_last() =~= x && z.drop_last() =~= y);
    assert(all =~= z.push(d));
    assert(all.drop_last() =~= z);
    assert(line_text(x) == line_text(before) + key);
    assert(line_text(y) == line_text(x) + " "@);
    assert(line_text(z) == line_text(y) + label);
    assert(line_text(all) == line_text(z) + "  "@);
}

/// The pane's title counts the rows, and shows the filter where there is one
/// and the grouping and the order where there is none. It fits wherever one of
/// the titles does.
pub proof fn the_title_shows_filter_or_state(app: AppV, inner: nat)
    ensures
        ({
            let t = title_text(app, inner);
            &&& occurs(t, decimal(app.acct().visible(app.filter).len()))
            &&& app.filter.len() > 0 ==> occurs(t, app.filter)
            &&& app.filter.len() == 0 ==> occurs(t, app.group_by.name()) && occurs(
                t,
                app.sort_by.name(),
            )
        }),
{
    let titles = if app.filter.len() == 0 {
        list_titles(app)
    } else {
        filter_titles(app)
    };
    the_chosen_candidate_fits_if_any_does(titles, inner);
    let k = choose|k: int| 0 <= k < titles.len() && titles[k] == title_text(app, inner);
    if app.filter.len() == 0 {
        every_title_keeps_the_state(app, k);
    } else {
        a_filtered_title_shows_the_filter(app, k);
    }
}

/// What is left of a row behind a line and a gap of two columns is what the
/// line's spans do not take; a plain text takes a column for each character.
pub proof fn a_line_leaves_what_it_does_not_take(spans: Seq<SpanV>, s: SpanV, width: int)
    ensures
        line_columns(Seq::empty()) == 0,
        line_columns(spans.push(s)) == line_columns(spans) + columns(s.text),
        is_ascii_chars(s.text) && !s.text.contains('\r') ==> columns(s.text) == s.text.len(),
        line_columns(spans) + 2 <= width ==> room_behind(spans, width) + line_columns(spans) + 2
            == width,
        line_columns(spans) + 2 > width ==> room_behind(spans, width) == 0,
{
    assert(spans.push(s).drop_last() =~= spans);
}

/// The totals stand at the right end of the tab row, in what the tabs leave of
/// it.
pub proof fn totals_stand_behind_the_tabs(app: AppV, area: Rect)
    requires
        area.wf(),
    ensures
        tab_totals(app, area) matches Some((rect, text)) ==> {
            let used = line_text(tabs(app, app.accounts.len() as int)).len();
            &&& used + 2 + text.len() <= area.width || text.len() == 0
            &&& text == joined(counters(app.stats, false), " · "@) || text == joined(
                counters(app.stats, true),
                " · "@,
            )
            &&& text.len() < area.width ==> rect.x + text.len() + 1 == area.x + area.width && rect.y
                == area.y
        },
{
}

/// The help names every key that acts, with what it does.
pub proof fn the_help_names_the_keys()
    ensures
        ({
            let rows = help_text();
            &&& rows.contains(HelpRowV::Binding("d"@, "trash"@))
            &&& rows.contains(HelpRowV::Binding("e"@, "archive"@))
            &&& rows.contains(HelpRowV::Binding("r"@, "mark read"@))
            &&& rows.contains(HelpRowV::Binding("u"@, "unsubscribe"@))
            &&& rows.contains(HelpRowV::Binding("Space"@, "mark stack, advance"@))
            &&& rows.contains(HelpRowV::Binding("a"@, "mark / unmark everything in view"@))
            &&& rows.contains(HelpRowV::Binding("m"@, "sweep 5,000 more messages"@))
            &&& rows.contains(HelpRowV::Binding("g"@, "group by sender / subject"@))
            &&& rows.contains(HelpRowV::Binding("s"@, "re-sort everything loaded"@))
            &&& rows.contains(HelpRowV::Binding("/"@, "filter"@))
            &&& rows.contains(HelpRowV::Binding("R"@, "reload from scratch"@))
            &&& rows.contains(HelpRowV::Binding("q"@, "quit"@))
            &&& rows.contains(HelpRowV::Binding("Tab"@, "next account"@))
            &&& rows.contains(HelpRowV::Binding("Esc"@, "clear marks, else clear filter"@))
        }),
{
    let rows = help_text();
    assert(rows[11] == HelpRowV::Binding("d"@, "trash"@));
    assert(rows[12] == HelpRowV::Binding("e"@, "archive"@));
    assert(rows[13] == HelpRowV::Binding("r"@, "mark read"@));
    assert(rows[14] == HelpRowV::Binding("u"@, "unsubscribe"@));
    assert(rows[7] == HelpRowV::Binding("Space"@, "mark stack, advance"@));
    assert(rows[8] == HelpRowV::Binding("a"@, "mark / unmark everything in view"@));
    assert(rows[17] == HelpRowV::Binding("m"@, "sweep 5,000 more messages"@));
    assert(rows[18] == HelpRowV::Binding("g"@, "group by sender / subject"@));
    assert(rows[19] == HelpRowV::Binding("s"@, "re-sort everything loaded"@));
    assert(rows[20] == HelpRowV::Binding("/"@, "filter"@));
    assert(rows[21] == HelpRowV::Binding("R"@, "reload from scratch"@));
    assert(rows[22] == HelpRowV::Binding("q"@, "quit"@));
    assert(rows[4] == HelpRowV::Binding("Tab"@, "next account"@));
    assert(rows[3] == HelpRowV::Binding("Esc"@, "clear marks, else clear filter"@));
}

} // verus!
