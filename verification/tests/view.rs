use mailprune::action_log::ActionLog;
use mailprune::clock::Timestamp;
use mailprune::config::AccountConfig;
use mailprune::imap_client::SweepProgress;
use mailprune::stacks::{build_stacks, GroupBy, MsgMeta, SortBy};
use mailprune::ui::app::{Alert, App, Mode, SessionStats};
use mailprune::ui::jobs::PendingAction;
use mailprune::ui::view::{
    alert_colour, alert_headline, alert_layout, alert_view, behind_alert, commas, detail_row,
    detail_title, empty_state, help_popup, help_row, help_rows, help_spans, highlighted,
    is_recent, is_recent_at, on_screen, overlay, pane_title, place_hints, session_counters,
    spinner_frame, stack_row, status_hints, status_spans, tab_counters, tab_spans, too_small, too_small_box,
    too_small_lines, Overlay, ALERT_H, ALERT_W, HELP_TITLE, MIN_HEIGHT, MIN_WIDTH, RECENT_DAYS,
};
use mailprune::ui::widgets::{
    centered, first_that_fits, fmt_date, hint_spans, hint_width, progress_bar, text_of, truncate,
    Color, LocalTime, Rect, Span, Style,
};

const NOON: LocalTime = LocalTime { year: 2026, month: 6, day: 1, hour: 12, minute: 0 };

/// the moment that the tests look at the screen
const NOW: Timestamp = Timestamp { secs: 1_780_315_200, nanos: 0 };

/// a screen with no terminal: a character and its style in every cell
struct Screen {
    width: u16,
    height: u16,
    cells: Vec<(char, Style)>,
}

impl Screen {
    fn new(width: u16, height: u16) -> Self {
        let blank = (' ', Style::plain());
        Self { width, height, cells: vec![blank; width as usize * height as usize] }
    }

    fn at(&self, x: u16, y: u16) -> (char, Style) {
        self.cells[y as usize * self.width as usize + x as usize]
    }

    fn put(&mut self, x: u16, y: u16, c: char, style: Style) {
        if x < self.width && y < self.height {
            self.cells[y as usize * self.width as usize + x as usize] = (c, style);
        }
    }

    /// a line of spans, cut at `width` columns
    fn line(&mut self, x: u16, y: u16, width: u16, spans: &[Span]) {
        let chars = spans.iter().flat_map(|s| s.text.chars().map(move |c| (c, s.style)));
        for (i, (c, style)) in chars.take(width as usize).enumerate() {
            self.put(x + i as u16, y, c, style);
        }
    }

    fn text(&mut self, x: u16, y: u16, width: u16, text: &str, style: Style) {
        self.line(x, y, width, &[Span { text: text.into(), style }]);
    }

    fn center(&mut self, r: Rect, text: &str) {
        let n = text.chars().count() as u16;
        let x = r.x + r.width.saturating_sub(n) / 2;
        self.text(x, r.y, r.width, text, Style::plain());
    }

    fn frame(&mut self, r: Rect, title: &str, style: Style) {
        for x in r.x..r.x + r.width {
            for y in r.y..r.y + r.height {
                let (left, top) = (x == r.x, y == r.y);
                let (right, bottom) = (x + 1 == r.x + r.width, y + 1 == r.y + r.height);
                let c = match (left, right, top, bottom) {
                    (true, _, true, _) => '┌',
                    (_, true, true, _) => '┐',
                    (true, _, _, true) => '└',
                    (_, true, _, true) => '┘',
                    (true, _, _, _) | (_, true, _, _) => '│',
                    (_, _, true, _) | (_, _, _, true) => '─',
                    _ => ' ',
                };
                self.put(x, y, c, style);
            }
        }
        self.text(r.x + 1, r.y, r.width.saturating_sub(2), title, style);
    }

    fn row(&self, y: u16) -> String {
        (0..self.width).map(|x| self.at(x, y).0).collect()
    }

    fn rows(&self) -> Vec<String> {
        (0..self.height).map(|y| self.row(y)).collect()
    }
}

/// everything the library says of the screen, in its place
fn draw(app: &App, w: u16, h: u16) -> Screen {
    let mut screen = Screen::new(w, h);
    let area = Rect { x: 0, y: 0, width: w, height: h };
    if too_small(w, h) {
        let place = too_small_box(area);
        for (i, span) in too_small_lines(w, h).iter().enumerate() {
            if (i as u16) < place.height {
                screen.center(
                    Rect { y: place.y + i as u16, height: 1, ..place },
                    &span.text,
                );
            }
        }
        return screen;
    }
    let alert = alert_view(app);
    let tabs = Rect { height: 1, ..area };
    screen.line(0, 0, w, &tab_spans(app));
    if let Some((r, text)) = tab_counters(app, tabs) {
        screen.text(r.x, r.y, r.width, &text, Style::fg(Color::DarkGray));
    }

    let list = Rect { x: 0, y: 1, width: (w as usize * 45 / 100) as u16, height: h - 3 };
    let detail = Rect { x: list.width, y: 1, width: w - list.width, height: h - 3 };
    let inner = list.width.saturating_sub(2) as usize;
    screen.frame(list, &pane_title(app, inner), Style::plain());
    let acct = app.account();
    let visible = app.visible_stacks();
    if visible.is_empty() {
        let words = empty_state(app);
        let mut line = String::new();
        let mut y = list.y + 1;
        for word in words.split(' ') {
            if line.chars().count() + 1 + word.chars().count() > inner {
                screen.text(list.x + 1, y, inner as u16, &line, Style::plain());
                line.clear();
                y += 1;
            }
            if !line.is_empty() {
                line.push(' ');
            }
            line.push_str(word);
        }
        screen.text(list.x + 1, y, inner as u16, &line, Style::plain());
    }
    for (i, s) in on_screen(&visible, 0, (list.height - 2) as usize).iter().enumerate() {
        let row = stack_row(acct, &acct.stacks[*s], inner);
        screen.line(list.x + 1, list.y + 1 + i as u16, inner as u16, &row);
    }

    match app.selected_stack_idx() {
        Some(i) => {
            let stack = &acct.stacks[i];
            screen.frame(detail, &detail_title(stack), Style::plain());
            for (k, m) in stack.msgs.iter().enumerate() {
                let local = m.date.map(|_| NOON);
                let row = detail_row(m, local, LocalTime { day: 2, ..NOON }, NOW);
                screen.line(detail.x + 1, detail.y + 1 + k as u16, detail.width - 2, &row);
            }
        }
        None => screen.frame(detail, " messages ", Style::plain()),
    }

    let up = alert.is_some();
    let status = Rect { y: h - 2, height: 1, ..area };
    screen.line(0, h - 2, w, &status_spans(app, up));
    if let Some((r, spans)) = status_hints(app, status, up) {
        screen.line(r.x, r.y, r.width, &spans);
    }
    if let Some(spans) = help_spans(app, w as usize, up) {
        screen.line(0, h - 1, w, &spans);
    }

    match (overlay(app), alert) {
        (Overlay::Alert, Some(a)) => {
            if let Some(c) = behind_alert(app.no_color) {
                for cell in &mut screen.cells {
                    cell.1.fg = Some(c);
                }
            }
            let at = alert_layout(area);
            let colour = alert_colour(app.no_color, a.colour);
            screen.frame(at.frame, a.title, Style::fg(colour));
            let width = at.headline.width as usize;
            screen.center(at.headline, &alert_headline(&a, app.spinner, width));
            if let Some((done, of)) = a.bar {
                let bar = progress_bar(done, of, width);
                screen.text(at.bar.x, at.bar.y, at.bar.width, &bar, Style::fg(colour));
            }
            screen.center(at.hint, a.hint);
        }
        (Overlay::Help, _) => {
            let rows = help_rows();
            let popup = help_popup(area, rows.len() as u16);
            screen.frame(popup, HELP_TITLE, Style::fg(Color::Cyan));
            for (i, row) in rows.iter().enumerate() {
                if i as u16 + 2 < popup.height {
                    let y = popup.y + 1 + i as u16;
                    screen.line(popup.x + 1, y, popup.width - 2, &help_row(row));
                }
            }
        }
        _ => {}
    }
    screen
}

/// the whole frame as one string, rows joined by newline
fn render(app: &App, w: u16, h: u16) -> String {
    draw(app, w, h).rows().join("\n")
}

/// the status row of a rendered frame, trailing blanks trimmed
fn status_row(app: &App) -> String {
    draw(app, 80, MIN_HEIGHT).row(MIN_HEIGHT - 2).trim_end().to_string()
}

/// the status row with the right-aligned view hints stripped off
fn status_text(app: &App) -> String {
    let row = status_row(app);
    let cut = row.find("  m more").unwrap_or(row.len());
    row[..cut].trim_end().to_string()
}

fn footer(app: &App, w: u16) -> String {
    draw(app, w, MIN_HEIGHT).row(MIN_HEIGHT - 1).trim_end().to_string()
}

/// the tab row, trailing blanks trimmed
fn tab_row(app: &App, w: u16) -> String {
    draw(app, w, MIN_HEIGHT).row(0).trim_end().to_string()
}

/// the stack-list pane's rows, borders stripped, at the given size
fn stack_pane(app: &App, w: u16, h: u16) -> Vec<String> {
    let inner_w = (w as usize * 45 / 100) - 2;
    draw(app, w, h)
        .rows()
        .into_iter()
        .skip(1) // tab bar
        .take(h as usize - 3) // minus tab bar, status, help
        .map(|l| l.chars().skip(1).take(inner_w).collect::<String>())
        .collect()
}

fn test_app() -> App {
    let cfg = AccountConfig {
        name: "t".into(),
        email: "me@x.com".into(),
        imap_host: "imap".into(),
        smtp_host: "smtp".into(),
    };
    App::new(vec![cfg], ActionLog::at("view.jsonl".into()), None)
}

fn msg(uid: u32, email: &str, name: &str, subject: &str) -> MsgMeta {
    MsgMeta {
        uid,
        sender_email: email.into(),
        sender_name: name.into(),
        subject: subject.into(),
        date: None,
        unread: false,
        list_unsubscribe: None,
        one_click: false,
    }
}

fn app_with(msgs: Vec<MsgMeta>, group_by: GroupBy) -> App {
    let mut app = test_app();
    app.group_by = group_by;
    let swept = msgs.len();
    app.account_mut().stacks = build_stacks(msgs, group_by, SortBy::Count);
    app.account_mut().total = swept;
    app.account_mut().back = swept;
    app.account_mut().reached_end = true;
    app.account_mut().loaded = true;
    app
}

fn alice() -> App {
    app_with(vec![msg(1, "a@x.com", "Alice", "hi")], GroupBy::Sender)
}

fn alice_and_bob() -> App {
    app_with(
        vec![msg(1, "a@x.com", "Alice", "hi"), msg(2, "b@x.com", "Bob", "yo")],
        GroupBy::Sender,
    )
}

#[test]
fn dates_are_bold_only_within_the_last_30_days() {
    let day = 86_400;
    // a day either side of the cutoff, so the boundary itself is covered
    let at = |days: i64| Some(Timestamp { secs: NOW.secs - days * day, nanos: 0 });
    let mut recent = msg(1, "a@x.com", "A", "recent");
    recent.date = at(RECENT_DAYS - 1);
    let mut old = msg(1, "a@x.com", "A", "old");
    old.date = at(RECENT_DAYS + 1);
    let app = app_with(vec![recent, old], GroupBy::Sender);

    let screen = draw(&app, 100, MIN_HEIGHT);
    // the detail pane starts at 45% of a 100-column frame, plus its border
    let styles = |subject: &str| -> Vec<Style> {
        let y = (0..screen.height)
            .find(|&y| screen.row(y).chars().skip(46).collect::<String>().contains(subject))
            .expect("a detail row");
        (46..100).map(|x| screen.at(x, y).1).collect()
    };
    // the date occupies the first 10 cells of each row
    assert!(
        styles("recent")[..10].iter().all(|s| s.bold),
        "date inside the 30-day window should be bold"
    );
    assert!(
        styles("old")[..10].iter().all(|s| !s.bold),
        "date outside the 30-day window should not be bold"
    );
}

#[test]
fn recent_is_less_than_thirty_days_to_the_nanosecond() {
    let edge = Timestamp { secs: NOW.secs - 30 * 86_400, nanos: 0 };
    assert!(!is_recent_at(edge, NOW));
    assert!(is_recent_at(Timestamp { nanos: 1, ..edge }, NOW));
    assert!(is_recent_at(Timestamp { secs: NOW.secs + 999, nanos: 0 }, NOW), "clock skew");
    assert!(!is_recent(Timestamp { secs: 0, nanos: 0 }));
}

#[test]
fn a_terminal_under_the_minimum_says_so_instead_of_squeezing_panes() {
    let app = alice();

    for (w, h) in [(79, 24), (80, 23), (40, 10)] {
        let frame = render(&app, w, h);
        assert!(frame.contains("80x24"), "{w}x{h} should ask for a resize, got:\n{frame}");
        assert!(!frame.contains("stacks ("), "{w}x{h} still drew the panes");
    }

    let frame = render(&app, MIN_WIDTH, MIN_HEIGHT);
    assert!(frame.contains("stacks ("), "80x24 is usable, not gated");
    assert!(!frame.contains("80x24"), "no resize message at the minimum");
}

#[test]
fn sender_names_survive_the_80_col_stack_pane_uncut() {
    // 21 chars — the widest name the 34-column inner pane can hold
    let name = "Newsletter Weekly Dig";
    let app = app_with(vec![msg(1, "n@x.com", name, "hello")], GroupBy::Sender);

    let rows = stack_pane(&app, MIN_WIDTH, MIN_HEIGHT);
    let row = rows.iter().find(|r| r.contains("Newsl")).expect("row drawn");
    assert!(row.contains(name), "name was cut: {row:?}");
    assert!(!row.contains('…'), "nothing should be elided: {row:?}");
}

#[test]
fn the_subject_span_is_dropped_at_80_cols_and_returns_when_wide() {
    let msgs = vec![msg(1, "n@x.com", "Deals", "Weekend deals near you")];
    let app = app_with(msgs, GroupBy::SenderSubject);

    let narrow = stack_pane(&app, MIN_WIDTH, MIN_HEIGHT).join("\n");
    assert!(narrow.contains("Deals"), "sender still drawn: {narrow}");
    assert!(!narrow.contains("Weekend"), "no room for a subject at 80 cols: {narrow}");

    let wide = stack_pane(&app, 160, MIN_HEIGHT).join("\n");
    assert!(
        wide.contains("Weekend deals near you"),
        "the subject earns its place when there is room: {wide}"
    );
}

#[test]
fn the_pane_title_keeps_the_state_the_user_is_changing_at_80_cols() {
    let mut app = alice_and_bob();
    app.sort_by = SortBy::ReadRate;
    app.account_mut().marked.insert("a@x.com".into());

    let title = draw(&app, MIN_WIDTH, MIN_HEIGHT).row(1);
    // each key changes one of these — all three must stay legible
    assert!(title.contains("sender"), "group-by lost: {title:?}");
    assert!(title.contains("read rate"), "sort lost: {title:?}");
    assert!(title.contains('1'), "marked count lost: {title:?}");
    let inner: String = title.chars().skip(1).take(34).collect();
    assert!(
        !inner.contains('┐') || inner.ends_with('┐'),
        "title overran the pane: {title:?}"
    );

    // given room, the labels and the message total come back
    let wide = draw(&app, 200, MIN_HEIGHT).row(1);
    for part in ["msgs", "by sender", "sort read rate", "1 marked"] {
        assert!(wide.contains(part), "{part:?} missing at 200 cols: {wide:?}");
    }
}

#[test]
fn an_80_col_terminal_shows_every_hint_across_the_two_chrome_rows() {
    let app = test_app();

    let f = footer(&app, 80);
    for hint in ["j/k move", "Space mark", "d trash", "r read", "u unsub"] {
        assert!(f.contains(hint), "{hint:?} missing from footer {f:?}");
    }
    assert!(f.ends_with("? keys"));

    let status = status_row(&app);
    for hint in ["m more", "g group", "s sort", "Tab acct"] {
        assert!(status.contains(hint), "{hint:?} missing from status {status:?}");
    }
}

#[test]
fn the_footer_never_overflows_and_never_loses_the_way_to_the_help() {
    let app = test_app();
    // below MIN_WIDTH the resize gate owns the screen, so 80 is the floor
    for width in [MIN_WIDTH, 90, 120, 200] {
        let f = footer(&app, width);
        assert!(f.chars().count() <= width as usize, "footer overflows {width} cols: {f:?}");
        // truncation happens between hints, never inside one
        assert!(f.ends_with("? keys"), "at {width}: {f:?}");
    }
    let narrow = text_of(&help_spans(&app, 30, false).unwrap());
    assert_eq!(narrow, " j/k move  ? keys", "whole hints go, the way back stays");
}

#[test]
fn hints_are_dropped_whole_when_the_budget_runs_out() {
    let hints = [("j/k", "move"), ("d", "trash"), ("u", "unsub")];
    let text = |max| text_of(&hint_spans(&hints, max));

    assert_eq!(text(usize::MAX), "j/k move  d trash  u unsub");
    assert_eq!(text(hint_width(hints[0]) + hint_width(hints[1])), "j/k move  d trash");
    assert_eq!(text(hint_width(hints[0])), "j/k move");
    assert_eq!(text(0), "", "no room means no hints, not half a hint");
}

#[test]
fn view_hints_yield_the_status_row_to_a_prompt() {
    let mut app = test_app();
    assert!(status_row(&app).contains("g group"));

    app.mode = Mode::Filter;
    app.filter = "doordash".into();
    let row = status_row(&app);
    assert!(row.starts_with("filter: doordash"));
    assert!(!row.contains("g group"), "prompt owns the row: {row:?}");
}

#[test]
fn a_wide_status_leaves_fewer_hints() {
    let mut app = test_app();
    let area = Rect { x: 0, y: 22, width: 80, height: 1 };
    let hints = |app: &App| status_hints(app, area, false).map(|(r, s)| (r, text_of(&s)));
    let (r, text) = hints(&app).unwrap();
    assert_eq!(text, "m more  g group  s sort  Tab acct");
    assert_eq!((r.x, r.width), (80 - 33 - 1, 33));
    let placed = place_hints(&app, area, false, 10).unwrap();
    assert_eq!((placed.0.x, text_of(&placed.1)), (73, "m more".to_string()));
    assert!(place_hints(&app, area, true, 80).is_none());
    // a wide character takes two columns
    app.status = "日".repeat(30);
    assert_eq!(hints(&app).unwrap().1, "m more  g group");
    app.status = "x".repeat(80);
    assert!(hints(&app).is_none());
}

#[test]
fn question_mark_opens_an_overlay_with_the_bindings_the_footer_drops() {
    let mut app = test_app();
    assert!(!render(&app, 80, 24).contains("unsubscribe"));

    app.mode = Mode::Help;
    let frame = render(&app, 80, 24);
    assert!(frame.contains("unsubscribe"), "overlay lists every binding");
    assert!(frame.contains("any key to close"));
}

/// the loaded set is a recency window, so a title reporting only what is
/// loaded says "412" whether the mailbox holds 412 messages or 137,482
#[test]
fn the_pane_title_reports_the_mailbox_total_not_the_loaded_count() {
    let mut app = alice();
    app.account_mut().total = 137_482;
    app.account_mut().back = 5_000;
    app.account_mut().reached_end = false;

    let title = draw(&app, 200, MIN_HEIGHT).row(1);
    assert!(title.contains("1 of 137,482 msgs"), "loaded-of-total lost: {title:?}");
}

#[test]
fn the_pane_title_tells_a_window_from_the_whole_mailbox() {
    let mut app = alice();
    app.account_mut().total = 3_120;
    assert_eq!(pane_title(&app, 200), " stacks (1) · all 3,120 msgs · by sender · sort count ");
    app.account_mut().reached_end = false;
    assert_eq!(
        pane_title(&app, 200),
        " stacks (1) · newest 1 of 3,120 msgs · by sender · sort count "
    );
    assert_eq!(pane_title(&app, 50), " stacks (1) · 1/3,120 · by sender · sort count ");
    assert_eq!(pane_title(&app, 40), " stacks (1) · 1/3,120 · sender · count ");
    assert_eq!(pane_title(&app, 35), " stacks (1) · sender · count ");
    app.account_mut().marked.insert("a@x.com".into());
    assert_eq!(pane_title(&app, 31), " 1 · sender · count · 1 marked ");
    assert_eq!(pane_title(&app, 3), " 1 · sender · count · 1▌ ");
    app.filter = "ali".into();
    assert_eq!(pane_title(&app, 200), " stacks (1) · filter: ali · 1 marked ");
    assert_eq!(pane_title(&app, 25), " (1) /ali · 1 marked ");
    assert_eq!(pane_title(&app, 3), " (1) /ali · 1▌ ");
}

#[test]
fn a_refused_senders_count_is_marked_short_rather_than_read_as_the_truth() {
    let mut app = alice_and_bob();
    app.account_mut().partial_senders.insert("a@x.com".into());

    let rows = stack_pane(&app, MIN_WIDTH, MIN_HEIGHT).join("\n");
    let alice = rows.lines().find(|r| r.contains("Alice")).unwrap();
    let bob = rows.lines().find(|r| r.contains("Bob")).unwrap();
    assert!(alice.contains("~1"), "no short-count marker: {alice:?}");
    assert!(!bob.contains('~'), "the others are unmarked: {bob:?}");
}

#[test]
fn the_emptied_stack_pane_says_whether_there_is_more_to_load() {
    let mut app = app_with(vec![], GroupBy::Sender);
    let pane = |app: &App| {
        let rows = stack_pane(app, MIN_WIDTH, MIN_HEIGHT);
        rows.iter().map(|r| r.trim_end()).collect::<Vec<_>>().join(" ")
    };
    app.account_mut().total = 3;
    app.account_mut().reached_end = false;
    assert!(pane(&app).contains("press m to sweep"), "{:?}", pane(&app));
    assert_eq!(empty_state(&app), "all clear — press m to sweep 5,000 more messages");

    app.account_mut().reached_end = true;
    assert!(pane(&app).contains("inbox zero"), "{:?}", pane(&app));
    assert!(!pane(&app).contains("press m to sweep"));

    // a load that never landed is not an empty inbox
    app.account_mut().loaded = false;
    assert!(pane(&app).contains("press R"), "{:?}", pane(&app));
    app.loading = true;
    assert!(pane(&app).contains("loading"), "{:?}", pane(&app));
}

#[test]
fn an_empty_list_under_a_filter_blames_the_filter() {
    let mut app = alice();
    app.filter = "nobody".into();
    assert_eq!(empty_state(&app), "nothing matches the filter — Esc to clear it");
}

#[test]
fn a_running_sweep_takes_down_the_hints_for_the_keys_it_refuses() {
    let mut app = alice();
    assert!(footer(&app, 80).contains("trash"));
    assert!(status_row(&app).contains("m more"));

    app.loading = true;
    assert_eq!(footer(&app, 80), "", "no action keys during a sweep");
    assert!(!status_row(&app).contains("m more"), "nor the view keys: {}", status_row(&app));
}

#[test]
fn session_counters_stay_hidden_until_there_is_something_to_show() {
    let mut app = alice();
    assert_eq!(tab_row(&app, 80), " mailprune   t");

    app.stats.trashed = 12;
    app.stats.archived = 40;
    app.stats.unsubscribed = 3;
    let row = tab_row(&app, 80);
    assert!(row.ends_with("12 trashed · 40 archived · 3 unsubbed"), "{row:?}");
    assert!(row.starts_with(" mailprune "), "the tabs keep their place");
}

#[test]
fn session_counters_abbreviate_before_they_disappear() {
    let stats = SessionStats { trashed: 12, archived: 40, marked_read: 0, unsubscribed: 3 };
    assert_eq!(
        session_counters(&stats, 80).unwrap(),
        "12 trashed · 40 archived · 3 unsubbed",
        "zero-valued counters are omitted"
    );
    assert_eq!(session_counters(&stats, 20).unwrap(), "12d · 40e · 3u");
    assert_eq!(session_counters(&stats, 5), None, "no room means nothing");
    assert_eq!(session_counters(&SessionStats::default(), 80), None);
}

#[test]
fn six_figure_totals_are_grouped() {
    assert_eq!(commas(0), "0");
    assert_eq!(commas(412), "412");
    assert_eq!(commas(1_000), "1,000");
    assert_eq!(commas(137_482), "137,482");
}

#[test]
fn larger_totals_are_grouped_too() {
    assert_eq!(commas(999), "999");
    assert_eq!(commas(1_000_001), "1,000,001");
    assert_eq!(commas(u32::MAX as usize), "4,294,967,295");
}

/// every box-drawing corner in a rendered frame
fn corners(app: &App, w: u16, h: u16) -> Vec<(u16, u16)> {
    let screen = draw(app, w, h);
    let mut found = Vec::new();
    for y in 0..h {
        for x in 0..w {
            if matches!(screen.at(x, y).0, '┌' | '┘') {
                found.push((x, y));
            }
        }
    }
    found
}

/// Where the alert sits, found by diffing against the same frame with the
/// alert taken down — the corners it adds are the box. Nothing here reads the
/// layout constants, so the geometry assertions are not circular.
fn alert_rect(app: &mut App, w: u16, h: u16) -> Rect {
    let with = corners(app, w, h);
    let mode = std::mem::replace(&mut app.mode, Mode::Normal);
    let alert = app.alert.take();
    let without = corners(app, w, h);
    app.mode = mode;
    app.alert = alert;

    let added: Vec<(u16, u16)> = with.into_iter().filter(|c| !without.contains(c)).collect();
    let tl = *added.iter().min_by_key(|(x, y)| (*y, *x)).expect("the alert drew no box");
    let br = *added.iter().max_by_key(|(x, y)| (*y, *x)).expect("the alert drew no box");
    Rect { x: tl.0, y: tl.1, width: br.0 - tl.0 + 1, height: br.1 - tl.1 + 1 }
}

/// the alert box's own rows, joined — nothing of the app behind it
fn alert_at(app: &mut App, w: u16, h: u16) -> String {
    let r = alert_rect(app, w, h);
    let screen = draw(app, w, h);
    (r.y..r.y + r.height)
        .map(|y| (r.x..r.x + r.width).map(|x| screen.at(x, y).0).collect::<String>())
        .collect::<Vec<_>>()
        .join("\n")
}

fn alert(app: &mut App) -> String {
    alert_at(app, 100, 30)
}

fn sweeping(swept: usize, stacks: usize) -> Alert {
    Alert::Sweeping {
        starting: "connecting to me@x.com…".into(),
        progress: Some(SweepProgress { swept, bound: 5_000, stacks }),
    }
}

fn spinners() -> Vec<&'static str> {
    (0..10).map(spinner_frame).collect()
}

#[test]
fn the_three_alert_states_share_one_frame_in_one_position() {
    let mut app = alice();

    /// one state, and what it says
    struct Case {
        title: &'static str,
        headline: &'static str,
        hint: &'static str,
        set: fn(&mut App),
    }
    let states = [
        Case {
            title: "sweeping",
            headline: "3,000 of 5,000 · 41 stacks",
            hint: "q quit",
            set: |app| {
                app.loading = true;
                app.mode = Mode::Normal;
                app.alert = Some(sweeping(3_000, 41));
            },
        },
        Case {
            title: "sweep failed",
            headline: "stopped at 2,400 of 5,000",
            hint: "m retry · any key to continue",
            set: |app| {
                app.loading = false;
                app.mode = Mode::Normal;
                app.alert = Some(Alert::Failed("stopped at 2,400 of 5,000".into()));
            },
        },
        Case {
            title: "confirm",
            headline: "trash 1 message from Alice?",
            hint: "y yes · n no",
            set: |app| {
                app.loading = false;
                app.alert = None;
                app.mode = Mode::Confirm(PendingAction::Trash { stack_idxs: vec![0] });
            },
        },
    ];

    let mut geometry = Vec::new();
    for Case { title, headline, hint, set } in states {
        set(&mut app);
        let frame = alert(&mut app);
        assert!(frame.contains(title), "no title {title:?} in\n{frame}");
        assert!(frame.contains(headline), "no headline in\n{frame}");
        assert!(frame.contains(hint), "no hint in\n{frame}");
        geometry.push(alert_rect(&mut app, 100, 30));
    }
    assert_eq!(geometry[0], geometry[1], "sweeping vs failed moved the box");
    assert_eq!(geometry[0], geometry[2], "the confirm moved the box");
    assert_eq!(geometry[0].width, ALERT_W);
    assert_eq!(geometry[0].height, ALERT_H);
}

#[test]
fn only_the_sweeping_alert_carries_a_progress_bar() {
    let mut app = alice();
    app.loading = true;
    app.alert = Some(sweeping(2_500, 20));
    let sweeping_box = alert(&mut app);
    assert!(sweeping_box.contains('█'), "no bar:\n{sweeping_box}");
    assert!(sweeping_box.contains('░'), "no remainder:\n{sweeping_box}");

    app.loading = false;
    app.alert = Some(Alert::Failed("stopped at 2,400 of 5,000".into()));
    let failed = alert(&mut app);
    assert!(!failed.contains('█'), "a failure has no progress:\n{failed}");
}

#[test]
fn the_spinner_keeps_turning_next_to_the_bar() {
    let mut app = alice();
    app.loading = true;
    app.alert = Some(sweeping(3_000, 41));

    let first = alert(&mut app);
    app.tick_spinner();
    let second = alert(&mut app);
    assert_ne!(first, second, "the spinner frame did not advance");
    assert!(
        spinners().iter().any(|s| first.contains(s)),
        "no spinner beside the bar:\n{first}"
    );
}

#[test]
fn the_alert_spins_before_the_first_chunk_gives_it_a_bar() {
    let mut app = app_with(vec![], GroupBy::Sender);
    app.loading = true;
    app.alert = Some(Alert::Sweeping {
        starting: "connecting to me@x.com…".into(),
        progress: None,
    });

    let first = alert(&mut app);
    app.tick_spinner();
    assert!(!first.contains('█'), "no bar yet:\n{first}");
    assert!(
        spinners().iter().any(|s| first.contains(s)),
        "a barless sweep must still move:\n{first}"
    );
    assert_ne!(first, alert(&mut app), "the frame did not advance");
}

#[test]
fn the_alert_holds_still_when_it_is_waiting_on_the_user() {
    let mut app = alice();
    for state in ["failed", "confirm"] {
        if state == "failed" {
            app.alert = Some(Alert::Failed("stopped at 2,400 of 5,000".into()));
        } else {
            app.alert = None;
            app.mode = Mode::Confirm(PendingAction::Trash { stack_idxs: vec![0] });
        }
        let before = alert(&mut app);
        app.tick_spinner();
        assert_eq!(before, alert(&mut app), "{state} should not spin");
        assert!(
            !spinners().iter().any(|s| before.contains(s)),
            "{state} has no spinner:\n{before}"
        );
    }
}

#[test]
fn an_action_in_flight_keeps_its_spinner_on_the_status_row() {
    let mut app = alice();
    app.status = "trashing 400 messages…".into();
    assert_eq!(status_text(&app), "trashing 400 messages…");

    app.busy = true;
    let spun = status_text(&app);
    assert!(spun.ends_with("trashing 400 messages…"), "{spun:?}");
    assert!(
        spinners().iter().any(|s| spun.starts_with(s)),
        "nothing on screen moves during a trash: {spun:?}"
    );
    app.tick_spinner();
    assert_ne!(spun, status_text(&app), "the frame advances");
}

#[test]
fn the_first_sweep_draws_the_alert_at_full_size_over_an_empty_stack_pane() {
    let mut app = app_with(vec![], GroupBy::Sender);
    app.accounts[0].loaded = false;
    app.loading = true;
    app.alert = Some(Alert::Sweeping {
        starting: "connecting to me@x.com…".into(),
        progress: None,
    });

    let rect = alert_rect(&mut app, 100, 30);
    assert_eq!((rect.width, rect.height), (ALERT_W, ALERT_H), "box shrank");
    let frame = alert(&mut app);
    assert!(
        frame.contains("connecting to me@x.com…"),
        "before the first chunk the alert still says what it is doing:\n{frame}"
    );
}

#[test]
fn the_alert_still_fits_at_80x24() {
    let mut app = alice();
    app.loading = true;
    app.alert = Some(sweeping(3_000, 41));

    let rect = alert_rect(&mut app, MIN_WIDTH, MIN_HEIGHT);
    assert_eq!(rect.height, ALERT_H, "the box lost rows at 80x24");
    assert!(
        rect.x + rect.width <= MIN_WIDTH && rect.y + rect.height <= MIN_HEIGHT,
        "the box ran off an 80x24 screen: {rect:?}"
    );
    let frame = alert_at(&mut app, MIN_WIDTH, MIN_HEIGHT);
    assert!(frame.contains("3,000 of 5,000 · 41 stacks"), "{frame}");
    assert!(frame.contains("q quit"), "{frame}");
}

/// the style of every cell outside `r`
fn outside(app: &App, r: Rect) -> Vec<Style> {
    let screen = draw(app, 100, 30);
    let mut styles = Vec::new();
    for y in 0..30 {
        for x in 0..100 {
            let inside = x >= r.x && x < r.x + r.width && y >= r.y && y < r.y + r.height;
            if !inside {
                styles.push(screen.at(x, y).1);
            }
        }
    }
    styles
}

/// the same cells with nothing in the alert slot — the baseline the repaint is
/// measured against
fn undisturbed(app: &mut App, r: Rect) -> Vec<Style> {
    let alert = app.alert.take();
    let styles = outside(app, r);
    app.alert = alert;
    styles
}

#[test]
fn the_screen_behind_the_alert_is_greyed_by_colour_not_by_the_dim_bit() {
    let mut app = alice();
    app.loading = true;
    app.alert = Some(sweeping(3_000, 41));
    let r = alert_rect(&mut app, 100, 30);

    // a style has no dim bit to set: the colour is the whole mechanism
    let behind = outside(&app, r);
    assert!(
        behind.iter().all(|s| s.fg == Some(Color::DarkGray)),
        "something behind the alert kept its own colour"
    );
    assert_ne!(behind, undisturbed(&mut app, r), "nothing was repainted");
}

#[test]
fn no_color_drops_the_dimming_and_the_alerts_colour() {
    let mut app = alice();
    app.no_color = true;
    app.loading = true;
    app.alert = Some(sweeping(3_000, 41));
    let r = alert_rect(&mut app, 100, 30);

    assert_eq!(
        outside(&app, r),
        undisturbed(&mut app, r),
        "NO_COLOR must leave what is behind the alert exactly as it was"
    );

    let frame = alert(&mut app);
    assert!(frame.contains("sweeping"), "the box is still there:\n{frame}");
    assert!(frame.contains("3,000 of 5,000 · 41 stacks"), "{frame}");

    // and the box itself carries no colour of its own
    let screen = draw(&app, 100, 30);
    let border: Vec<Style> = (r.x..r.x + r.width).map(|x| screen.at(x, r.y).1).collect();
    assert!(
        border.iter().all(|s| s.fg.is_none_or(|c| c == Color::Reset)),
        "the border kept a colour under NO_COLOR: {border:?}"
    );
}

#[test]
fn an_alert_takes_down_the_hint_rows_for_the_keys_it_swallows() {
    let mut app = alice();
    assert!(footer(&app, 80).contains("trash"));
    assert!(status_row(&app).contains("m more"));

    // a failed sweep is not `loading`, so only the alert can take them down
    app.alert = Some(Alert::Failed("stopped at 2,400 of 5,000".into()));
    assert_eq!(footer(&app, 80), "", "no action keys under the alert");
    assert!(!status_row(&app).contains("m more"), "nor the view keys");

    app.alert = None;
    app.mode = Mode::Confirm(PendingAction::Trash { stack_idxs: vec![0] });
    assert_eq!(footer(&app, 80), "", "nor under a confirm");
}

#[test]
fn the_status_row_keeps_only_its_idle_text() {
    let mut app = alice();
    app.status = "me@x.com: 1 of 1 messages in 1 stacks".into();
    assert_eq!(status_text(&app), "me@x.com: 1 of 1 messages in 1 stacks");

    // a sweep's spinner is the alert's; the row keeps only its own text
    app.loading = true;
    app.alert = Some(sweeping(3_000, 41));
    assert_eq!(status_text(&app), "me@x.com: 1 of 1 messages in 1 stacks");

    app.loading = false;
    app.alert = None;
    app.mode = Mode::Confirm(PendingAction::Trash { stack_idxs: vec![0] });
    let row = status_row(&app);
    assert!(!row.contains("[y/n]"), "the confirm moved too: {row:?}");
    assert!(!row.contains("g group"), "a prompt still owns the row");
}

#[test]
fn a_row_shows_mark_count_rate_badge_and_name() {
    let mut m = msg(1, "d@x.com", "DoorDash", "s");
    m.unread = true;
    m.list_unsubscribe = Some("<https://d.com>".into());
    let mut app = app_with(vec![m], GroupBy::Sender);
    let row = |app: &App| text_of(&stack_row(app.account(), &app.account().stacks[0], 34));
    assert_eq!(row(&app), "    1   0% U DoorDash (1 new)");
    app.account_mut().marked.insert("d@x.com".into());
    assert_eq!(row(&app), "▌   1   0% U DoorDash (1 new)");
    let spans = stack_row(app.account(), &app.account().stacks[0], 34);
    assert_eq!(spans[3].style, Style::fg(Color::Red));
    assert_eq!(spans[7].style, Style::bold_fg(Color::Cyan));
    app.account_mut().stacks[0].display_name = "Medium Daily Digest of Everything".into();
    assert_eq!(row(&app), "▌   1   0% U Medium Daily… (1 new)");
    for width in [22, 34, 60, 90] {
        let spans = stack_row(app.account(), &app.account().stacks[0], width);
        assert!(text_of(&spans).chars().count() <= width, "a row never overflows its pane");
    }
}

#[test]
fn the_message_pane_names_its_stack_and_the_way_out() {
    let mut m = msg(1, "D@x.com", "DoorDash", "s");
    m.list_unsubscribe = Some("<https://d.com>".into());
    m.one_click = true;
    let app = app_with(vec![m, msg(2, "b@x.com", "Bob", "s")], GroupBy::Sender);
    assert_eq!(
        detail_title(&app.account().stacks[0]),
        " DoorDash <d@x.com> · unsub: one-click POST "
    );
    assert_eq!(detail_title(&app.account().stacks[1]), " Bob <b@x.com> ");
}

#[test]
fn today_shows_the_time_and_other_days_the_date() {
    let d = |year, month, day| LocalTime { year, month, day, hour: 9, minute: 5 };
    assert_eq!(fmt_date(d(2026, 6, 1), NOON), "09:05     ");
    assert_eq!(fmt_date(d(2026, 5, 1), NOON), "2026-05-01");
    assert_eq!(fmt_date(d(987, 12, 31), NOON), "0987-12-31");
    assert_eq!(fmt_date(d(12_345, 1, 2), NOON), "+12345-01-02");
    assert_eq!(fmt_date(d(-44, 3, 15), NOON), "-0044-03-15");
}

#[test]
fn an_undated_unread_message_has_a_dot_and_no_date() {
    let mut m = msg(1, "a@x.com", "A", "hello");
    m.unread = true;
    let row = detail_row(&m, None, NOON, NOW);
    assert_eq!(text_of(&row), "           ● hello");
    assert!(row[4].style.bold && !row[0].style.bold);
}

#[test]
fn text_is_cut_with_an_ellipsis() {
    assert_eq!(truncate("hello", 5), "hello");
    assert_eq!(truncate("hello!", 5), "hell…");
    assert_eq!(truncate("hello", 1), "…");
    assert_eq!(truncate("hello", 0), "…");
    assert_eq!(truncate("", 0), "");
}

#[test]
fn the_first_candidate_that_fits_is_taken() {
    let c = ["wide one".to_string(), "mid".to_string(), "s".to_string()];
    assert_eq!(first_that_fits(&c, 80), "wide one");
    assert_eq!(first_that_fits(&c, 5), "mid");
    assert_eq!(first_that_fits(&c, 0), "s");
}

#[test]
fn a_bar_fills_in_proportion() {
    assert_eq!(progress_bar(0, 10, 4), "░░░░");
    assert_eq!(progress_bar(5, 10, 4), "██░░");
    assert_eq!(progress_bar(10, 10, 4), "████");
    assert_eq!(progress_bar(99, 10, 4), "████");
    assert_eq!(progress_bar(3, 0, 4), "████");
}

#[test]
fn a_box_is_centred_and_shrunk_to_fit() {
    let area = Rect { x: 2, y: 3, width: 100, height: 30 };
    let r = centered(area, 60, 6);
    assert_eq!((r.x, r.y, r.width, r.height), (22, 15, 60, 6));
    let r = centered(area, 200, 99);
    assert_eq!(r, area);
}

#[test]
fn the_rows_on_screen_are_those_from_the_offset_on() {
    let rows = vec![4, 7, 8, 9];
    assert_eq!(on_screen(&rows, 1, 2), [7, 8]);
    assert_eq!(on_screen(&rows, 2, 9), [8, 9]);
    assert_eq!(on_screen(&rows, 4, 2), Vec::<usize>::new());
    assert_eq!(highlighted(1, 4), 1);
    assert_eq!(highlighted(9, 4), 3);
}
