use mailprune::action_log::{Action, ActionLog, Record};
use mailprune::config::AccountConfig;
use mailprune::imap_client::{MailError, Sweep, SweepProgress};
use mailprune::session::{
    account_counts, account_heading, apply, on_job_lost, quit, session_report, stack_line,
    QuitStep, Source,
};
use mailprune::stacks::{build_stacks, GroupBy, MsgMeta, SortBy};
use mailprune::ui::app::{
    color_off, AccountView, Alert, App, ImapKind, Load, Mode, PendingAction, SessionStats, TaskDone,
    TaskMsg, Unreadable,
};
use mailprune::ui::jobs::{Ask, Gather, Job, LoadAsk, LoadRun, UnsubJob, UnsubRun};
use mailprune::ui::keys::{Event, KeyCode, KeyEvent, KeyEventKind, KeyModifiers};
use mailprune::unsubscribe::Method;

fn msg(uid: u32, sender: &str, subject: &str) -> MsgMeta {
    MsgMeta {
        uid,
        sender_email: sender.into(),
        sender_name: String::new(),
        subject: subject.into(),
        date: None,
        unread: true,
        list_unsubscribe: None,
        one_click: false,
    }
}

/// two senders, two subjects each — so regrouping actually changes the stack
/// set rather than being a no-op
fn test_msgs() -> Vec<MsgMeta> {
    vec![
        msg(1, "a@x.com", "one"),
        msg(2, "a@x.com", "two"),
        msg(3, "b@x.com", "one"),
        msg(4, "b@x.com", "two"),
    ]
}

fn cfg(name: &str, email: &str) -> AccountConfig {
    AccountConfig {
        name: name.into(),
        email: email.into(),
        imap_host: "imap".into(),
        smtp_host: "smtp".into(),
    }
}

fn test_app() -> App {
    let log = ActionLog::at("actions.jsonl".into());
    let mut app = App::new(vec![cfg("t", "me@x.com")], log, None);
    app.group_by = GroupBy::Sender;
    app.accounts[0].stacks = build_stacks(test_msgs(), GroupBy::Sender, SortBy::Count);
    app.accounts[0].total = 4;
    app.accounts[0].back = 4;
    app.accounts[0].reached_end = true;
    app.accounts[0].loaded = true;
    app
}

/// a window that read `swept` of `bound` and came back with `msgs`
fn window(msgs: Vec<MsgMeta>, total: usize, bound: usize, swept: usize) -> Sweep {
    Sweep { msgs, total, anchored: true, bound, swept, reached_end: swept == total }
}

fn swept(kind: Load, sweep: Sweep, result: Result<(), MailError>) -> TaskDone {
    TaskDone::Swept { acct_idx: 0, connected: false, password: None, kind, sweep, result }
}

fn read_records(app: &mut App) -> Vec<Record> {
    app.log.take_pending()
}

fn stack_idx(app: &App, key: &str) -> usize {
    app.accounts[0].stacks.iter().position(|s| s.key == key).unwrap()
}

fn press(app: &mut App, code: KeyCode) -> Option<Job> {
    app.handle_normal(KeyEvent::new(code, KeyModifiers::Plain))
}

fn send(app: &mut App, code: KeyCode, mods: KeyModifiers) -> Option<Job> {
    app.handle_event(Event::Key(KeyEvent::new(code, mods)))
}

#[test]
fn keeps_are_seen_minus_acted() {
    let mut app = test_app();
    app.record_seen(&[0, 1]);
    // re-sighting must not overwrite the first snapshot
    app.record_seen(&[0]);
    let a = stack_idx(&app, "a@x.com");
    app.log_action(Action::Trash, &[a]);
    app.flush_keeps();

    let recs = read_records(&mut app);
    assert_eq!(recs.len(), 2);
    assert_eq!(recs[0].action, Action::Trash);
    assert_eq!(recs[0].stack.sender, "a@x.com");
    assert_eq!(recs[1].action, Action::Keep);
    assert_eq!(recs[1].stack.sender, "b@x.com");
}

/// regrouping rebuilds the stacks under new keys. Without clearing `seen`, the
/// same messages are logged as "keep" once per grouping.
#[test]
fn regrouping_does_not_double_log_keeps() {
    let mut app = test_app();
    app.record_seen(&[0, 1]);

    app.regroup(GroupBy::SenderSubject);
    let all: Vec<usize> = (0..app.account().stacks.len()).collect();
    assert_eq!(all.len(), 4, "one stack per sender+subject pair");
    app.record_seen(&all);
    app.flush_keeps();

    let recs = read_records(&mut app);
    assert!(recs.iter().all(|r| r.action == Action::Keep));
    assert_eq!(recs.len(), 4, "only the current grouping is reported");
    assert!(recs.iter().all(|r| r.stack.group_by == "sender+subject"));
    let order: Vec<(&str, &str)> = recs
        .iter()
        .map(|r| (r.stack.sender.as_str(), r.stack.subject.as_deref().unwrap()))
        .collect();
    assert_eq!(
        order,
        [("a@x.com", "one"), ("a@x.com", "two"), ("b@x.com", "one"), ("b@x.com", "two")]
    );
}

/// `acted` is uid-keyed, so a decision made under one grouping still
/// suppresses the "keep" for those messages under another.
#[test]
fn acting_then_regrouping_does_not_relabel_as_keep() {
    let mut app = test_app();
    app.record_seen(&[0, 1]);
    // marking read leaves the stack in place, unlike trash/archive
    let a = stack_idx(&app, "a@x.com");
    app.log_action(Action::Read, &[a]);

    app.regroup(GroupBy::SenderSubject);
    let all: Vec<usize> = (0..app.account().stacks.len()).collect();
    app.record_seen(&all);
    app.flush_keeps();

    let recs = read_records(&mut app);
    assert_eq!(recs[0].action, Action::Read);
    let keeps: Vec<&Record> = recs.iter().filter(|r| r.action == Action::Keep).collect();
    assert_eq!(keeps.len(), 2, "only b@x.com's two subject stacks");
    assert!(keeps.iter().all(|r| r.stack.sender == "b@x.com"));
}

#[test]
fn unsub_done_logs_chains_trash_prompt_and_clears_busy() {
    let mut app = test_app();
    app.busy = true;
    app.on_task_done(TaskDone::Unsub {
        stack_idxs: vec![0, 1],
        ok_idxs: vec![0],
        failed: 1,
        last: "x".into(),
    });
    assert!(!app.busy);
    assert_eq!(app.stats.unsubscribed, 1);
    assert!(matches!(app.mode, Mode::Confirm(PendingAction::TrashAfterUnsub { .. })));
    assert_eq!(app.status, "unsubscribed 1/2 stacks (last: x)");
    let recs = read_records(&mut app);
    assert_eq!(recs.len(), 1); // only the successful unsub is logged
    assert_eq!(recs[0].action, Action::Unsub);
}

#[test]
fn a_completed_sweep_builds_the_whole_list_at_once() {
    let mut app = test_app();
    app.accounts[0].stacks.clear();
    app.accounts[0].loaded = false;
    app.accounts[0].total = 0;
    app.accounts[0].back = 0;
    app.accounts[0].reached_end = false;
    app.busy = true;

    // b@ has one message and a@ two, handed over in that order: a sorted list
    // proves the completion sort ran rather than arrival order surviving
    app.on_task_done(swept(
        Load::Reset,
        window(
            vec![msg(3, "b@x.com", "one"), msg(1, "a@x.com", "one"), msg(2, "a@x.com", "two")],
            4,
            4,
            4,
        ),
        Ok(()),
    ));

    assert!(!app.busy);
    assert!(!app.in_flight);
    assert!(app.accounts[0].loaded);
    assert_eq!(app.accounts[0].inbox_total(), 4, "the total is EXISTS");
    assert_eq!(app.accounts[0].back, 4, "the window reaches what it swept");
    assert!(app.accounts[0].exhausted(), "the sweep hit the oldest message");
    let keys: Vec<&str> = app.accounts[0].stacks.iter().map(|s| s.key.as_str()).collect();
    assert_eq!(keys, ["a@x.com", "b@x.com"], "sorted by count");
    assert!(app.status.contains("3 of 4 messages"), "status: {}", app.status);
}

#[test]
fn m_folds_the_new_window_into_the_stacks_already_on_screen() {
    let mut app = test_app();

    // one more from a@, and a sender nobody has seen yet
    app.on_task_done(swept(
        Load::More,
        window(vec![msg(5, "a@x.com", "three"), msg(9, "c@x.com", "hi")], 9, 2, 2),
        Ok(()),
    ));

    let acct = &app.accounts[0];
    assert_eq!(acct.back, 6, "the window reaches four deeper than before");
    let counts: Vec<(&str, usize)> =
        acct.stacks.iter().map(|s| (s.key.as_str(), s.msgs.len())).collect();
    assert_eq!(
        counts,
        [("a@x.com", 3), ("b@x.com", 2), ("c@x.com", 1)],
        "a@ grew inside its own stack and the list re-sorted"
    );
    assert_eq!(acct.window(), 6);
    assert_eq!(acct.loaded_messages(), 6);
}

#[test]
fn a_message_swept_twice_lands_in_the_stack_once() {
    let mut app = test_app();

    app.on_task_done(swept(
        Load::More,
        window(vec![msg(1, "a@x.com", "one")], 4, 1, 1),
        Ok(()),
    ));

    let a = stack_idx(&app, "a@x.com");
    assert_eq!(app.accounts[0].stacks[a].msgs.len(), 2, "still uids 1 and 2");
}

#[test]
fn a_partial_sender_marks_only_its_own_stack() {
    let mut app = test_app();
    app.accounts[0].partial_senders.insert("b@x.com".into());

    let acct = &app.accounts[0];
    let b = &acct.stacks[stack_idx(&app, "b@x.com")];
    assert!(acct.is_partial(b));
    assert!(
        !acct.is_partial(&acct.stacks[stack_idx(&app, "a@x.com")]),
        "the others are unaffected"
    );
}

#[test]
fn a_short_window_keeps_its_stacks_and_leaves_the_remainder_for_m() {
    let mut app = test_app();
    app.accounts[0].back = 0;
    app.accounts[0].reached_end = false;
    app.busy = true;

    app.on_task_done(swept(
        Load::More,
        window(vec![msg(9, "c@x.com", "hi")], 5_000, 5_000, 2_400),
        Err(MailError::new("NO [CANNOT] fetch")),
    ));

    assert!(!app.busy);
    let acct = &app.accounts[0];
    assert_eq!(acct.back, 2_400, "m picks up where the sweep stopped");
    assert!(!acct.exhausted(), "there is more mailbox behind the hole");
    assert_eq!(acct.stacks.len(), 3, "the stacks that landed stay");
    assert!(app.status.contains("stopped at 2,400 of 5,000"), "status: {}", app.status);
    assert_eq!(
        app.status,
        "sweep stopped at 2,400 of 5,000 — press m to retry (NO [CANNOT] fetch)"
    );
}

#[test]
fn a_window_that_lost_every_chunk_still_reports_how_far_it_got() {
    let mut app = test_app();
    app.accounts[0].back = 0;
    app.accounts[0].reached_end = false;

    app.on_task_done(swept(
        Load::More,
        window(vec![], 5_000, 5_000, 0),
        Err(MailError::new("NO [CANNOT] fetch")),
    ));

    assert_eq!(app.accounts[0].back, 0, "nothing was swept");
    assert!(app.status.contains("stopped at 0 of 5,000"), "status: {}", app.status);
}

#[test]
fn a_stack_that_grew_under_a_widened_window_is_re_snapshotted() {
    let mut app = test_app();
    let a = stack_idx(&app, "a@x.com");
    app.record_seen(&[a]);

    app.on_task_done(swept(
        Load::More,
        window(vec![msg(5, "a@x.com", "three")], 9, 1, 1),
        Ok(()),
    ));
    let a = stack_idx(&app, "a@x.com");
    app.record_seen(&[a]);
    app.flush_keeps();

    let recs = read_records(&mut app);
    let keep = recs.iter().find(|r| r.stack.sender == "a@x.com").unwrap();
    assert_eq!(keep.action, Action::Keep);
    assert_eq!(keep.stack.count, 3, "the keep counts the widened stack");
}

#[test]
fn a_sweep_that_never_started_clears_busy_and_keeps_the_stacks() {
    let mut app = test_app();
    let before = app.accounts[0].stacks.len();
    app.busy = true;
    app.on_task_done(swept(Load::Reset, Sweep::default(), Err(MailError::new("boom"))));
    assert!(!app.busy);
    assert!(!app.accounts[0].connected);
    assert_eq!(app.accounts[0].stacks.len(), before);
    assert_eq!(
        app.accounts[0].total, 4,
        "a sweep that never anchored does not blank the mailbox total"
    );
    assert!(
        app.accounts[0].reached_end,
        "nor does it claim there is more mailbox behind the window"
    );
    assert_eq!(app.accounts[0].back, 4, "nor does it move the window");
    assert!(app.status.starts_with("error:"), "status: {}", app.status);
    assert!(matches!(&app.alert, Some(Alert::Failed(why)) if why == "boom"));
}

#[test]
fn trashing_pulls_the_window_back_by_what_left_the_mailbox() {
    let mut app = test_app();
    app.accounts[0].total = 137_482;
    app.accounts[0].back = 5_000;
    // "a@x.com" holds two of the swept messages
    let a = stack_idx(&app, "a@x.com");
    app.prune_window(&[a], 0);

    assert_eq!(app.accounts[0].total, 137_480);
    assert_eq!(app.accounts[0].back, 4_998);
}

#[test]
fn mail_beyond_the_window_counts_for_the_total_only() {
    let mut app = test_app();
    app.accounts[0].total = 100;
    app.accounts[0].back = 50;
    app.prune_window(&[0], 30);
    assert_eq!((app.accounts[0].total, app.accounts[0].back), (68, 48));
    app.accounts[0].total = 1;
    app.accounts[0].back = 1;
    app.prune_window(&[0], 30);
    assert_eq!((app.accounts[0].total, app.accounts[0].back), (0, 0));
}

#[test]
fn r_discards_the_window_and_sweeps_it_again_from_the_top() {
    let mut app = test_app();
    app.accounts[0].marked.insert("a@x.com".into());
    app.accounts[0].selected = 1;

    let job = press(&mut app, KeyCode::Char('R'));

    let acct = &app.accounts[0];
    assert!(acct.stacks.is_empty(), "the window was discarded");
    assert_eq!(acct.back, 0, "and the next sweep starts at the top");
    assert_eq!(acct.total, 0);
    assert!(!acct.reached_end, "nothing is known about the mailbox yet");
    assert!(!acct.loaded);
    assert_eq!(acct.selected, 0);
    assert!(acct.marked.is_empty());
    assert!(app.loading, "and it is an inert-TUI event like any other sweep");
    assert!(matches!(app.alert, Some(Alert::Sweeping { .. })));
    assert!(matches!(job, Some(Job::Sweep { back: 0, kind: Load::Reset, .. })));
}

#[test]
fn m_at_the_end_of_the_mailbox_says_so_instead_of_reconnecting() {
    let mut app = test_app();
    let job = app.handle_normal(KeyEvent::new(KeyCode::Char('m'), KeyModifiers::Plain));
    assert!(!app.in_flight && job.is_none(), "no sweep was spawned");
    assert!(app.status.contains("no more messages"), "{}", app.status);
}

/// `g` groups, `s` sorts — the two keys whose old names (`s` and `o`) said
/// nothing about what they did
#[test]
fn g_regroups_and_s_resorts() {
    let mut app = test_app();
    assert_eq!(app.group_by, GroupBy::Sender);
    assert_eq!(app.sort_by, SortBy::Count);

    press(&mut app, KeyCode::Char('g'));
    assert_eq!(app.group_by, GroupBy::SenderSubject);
    assert_eq!(
        app.account().stacks.len(),
        4,
        "regrouped, one stack per sender+subject"
    );

    press(&mut app, KeyCode::Char('s'));
    assert_eq!(app.sort_by, SortBy::ReadRate);
    assert!(app.status.contains("read rate"), "{}", app.status);
}

#[test]
fn home_and_end_jump_the_stack_list() {
    let mut app = test_app();
    let last = app.account().stacks.len() - 1;

    press(&mut app, KeyCode::End);
    assert_eq!(app.account().selected, last);
    press(&mut app, KeyCode::Home);
    assert_eq!(app.account().selected, 0);
    // G stays bound for vim muscle memory
    press(&mut app, KeyCode::Char('G'));
    assert_eq!(app.account().selected, last);
}

#[test]
fn enter_and_o_do_nothing() {
    let mut app = test_app();
    press(&mut app, KeyCode::Char('j'));
    let selected = app.account().selected;

    press(&mut app, KeyCode::Enter);
    press(&mut app, KeyCode::Char('o'));

    assert_eq!(app.account().selected, selected, "selection untouched");
    assert_eq!(app.group_by, GroupBy::Sender);
    assert_eq!(app.sort_by, SortBy::Count);
}

#[test]
fn g_is_refused_while_an_action_is_in_flight() {
    let mut app = test_app();
    app.busy = true;

    press(&mut app, KeyCode::Char('g'));
    assert_eq!(app.group_by, GroupBy::Sender, "regroup refused");
    assert!(app.status.starts_with("busy"), "{}", app.status);

    app.status.clear();
    press(&mut app, KeyCode::End);
    assert_eq!(
        app.account().selected,
        app.account().stacks.len() - 1,
        "moving the cursor is still allowed"
    );
    assert!(app.status.is_empty(), "{}", app.status);
}

#[test]
fn spinner_advances_a_frame_at_a_time() {
    let mut app = test_app();
    let before = app.spinner;
    app.tick_spinner();
    assert_eq!(app.spinner, before + 1);
    app.spinner = usize::MAX;
    app.tick_spinner();
    assert_eq!(app.spinner, 0);
}

#[test]
fn tab_to_a_loaded_account_restates_its_summary() {
    let mut app = test_app();
    let mut second = AccountView::new(cfg("other", "other@x.com"));
    second.stacks = build_stacks(vec![msg(9, "c@x.com", "hi")], GroupBy::Sender, SortBy::Count);
    second.total = 1;
    second.back = 1;
    second.loaded = true;
    app.accounts.push(second);
    app.status = "me@x.com: 4 of 4 messages in 2 stacks".into();

    app.handle_normal(KeyEvent::new(KeyCode::Tab, KeyModifiers::Plain));

    assert_eq!(app.active, 1);
    assert_eq!(app.status, "other@x.com: 1 of 1 messages in 1 stacks");
}

#[test]
fn tab_to_an_account_not_yet_read_sweeps_it() {
    let mut app = test_app();
    app.accounts.push(AccountView::new(cfg("other", "other@x.com")));
    app.filter = "a@".into();
    let job = press(&mut app, KeyCode::Tab);
    assert_eq!((app.active, app.filter.as_str()), (1, ""));
    assert!(matches!(job, Some(Job::Sweep { acct_idx: 1, kind: Load::Reset, .. })));
    assert_eq!(app.status, "connecting to other@x.com…");
}

#[test]
fn a_summary_groups_its_digits() {
    let mut app = test_app();
    app.accounts[0].total = 137_482;
    assert_eq!(app.account_summary(0), "me@x.com: 4 of 137,482 messages in 2 stacks");
}

#[test]
fn mutating_keys_while_busy_say_why() {
    let mut app = test_app();
    app.busy = true;
    app.handle_normal(KeyEvent::new(KeyCode::Char('d'), KeyModifiers::Plain));
    assert!(matches!(app.mode, Mode::Normal), "no confirm prompt opened");
    assert!(app.status.contains("busy"), "status: {}", app.status);
}

#[test]
fn every_key_but_quit_is_refused_while_a_sweep_runs() {
    let mut app = test_app();
    app.accounts[0].selected = 1;
    app.busy = true;
    app.loading = true;
    // whatever the sweep last posted; the refused keys must not touch it
    let progress = app.status.clone();

    for code in [
        KeyCode::Char('k'),
        KeyCode::Char('j'),
        KeyCode::Home,
        KeyCode::Char('?'),
        KeyCode::Char('g'),
        KeyCode::Char('s'),
        KeyCode::Char('/'),
        KeyCode::Char(' '),
        KeyCode::Char('d'),
        KeyCode::Char('m'),
        KeyCode::Char('R'),
        KeyCode::Tab,
    ] {
        assert!(send(&mut app, code, KeyModifiers::Plain).is_none());
    }

    assert!(!app.should_quit);
    assert_eq!(app.accounts[0].selected, 1, "the cursor did not move");
    assert!(matches!(app.mode, Mode::Normal), "no mode was entered");
    assert_eq!(app.group_by, GroupBy::Sender);
    assert_eq!(app.sort_by, SortBy::Count);
    assert!(app.account().marked.is_empty());
    assert!(!app.in_flight, "no second sweep was spawned");
    assert_eq!(app.status, progress, "the sweep's own line survives the refused keys");
}

#[test]
fn a_running_sweep_raises_the_alert_that_names_the_live_keys() {
    let mut app = test_app();
    app.accounts[0].loaded = false;
    app.spawn_batch(Load::Reset);
    assert!(app.loading);
    assert!(matches!(app.alert, Some(Alert::Sweeping { .. })));
    assert!(
        !app.status.contains("q quit"),
        "the hint line owns the refusal now: {}",
        app.status
    );
}

#[test]
fn q_and_ctrl_c_still_quit_during_a_sweep() {
    let mut app = test_app();
    app.loading = true;
    send(&mut app, KeyCode::Char('q'), KeyModifiers::Plain);
    assert!(app.should_quit);

    let mut app = test_app();
    app.loading = true;
    send(&mut app, KeyCode::Char('c'), KeyModifiers::Control);
    assert!(app.should_quit);
}

#[test]
fn a_plain_c_and_a_released_q_do_not_quit() {
    let mut app = test_app();
    send(&mut app, KeyCode::Char('c'), KeyModifiers::Plain);
    app.handle_event(Event::Key(KeyEvent {
        code: KeyCode::Char('q'),
        modifiers: KeyModifiers::Plain,
        kind: KeyEventKind::Release,
    }));
    app.handle_event(Event::Other);
    assert!(!app.should_quit);
}

#[test]
fn selection_follows_its_stack_by_key_across_the_completion_sort() {
    let mut app = test_app();
    let a = stack_idx(&app, "a@x.com");
    app.accounts[0].selected = a;

    // b@ overtakes a@ on count, so the row a@ sits on is no longer a@'s
    app.on_task_done(swept(
        Load::More,
        window(
            vec![msg(6, "b@x.com", "three"), msg(7, "b@x.com", "four"), msg(8, "c@x.com", "hi")],
            9,
            3,
            3,
        ),
        Ok(()),
    ));

    let keys: Vec<&str> = app.accounts[0].stacks.iter().map(|s| s.key.as_str()).collect();
    assert_eq!(keys, ["b@x.com", "a@x.com", "c@x.com"], "the sort moved a@");
    assert_eq!(
        app.accounts[0].selected,
        stack_idx(&app, "a@x.com"),
        "the cursor followed a@ rather than holding its row"
    );
}

#[test]
fn selection_follows_its_stack_by_key_under_a_filter_too() {
    let mut app = test_app();
    app.filter = "b@".into();
    app.accounts[0].selected = 0;

    // c@ outranks both, so b@ moves down the unfiltered list
    app.on_task_done(swept(
        Load::More,
        window(
            vec![msg(6, "c@x.com", "one"), msg(7, "c@x.com", "two"), msg(8, "c@x.com", "three")],
            7,
            3,
            3,
        ),
        Ok(()),
    ));

    assert_eq!(stack_idx(&app, "b@x.com"), 2, "b@ is the last stack overall");
    assert_eq!(
        app.accounts[0].selected, 0,
        "but still the only filtered row, so the cursor stays on it"
    );
    assert_eq!(
        app.selected_stack_idx(),
        Some(2),
        "and resolves to b@, not to whatever sits at row 0"
    );
}

#[test]
fn a_reset_puts_the_selection_back_at_the_top() {
    let mut app = test_app();
    app.accounts[0].selected = 1;

    app.on_task_done(swept(
        Load::Reset,
        window(vec![msg(1, "a@x.com", "one"), msg(3, "b@x.com", "one")], 2, 2, 2),
        Ok(()),
    ));

    assert_eq!(app.accounts[0].selected, 0);
}

#[test]
fn a_sweep_reports_its_progress_into_the_alert_as_numbers() {
    let mut app = test_app();
    app.accounts[0].loaded = false;
    app.spawn_batch(Load::Reset);

    let Some(Alert::Sweeping { starting, progress }) = &app.alert else {
        panic!("no sweeping alert: spawn_batch must raise one");
    };
    assert!(starting.contains("me@x.com"), "{starting:?}");
    assert!(progress.is_none(), "nothing has been swept yet");

    app.on_sweep_progress(SweepProgress { swept: 3_000, bound: 5_000, stacks: 41 });
    let Some(Alert::Sweeping { progress: Some(p), .. }) = &app.alert else {
        panic!("progress did not land on the alert");
    };
    assert_eq!((p.swept, p.bound, p.stacks), (3_000, 5_000, 41));
}

#[test]
fn a_short_window_leaves_a_failed_alert_up_until_a_key_dismisses_it() {
    let mut app = test_app();
    app.accounts[0].back = 0;
    app.accounts[0].reached_end = false;
    app.loading = true;
    app.busy = true;

    app.on_task_done(swept(
        Load::More,
        window(vec![], 5_000, 5_000, 2_400),
        Err(MailError::new("NO [CANNOT] fetch")),
    ));

    let Some(Alert::Failed(headline)) = &app.alert else {
        panic!("a stopped sweep must raise the alert, not only a status line");
    };
    assert_eq!(headline, "stopped at 2,400 of 5,000");

    // any key clears it, and does nothing else
    send(&mut app, KeyCode::Char('j'), KeyModifiers::Plain);
    assert!(app.alert.is_none(), "the key dismissed the alert");
    assert_eq!(app.accounts[0].selected, 0, "and was swallowed doing it");
}

#[test]
fn m_on_a_failed_alert_retries_the_remainder_of_the_window() {
    let mut app = test_app();
    app.accounts[0].reached_end = false;
    app.alert = Some(Alert::Failed("stopped at 2,400 of 5,000".into()));

    let job = send(&mut app, KeyCode::Char('m'), KeyModifiers::Plain);

    assert!(app.loading, "m spawned the retry");
    assert!(
        matches!(app.alert, Some(Alert::Sweeping { .. })),
        "and the alert moved on to the sweep it started"
    );
    assert!(matches!(job, Some(Job::Sweep { back: 4, kind: Load::More, .. })));
}

#[test]
fn q_still_quits_from_a_failed_alert() {
    let mut app = test_app();
    app.alert = Some(Alert::Failed("stopped at 0 of 5,000".into()));
    send(&mut app, KeyCode::Char('q'), KeyModifiers::Plain);
    assert!(app.should_quit);
}

#[test]
fn a_completed_sweep_takes_its_alert_down() {
    let mut app = test_app();
    app.alert = Some(Alert::Sweeping {
        starting: "sweeping me@x.com…".into(),
        progress: None,
    });

    app.on_task_done(swept(Load::More, window(vec![msg(9, "c@x.com", "hi")], 9, 1, 1), Ok(())));

    assert!(app.alert.is_none());
}

#[test]
fn the_confirm_prompt_leaves_the_keys_to_the_hint_line() {
    let app = test_app();
    let prompt = PendingAction::Trash { stack_idxs: vec![0] }.prompt(app.account());
    assert!(!prompt.contains("[y/n]"), "{prompt:?}");
    assert!(prompt.ends_with('?'), "{prompt:?}");
}

#[test]
fn unseen_stacks_are_not_logged_as_keeps() {
    let mut app = test_app();
    app.record_seen(&[0]); // second stack never rendered
    app.flush_keeps();

    assert_eq!(read_records(&mut app).len(), 1);
}

#[test]
fn each_question_has_its_words() {
    let mut app = test_app();
    let header = Some("<https://x.com/u>".to_string());
    for s in &mut app.accounts[0].stacks {
        for m in &mut s.msgs {
            m.list_unsubscribe = header.clone();
        }
    }
    let acct = app.account();
    let one = || vec![stack_idx(&app, "a@x.com")];
    let ask = |p: PendingAction| p.prompt(acct);
    assert_eq!(ask(PendingAction::Trash { stack_idxs: one() }), "trash 2 messages from a@x.com?");
    assert_eq!(
        ask(PendingAction::Archive { stack_idxs: vec![0, 1] }),
        "archive 4 messages from 2 stacks?"
    );
    assert_eq!(
        ask(PendingAction::Unsubscribe { stack_idxs: one() }),
        "unsubscribe from a@x.com via open in browser?"
    );
    assert_eq!(
        ask(PendingAction::Unsubscribe { stack_idxs: vec![0, 1] }),
        "unsubscribe from 2 stacks?"
    );
    assert_eq!(
        PendingAction::TrashAfterUnsub { stack_idxs: one() }.prompt_for(acct, 1_202),
        "unsubscribed — also trash 1,204 messages from a@x.com (2 in view)?"
    );
}

#[test]
fn space_marks_and_advances_and_a_marks_everything() {
    let mut app = test_app();
    press(&mut app, KeyCode::Char(' '));
    assert_eq!(app.account().marked.len(), 1);
    assert_eq!(app.account().selected, 1);
    press(&mut app, KeyCode::Char('a'));
    assert_eq!(app.account().marked.len(), 2);
    assert_eq!(app.target_stacks(), [0, 1]);
    press(&mut app, KeyCode::Char('a'));
    assert!(app.account().marked.is_empty(), "all marked, so a unmarks");
    assert_eq!(app.target_stacks(), [1], "the row under the cursor");
    press(&mut app, KeyCode::Char(' '));
    press(&mut app, KeyCode::Char(' '));
    assert!(app.account().marked.is_empty(), "the last row is marked, then unmarked");
}

#[test]
fn esc_clears_the_marks_first_and_then_the_filter() {
    let mut app = test_app();
    app.accounts[0].marked.insert("a@x.com".into());
    app.filter = "x.com".into();
    app.accounts[0].selected = 1;
    press(&mut app, KeyCode::Esc);
    assert!(app.account().marked.is_empty());
    assert_eq!(app.filter, "x.com");
    press(&mut app, KeyCode::Esc);
    assert_eq!((app.filter.as_str(), app.account().selected), ("", 0));
}

#[test]
fn the_filter_is_typed_and_looks_at_key_name_and_subject() {
    let mut app = test_app();
    send(&mut app, KeyCode::Char('/'), KeyModifiers::Plain);
    assert!(matches!(app.mode, Mode::Filter));
    for c in ['B', '@', 'q'] {
        send(&mut app, KeyCode::Char(c), KeyModifiers::Plain);
    }
    assert_eq!(app.filter, "B@q");
    assert!(app.visible_stacks().is_empty());
    send(&mut app, KeyCode::Backspace, KeyModifiers::Plain);
    assert_eq!(app.visible_stacks(), [stack_idx(&app, "b@x.com")]);
    send(&mut app, KeyCode::Enter, KeyModifiers::Plain);
    assert!(matches!(app.mode, Mode::Normal));

    app.filter.clear();
    app.regroup(GroupBy::SenderSubject);
    app.filter = "TWO".into();
    assert_eq!(app.visible_stacks().len(), 2, "both senders' second subject");
    send(&mut app, KeyCode::Char('/'), KeyModifiers::Plain);
    send(&mut app, KeyCode::Esc, KeyModifiers::Plain);
    assert_eq!(app.filter, "");
}

#[test]
fn help_is_dismissed_by_any_key() {
    let mut app = test_app();
    send(&mut app, KeyCode::Char('?'), KeyModifiers::Plain);
    assert!(matches!(app.mode, Mode::Help));
    send(&mut app, KeyCode::Char('q'), KeyModifiers::Plain);
    assert!(matches!(app.mode, Mode::Normal));
    assert!(!app.should_quit);
}

#[test]
fn without_a_session_an_action_is_asked_about_and_then_refused() {
    let mut app = test_app();
    assert!(send(&mut app, KeyCode::Char('d'), KeyModifiers::Plain).is_none());
    assert!(matches!(app.mode, Mode::Confirm(PendingAction::Trash { .. })));
    send(&mut app, KeyCode::Char('n'), KeyModifiers::Plain);
    assert_eq!(app.status, "cancelled");
    send(&mut app, KeyCode::Char('e'), KeyModifiers::Plain);
    assert!(send(&mut app, KeyCode::Char('Y'), KeyModifiers::Plain).is_none());
    assert_eq!(app.status, "not connected — press R to reconnect");
    assert!(!app.busy);
}

#[test]
fn on_a_session_the_senders_are_searched_for_before_the_question() {
    let mut app = test_app();
    app.accounts[0].connected = true;
    app.accounts[0].total = 2_000;
    let job = send(&mut app, KeyCode::Char('d'), KeyModifiers::Plain);
    let Some(Job::FanOut { action, senders }) = job else { panic!("no search") };
    assert_eq!(senders, ["a@x.com"]);
    assert!(app.busy && matches!(app.mode, Mode::Normal));
    assert_eq!(app.status, "searching for everything from a@x.com…");

    app.on_task_done(TaskDone::FannedOut {
        action,
        found: vec![900, 1, 2, 800, 900],
        partial: false,
        error: None,
    });
    assert!(app.accounts[0].connected);
    assert_eq!(app.reach.beyond, [800, 900], "those in view are not counted twice");
    let Mode::Confirm(action) = &app.mode else { panic!("no question") };
    assert_eq!(
        action.prompt_for(app.account(), app.reach.beyond.len()),
        "trash 4 messages from a@x.com (2 in view)?"
    );

    let job = send(&mut app, KeyCode::Char('y'), KeyModifiers::Plain);
    let Some(Job::Imap { kind, mut uids, stack_idxs, label, beyond, partial }) = job else {
        panic!("no action")
    };
    assert_eq!(app.status, "trashing 4 messages…");
    assert!(!app.accounts[0].connected, "the job has the session");
    let n_msgs = uids.len();
    uids.sort();
    assert_eq!(uids, [1, 2, 800, 900]);
    assert_eq!((kind, beyond, partial), (ImapKind::Trash, 2, false));
    assert!(app.reach.beyond.is_empty(), "the question is gone, and its reach with it");

    app.on_task_done(TaskDone::Imap {
        kind,
        stack_idxs,
        n_msgs,
        label,
        beyond,
        partial,
        result: Ok(()),
    });
    assert_eq!(app.status, "trashed 4 messages from a@x.com");
    assert_eq!((app.accounts[0].total, app.accounts[0].back), (1_996, 2));
    assert_eq!(app.stats.trashed, 4);
    assert_eq!(app.accounts[0].stacks.len(), 1);
    assert!(app.accounts[0].connected);
    let recs = read_records(&mut app);
    assert_eq!((recs.len(), recs[0].stack.count), (1, 2));
}

#[test]
fn a_refused_search_still_asks_and_says_how_far_it_reaches() {
    let mut app = test_app();
    app.accounts[0].connected = true;
    let Some(Job::FanOut { action, .. }) = press(&mut app, KeyCode::Char('e')) else {
        panic!("no search")
    };
    app.on_task_done(TaskDone::FannedOut { action, found: vec![], partial: true, error: None });
    assert_eq!(app.status, "search refused, only the mail in view");
    let Some(Job::Imap { kind, stack_idxs, uids, label, beyond, partial }) =
        send(&mut app, KeyCode::Char('y'), KeyModifiers::Plain)
    else {
        panic!("no action")
    };
    assert_eq!((kind, uids.len(), partial), (ImapKind::Archive, 2, true));
    app.on_task_done(TaskDone::Imap {
        kind,
        stack_idxs,
        n_msgs: 2,
        label,
        beyond,
        partial,
        result: Ok(()),
    });
    assert_eq!(
        app.status,
        "archived 2 messages from a@x.com — search refused, only the mail in view"
    );
}

#[test]
fn a_search_that_loses_the_session_is_an_error() {
    let mut app = test_app();
    app.accounts[0].connected = true;
    let Some(Job::FanOut { action, .. }) = press(&mut app, KeyCode::Char('d')) else {
        panic!("no search")
    };
    app.on_task_done(TaskDone::FannedOut {
        action,
        found: vec![],
        partial: false,
        error: Some(MailError::timed_out("imap search", 60)),
    });
    assert!(matches!(app.mode, Mode::Normal));
    assert!(!app.accounts[0].connected);
    assert!(app.status.starts_with("error: imap search timed out after 60s"));
}

#[test]
fn under_sender_and_subject_nothing_is_searched() {
    let mut app = test_app();
    app.accounts[0].connected = true;
    app.regroup(GroupBy::SenderSubject);
    assert!(press(&mut app, KeyCode::Char('d')).is_none());
    assert!(matches!(app.mode, Mode::Confirm(_)));
}

#[test]
fn marking_read_asks_nothing_and_stays_in_view() {
    let mut app = test_app();
    app.accounts[0].connected = true;
    let Some(Job::Imap { kind, uids, stack_idxs, label, beyond, partial }) =
        press(&mut app, KeyCode::Char('r'))
    else {
        panic!("no job")
    };
    assert_eq!((kind, uids.len(), beyond), (ImapKind::Read, 2, 0));
    assert_eq!(app.status, "marking read 2 messages…");
    app.on_task_done(TaskDone::Imap {
        kind,
        stack_idxs,
        n_msgs: 2,
        label,
        beyond,
        partial,
        result: Ok(()),
    });
    let a = stack_idx(&app, "a@x.com");
    assert_eq!(app.accounts[0].stacks[a].unread_count, 0);
    assert_eq!(app.accounts[0].stacks[a].read_rate(), 100);
    assert_eq!(app.status, "marked 2 messages read (a@x.com)");
    assert_eq!(read_records(&mut app)[0].stack.read_rate, 0, "logged before the flags change");
}

#[test]
fn a_failed_action_drops_the_session() {
    let mut app = test_app();
    app.busy = true;
    app.on_task_done(TaskDone::Imap {
        kind: ImapKind::Trash,
        stack_idxs: vec![0],
        n_msgs: 2,
        label: "a".into(),
        beyond: 0,
        partial: false,
        result: Err(MailError::new("NO").context("imap trash")),
    });
    assert_eq!(app.status, "error: imap trash: NO");
    assert_eq!(app.accounts[0].stacks.len(), 2, "nothing was removed");
    assert!(!app.accounts[0].connected && !app.busy);
}

#[test]
fn u_asks_only_about_stacks_that_offer_a_way() {
    let mut app = test_app();
    press(&mut app, KeyCode::Char('u'));
    assert_eq!(app.status, "no List-Unsubscribe header in selection");

    let b = stack_idx(&app, "b@x.com");
    app.accounts[0].stacks[b].msgs[1].list_unsubscribe = Some("<mailto:u@b.com>".into());
    app.accounts[0].stacks[b].can_unsubscribe = true;
    press(&mut app, KeyCode::Char('a'));
    let ev = Event::Key(KeyEvent::new(KeyCode::Char('u'), KeyModifiers::Plain));
    assert!(app.accepts_event(ev));
    assert!(app.handle_event(ev).is_none());
    let Mode::Confirm(action) = &app.mode else { panic!("no question") };
    assert_eq!(action.idxs(), &vec![b]);

    let Some(Job::Unsub { jobs, stack_idxs, account, password }) =
        send(&mut app, KeyCode::Char('y'), KeyModifiers::Plain)
    else {
        panic!("no job")
    };
    assert_eq!((jobs.len(), stack_idxs), (1, vec![b]));
    assert_eq!((account.email.as_str(), password.as_str()), ("me@x.com", ""));
    assert!(matches!(&jobs[0].method, Some(Method::Mailto { to, .. }) if to == "u@b.com"));
    assert_eq!(app.status, "unsubscribing from 1 stacks…");
}

#[test]
fn an_unreadable_header_is_found_out_before_u_acts() {
    let mut app = test_app();
    for s in &mut app.accounts[0].stacks {
        s.msgs[0].list_unsubscribe = Some("<mailto:u@x.com?subject=%a€>".into());
    }
    let u = Event::Key(KeyEvent::new(KeyCode::Char('u'), KeyModifiers::Plain));
    let d = Event::Key(KeyEvent::new(KeyCode::Char('d'), KeyModifiers::Plain));
    assert!(!app.accepts_event(u));
    assert_eq!(app.try_event(u).err(), Some(Unreadable));
    assert!(matches!(app.mode, Mode::Normal), "nothing changed");
    assert!(app.accepts_event(d));
    assert!(app.try_event(d).unwrap().is_none());
    app.mode = Mode::Normal;
    app.busy = true;
    assert!(app.accepts_event(u), "a busy app refuses the key anyway");
}

#[test]
fn a_finished_job_is_checked_against_the_state() {
    let app = test_app();
    let imap = |idx| TaskDone::Imap {
        kind: ImapKind::Trash,
        stack_idxs: vec![idx],
        n_msgs: 1,
        label: String::new(),
        beyond: 0,
        partial: false,
        result: Ok(()),
    };
    assert!(app.accepts_done(&imap(1)));
    assert!(!app.accepts_done(&imap(2)));
    assert!(app.accepts_done(&swept(Load::More, Sweep::default(), Ok(()))));
    assert!(!app.accepts_done(&TaskDone::Unsub {
        stack_idxs: vec![5],
        ok_idxs: vec![0],
        failed: 0,
        last: String::new(),
    }));
}

#[test]
fn unsubscribing_goes_stack_by_stack() {
    let job = |idx, name: &str, method| UnsubJob { idx, name: name.into(), method };
    let mut run = UnsubRun::start(vec![
        job(4, "A", Some(Method::Browser("https://a".into()))),
        job(5, "B", None),
        job(6, "C", Some(Method::OneClick("https://c".into()))),
    ]);
    let step = run.next().unwrap();
    assert_eq!(step.status, "unsubscribing 1/3: A…");
    assert!(matches!(step.method, Method::Browser(_)));
    run.on_result(Ok("opened".into()));
    let step = run.next().unwrap();
    assert_eq!(step.status, "unsubscribing 3/3: C…", "B offers nothing");
    run.on_result(Err("HTTP 500".into()));
    assert!(run.next().is_none());
    let TaskDone::Unsub { stack_idxs, ok_idxs, failed, last } = run.finish(vec![4, 5, 6]) else {
        panic!("not an unsubscribe")
    };
    assert_eq!((stack_idxs, ok_idxs, failed), (vec![4, 5, 6], vec![4], 2));
    assert_eq!(last, "C: HTTP 500");
}

#[test]
fn unsubscribing_from_one_stack_tells_its_outcome() {
    let mut app = test_app();
    app.on_task_done(TaskDone::Unsub {
        stack_idxs: vec![0],
        ok_idxs: vec![],
        failed: 1,
        last: "A: HTTP 500".into(),
    });
    assert_eq!(app.status, "A: HTTP 500");
    assert!(matches!(app.mode, Mode::Normal), "nothing worked, so nothing to trash");
    app.on_task_done(TaskDone::Unsub {
        stack_idxs: vec![0, 1],
        ok_idxs: vec![0, 1],
        failed: 0,
        last: "x".into(),
    });
    assert_eq!(app.status, "unsubscribed from 2 stacks");
}

/// an app on a session, one of whose two stacks has just been unsubscribed from
fn app_unsubscribed() -> (App, Option<Job>) {
    let mut app = test_app();
    app.accounts[0].connected = true;
    app.busy = true;
    let job = app.on_task_done(TaskDone::Unsub {
        stack_idxs: vec![0, 1],
        ok_idxs: vec![0],
        failed: 1,
        last: "x".into(),
    });
    (app, job)
}

#[test]
fn the_outcome_of_unsubscribing_is_told_while_the_search_runs() {
    let (app, job) = app_unsubscribed();
    assert_eq!(app.status, "unsubscribed 1/2 stacks (last: x)");
    assert!(app.busy && matches!(app.mode, Mode::Normal));
    let Some(Job::FanOut { action, senders }) = job else { panic!("no search") };
    assert_eq!(senders, ["a@x.com", "b@x.com"]);
    assert!(matches!(action, PendingAction::TrashAfterUnsub { .. }));
}

#[test]
fn the_outcome_of_unsubscribing_is_still_told_with_the_question() {
    let (mut app, job) = app_unsubscribed();
    let Some(Job::FanOut { action, .. }) = job else { panic!("no search") };
    app.on_task_done(TaskDone::FannedOut {
        action,
        found: vec![1, 2, 900],
        partial: false,
        error: None,
    });
    assert_eq!(app.status, "unsubscribed 1/2 stacks (last: x)");
    assert!(!app.busy && app.outcome.is_none());
    assert_eq!(app.reach.beyond, [900]);
    assert!(matches!(app.mode, Mode::Confirm(PendingAction::TrashAfterUnsub { .. })));
}

#[test]
fn a_key_refused_meanwhile_does_not_hide_the_outcome() {
    let (mut app, job) = app_unsubscribed();
    let Some(Job::FanOut { action, .. }) = job else { panic!("no search") };
    assert!(press(&mut app, KeyCode::Char('d')).is_none());
    assert_ne!(app.status, "unsubscribed 1/2 stacks (last: x)");
    app.on_task_done(TaskDone::FannedOut { action, found: vec![], partial: true, error: None });
    assert_eq!(
        app.status,
        "unsubscribed 1/2 stacks (last: x) — search refused, only the mail in view"
    );
    assert!(matches!(app.mode, Mode::Confirm(PendingAction::TrashAfterUnsub { .. })));
}

#[test]
fn a_search_that_fails_after_unsubscribing_does_not_hide_the_outcome() {
    let (mut app, job) = app_unsubscribed();
    let Some(Job::FanOut { action, .. }) = job else { panic!("no search") };
    app.on_task_done(TaskDone::FannedOut {
        action,
        found: vec![],
        partial: false,
        error: Some(MailError::timed_out("imap search", 60)),
    });
    let expected = "unsubscribed 1/2 stacks (last: x) — error: imap search timed out after 60s";
    assert!(app.status.starts_with(expected), "{}", app.status);
    assert!(matches!(app.mode, Mode::Normal));

    // a later search tells nothing of it
    app.accounts[0].connected = true;
    let Some(Job::FanOut { action, .. }) = press(&mut app, KeyCode::Char('e')) else {
        panic!("no search")
    };
    app.on_task_done(TaskDone::FannedOut { action, found: vec![], partial: true, error: None });
    assert_eq!(app.status, "search refused, only the mail in view");
}

#[test]
fn several_senders_are_searched_one_after_the_other() {
    let mut g = Gather::start(vec!["a@x.com".into(), "b@x.com".into(), "c@x.com".into()]);
    let Some(Ask::Search(q)) = g.next() else { panic!("no search") };
    assert_eq!(q, "FROM \"a@x.com\"");
    g.on_found(vec![9, 3]);
    let Some(Ask::Fetch(uids)) = g.next() else { panic!("no fetch") };
    assert_eq!(uids, [9, 3]);
    g.on_messages(vec![msg(9, "A@x.com", "s"), msg(3, "xa@x.com", "s")]);
    let Some(Ask::Search(q)) = g.next() else { panic!("no second search") };
    assert_eq!(q, "FROM \"b@x.com\"");
    g.on_failure(MailError::new("NO"));
    let Some(Ask::Search(q)) = g.next() else { panic!("no third search") };
    assert_eq!(q, "FROM \"c@x.com\"");
    g.on_found(vec![]);
    assert!(g.next().is_none());
    let TaskDone::FannedOut { found, partial, error, .. } =
        g.finish(PendingAction::Trash { stack_idxs: vec![0] })
    else {
        panic!("not a fan-out")
    };
    assert_eq!(found, [9], "only the exact address");
    assert!(partial && error.is_none());
}

#[test]
fn a_timeout_ends_the_search_for_good() {
    let mut g = Gather::start(vec!["a@x.com".into(), "b@x.com".into()]);
    g.next();
    g.on_found(vec![1]);
    g.next();
    g.on_failure(MailError::timed_out("imap header fetch", 60));
    assert!(g.next().is_none());
    let TaskDone::FannedOut { error, .. } = g.finish(PendingAction::Trash { stack_idxs: vec![] })
    else {
        panic!("not a fan-out")
    };
    assert!(error.is_some());
}

fn load(password: Option<&str>, connected: bool) -> LoadRun {
    let password = password.map(|p| p.to_string());
    LoadRun::start(0, cfg("t", "me@x.com"), password, connected, 1_000, Load::More)
}

/// connected, password, messages read, the error
fn outcome(run: LoadRun) -> (bool, Option<String>, Sweep, Option<MailError>) {
    match run.finish() {
        TaskDone::Swept { connected, password, sweep, result, .. } => {
            (connected, password, sweep, result.err())
        }
        _ => panic!("not a sweep"),
    }
}

#[test]
fn a_load_asks_for_what_it_needs_in_order() {
    let mut run = load(None, false);
    assert!(matches!(run.next(), Some(LoadAsk::Password(email)) if email == "me@x.com"));
    run.on_password(Ok("pw".into()));
    match run.next() {
        Some(LoadAsk::Connect { account, password }) => {
            assert_eq!((account.email.as_str(), password.as_str()), ("me@x.com", "pw"))
        }
        _ => panic!("no connect"),
    }
    run.on_connected(Ok(()));
    assert!(matches!(run.next(), Some(LoadAsk::Count)));
    run.on_count(Ok(2_500));
    assert!(matches!(run.next(), Some(LoadAsk::Fetch(501, 1_500))));
    let p = run.on_chunk(Ok(vec![msg(7, "a@x.com", "s")])).unwrap();
    assert_eq!((p.swept, p.bound, p.stacks), (1_000, 1_500, 1));
    assert!(matches!(run.next(), Some(LoadAsk::Fetch(1, 500))));
    run.on_chunk(Ok(vec![msg(8, "b@x.com", "s")]));
    assert!(run.next().is_none());
    let (connected, password, sweep, error) = outcome(run);
    assert!(connected && error.is_none());
    assert_eq!(password.as_deref(), Some("pw"), "handed back for later loads");
    assert_eq!((sweep.swept, sweep.msgs.len(), sweep.reached_end), (1_500, 2, true));
}

#[test]
fn a_load_starts_where_it_can() {
    assert!(matches!(load(Some("pw"), false).next(), Some(LoadAsk::Connect { .. })));
    assert!(matches!(load(None, true).next(), Some(LoadAsk::Count)));
}

#[test]
fn a_load_that_never_reaches_the_mailbox_knows_nothing() {
    let mut run = load(None, false);
    run.on_password(Err(MailError::new("no keychain")));
    assert!(run.next().is_none());
    let (connected, password, sweep, error) = outcome(run);
    assert!(!connected && password.is_none() && !sweep.anchored);
    assert_eq!(error.unwrap().message(), "no keychain");

    let mut run = load(Some("pw"), false);
    run.on_connected(Err(MailError::new("dns")));
    let (connected, password, sweep, _) = outcome(run);
    assert!(!connected && !sweep.anchored);
    assert_eq!(password.as_deref(), Some("pw"));
}

#[test]
fn a_sweeps_outcome_says_whether_the_session_lives() {
    let refused = || MailError::new("NO");
    let late = || MailError::timed_out("imap header fetch", 60);
    for (error, lives) in [(refused(), true), (late(), false)] {
        let mut run = load(None, true);
        run.on_count(Err(error));
        let (connected, _, sweep, error) = outcome(run);
        assert_eq!(connected, lives);
        assert!(!sweep.anchored && error.is_some());
    }
    for (error, lives) in [(refused(), true), (late(), false)] {
        let mut run = load(None, true);
        run.on_count(Ok(20_000));
        run.on_chunk(Ok(vec![msg(7, "a@x.com", "s")]));
        assert!(run.on_chunk(Err(error)).is_none());
        assert!(run.next().is_none());
        let (connected, _, sweep, _) = outcome(run);
        assert_eq!(connected, lives);
        assert_eq!((sweep.swept, sweep.msgs.len()), (1_000, 1), "what landed is kept");
        assert!(sweep.short());
    }
}

#[test]
fn a_swept_accounts_password_is_kept() {
    let mut app = test_app();
    let done = |password| TaskDone::Swept {
        acct_idx: 0,
        connected: true,
        password,
        kind: Load::More,
        sweep: Sweep::default(),
        result: Ok(()),
    };
    app.on_task_done(done(Some("pw".to_string())));
    app.on_task_done(done(None));
    assert_eq!(app.accounts[0].password.as_deref(), Some("pw"));
    assert!(app.accounts[0].connected);
}

#[test]
fn a_loads_status_does_not_talk_over_an_action() {
    let mut app = test_app();
    app.busy = true;
    app.status = "trashing".into();
    assert!(apply(&mut app, TaskMsg::Status("sweeping".into()), Source::Load).0);
    assert_eq!(app.status, "trashing");
    assert!(apply(&mut app, TaskMsg::Status("2/3".into()), Source::Action).0);
    assert_eq!(app.status, "2/3");
    app.alert = Some(Alert::Sweeping { starting: "s".into(), progress: None });
    let p = SweepProgress { swept: 1, bound: 2, stacks: 3 };
    assert!(apply(&mut app, TaskMsg::Sweeping(p), Source::Load).0);
    assert!(matches!(app.alert, Some(Alert::Sweeping { progress: Some(_), .. })));
    let done = swept(Load::More, Sweep::default(), Ok(()));
    let (running, job) = apply(&mut app, TaskMsg::Done(done), Source::Load);
    assert!(!running && job.is_none() && !app.busy);
}

#[test]
fn a_lost_job_gives_the_keyboard_back() {
    let mut app = test_app();
    app.spawn_batch(Load::Reset);
    on_job_lost(&mut app, Source::Load);
    assert!(!app.busy && !app.loading && !app.in_flight && app.alert.is_none());
    assert_eq!(app.status, "error: load task exited unexpectedly");
    on_job_lost(&mut app, Source::Action);
    assert_eq!(app.status, "error: action task exited unexpectedly");
}

#[test]
fn quitting_abandons_a_load_and_waits_for_an_action() {
    let mut app = test_app();
    assert_eq!(quit(&mut app), QuitStep::Leave);
    app.spawn_batch(Load::Reset);
    assert_eq!(quit(&mut app), QuitStep::Leave);
    let mut app = test_app();
    app.accounts[0].connected = true;
    press(&mut app, KeyCode::Char('r'));
    assert_eq!(quit(&mut app), QuitStep::Finish);
    assert_eq!(app.status, "finishing action before exit…");
}

#[test]
fn quitting_abandons_a_search() {
    let mut app = test_app();
    app.accounts[0].connected = true;
    let Some(Job::FanOut { action, .. }) = press(&mut app, KeyCode::Char('d')) else {
        panic!("no search")
    };
    assert!(app.in_flight && app.searching);
    let mut left = test_app();
    left.accounts[0].connected = true;
    press(&mut left, KeyCode::Char('d'));
    assert_eq!(quit(&mut left), QuitStep::Leave);
    assert_eq!(left.status, "searching for everything from a@x.com…");

    // once the question is answered there is an action to wait for
    app.on_task_done(TaskDone::FannedOut { action, found: vec![], partial: false, error: None });
    assert!(!app.in_flight && !app.searching);
    send(&mut app, KeyCode::Char('y'), KeyModifiers::Plain);
    assert_eq!(quit(&mut app), QuitStep::Finish);
}

#[test]
fn the_search_that_follows_an_unsubscribe_is_abandoned_too() {
    let (mut app, job) = app_unsubscribed();
    assert!(matches!(job, Some(Job::FanOut { .. })));
    assert_eq!(quit(&mut app), QuitStep::Leave);
    assert_eq!(app.stats.unsubscribed, 1);
    assert_eq!(read_records(&mut app).len(), 1, "what was done is on record");
}

#[test]
fn a_lost_search_leaves_nothing_behind() {
    let (mut app, _) = app_unsubscribed();
    on_job_lost(&mut app, Source::Action);
    assert!(!app.busy && !app.in_flight && !app.searching && app.outcome.is_none());
    assert_eq!(app.status, "error: action task exited unexpectedly");
}

#[test]
fn a_session_is_summed_up_at_its_end() {
    let stats = |t, a, r, u| SessionStats {
        trashed: t,
        archived: a,
        marked_read: r,
        unsubscribed: u,
    };
    assert!(session_report(&SessionStats::default()).is_empty());
    assert_eq!(
        session_report(&stats(12, 40, 5, 3)),
        [
            "this session:",
            "  cleaned 52 emails (12 trashed, 40 archived)",
            "  marked 5 read",
            "  unsubscribed from 3 senders",
        ]
    );
    assert_eq!(session_report(&stats(0, 0, 5, 0)), ["this session:", "  marked 5 read"]);
}

#[test]
fn the_headless_dump_lists_the_stacks() {
    let app = test_app();
    assert_eq!(account_heading(&cfg("t", "me@x.com")), "== t (me@x.com) ==");
    assert_eq!(account_counts(4, 137_482, 2), "4 of 137482 messages, 2 stacks");
    let a = &app.accounts[0].stacks[stack_idx(&app, "a@x.com")];
    assert_eq!(stack_line(a), "    2     a@x.com <a@x.com>  — one");
}

#[test]
fn colour_is_off_where_the_variable_says_something() {
    assert!(!color_off(None));
    assert!(!color_off(Some("")));
    assert!(color_off(Some("1")));
    let app = App::new(vec![], ActionLog::new(false, None, None), Some("1"));
    assert!(app.no_color);
    assert_eq!(app.status, "loading…");
}
