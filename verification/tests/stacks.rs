use mailprune::action_log::{
    default_path, state_dir, Action, ActionLog, StackSnapshot,
};
use mailprune::clock::Timestamp;
use mailprune::imap_client::{Ascending, Descending};
use mailprune::sort::sort;
use mailprune::stacks::{
    build_stacks, mask_numbers, normalize_subject, sort_stacks, GroupBy, MsgMeta, SortBy,
    Stack,
};

const DAY: i64 = 86_400;

/// midnight on 2026-06-01
const JUNE: i64 = 1_780_272_000;

fn msg(subject: &str, days_ago: i64, unread: bool) -> MsgMeta {
    MsgMeta {
        uid: 1,
        sender_email: "News@Example.com".into(),
        sender_name: "Example".into(),
        subject: subject.into(),
        date: Some(Timestamp { secs: JUNE - days_ago * DAY, nanos: 0 }),
        unread,
        list_unsubscribe: Some("<https://example.com/u>".into()),
        one_click: true,
    }
}

#[test]
fn snapshot_splits_sender_subject_key() {
    let stacks = build_stacks(
        vec![msg("Order #12 shipped", 0, true), msg("Order #99 shipped", 10, false)],
        GroupBy::SenderSubject,
        SortBy::Count,
    );
    let snap = StackSnapshot::of(&stacks[0]);
    assert_eq!(snap.sender, "news@example.com");
    assert_eq!(snap.subject.as_deref(), Some("order ## shipped"));
    assert_eq!(snap.group_by, "sender+subject");
    assert_eq!(snap.count, 2);
    assert_eq!(snap.read_rate, 50);
    assert!(snap.has_unsub);
    assert!(snap.one_click);
    assert_eq!(snap.span_days, 10);
}

#[test]
fn snapshot_of_sender_grouped_stack_has_no_subject() {
    let stacks = build_stacks(
        vec![msg("a", 0, true), msg("b", 1, true)],
        GroupBy::Sender,
        SortBy::Count,
    );
    let snap = StackSnapshot::of(&stacks[0]);
    assert_eq!(snap.sender, "news@example.com");
    assert_eq!(snap.subject, None);
    assert_eq!(snap.group_by, "sender");
}

#[test]
fn a_snapshot_counts_whole_days() {
    let stacks = build_stacks(vec![msg("a", 3, true)], GroupBy::Sender, SortBy::Count);
    let at = |secs| StackSnapshot::of_at(&stacks[0], Timestamp { secs, nanos: 0 }).latest_age_days;
    assert_eq!(at(JUNE), 3);
    assert_eq!(at(JUNE - 1), 2, "a day that is not over does not count");
    assert_eq!(at(JUNE - 4 * DAY + 1), 0, "nor does one that lies ahead");
    assert_eq!(at(JUNE - 5 * DAY), -2);
}

#[test]
fn a_snapshot_is_taken_by_the_clock() {
    let mut m = msg("a", 0, true);
    m.date = Some(Timestamp { secs: 0, nanos: 0 });
    let stacks = build_stacks(vec![m], GroupBy::Sender, SortBy::Count);
    assert!(StackSnapshot::of(&stacks[0]).latest_age_days > 19_000);
}

#[test]
fn letter_case_does_not_split_a_stack() {
    let stacks = build_stacks(
        vec![mail(1, "News@X.com", "", "s", None), mail(2, "news@x.COM", "", "S", None)],
        GroupBy::SenderSubject,
        SortBy::Count,
    );
    assert_eq!(stacks.len(), 1);
    assert_eq!(stacks[0].key, "news@x.com\u{0}s");
}

#[test]
fn append_writes_one_json_line_per_stack() {
    let mut log = ActionLog::at("actions.jsonl".into());
    let stacks = build_stacks(vec![msg("hi", 0, true)], GroupBy::Sender, SortBy::Count);
    let snap = StackSnapshot::of(&stacks[0]);
    log.log("me@x.com", Action::Trash, &[snap.clone()]);
    log.log("me@x.com", Action::Keep, &[snap]);

    assert_eq!(log.path(), Some("actions.jsonl"));
    let lines = log.take_pending();
    assert_eq!(lines.len(), 2);
    assert_eq!(lines[0].v, 1);
    assert_eq!(lines[0].account, "me@x.com");
    assert_eq!(lines[0].action.name(), "trash");
    assert_eq!(lines[0].suggested, false);
    assert_eq!(lines[0].stack.sender, "news@example.com");
    assert!(lines[0].stack.subject.is_none());
    assert_eq!(lines[1].action.name(), "keep");
    assert!(log.take_pending().is_empty(), "a record is handed out once");
}

#[test]
fn disabled_log_writes_nothing() {
    let mut log = ActionLog::new(false, Some("/state"), Some("/home/me"));
    let stacks = build_stacks(vec![msg("hi", 0, true)], GroupBy::Sender, SortBy::Count);
    // must be a no-op, not a panic or a file in the state dir
    log.log("me@x.com", Action::Trash, &[StackSnapshot::of(&stacks[0])]);
    assert_eq!(log.path(), None);
    assert!(log.take_pending().is_empty());
}

#[test]
fn the_log_lives_in_the_state_directory() {
    assert_eq!(state_dir(Some("/x/state"), Some("/home/me")), "/x/state/mailprune");
    assert_eq!(state_dir(Some("rel"), Some("/home/me")), "/home/me/.local/state/mailprune");
    assert_eq!(state_dir(None, None), "./mailprune");
    assert_eq!(default_path(Some("/x/"), None), "/x/mailprune/actions.jsonl");
    let log = ActionLog::new(true, None, Some("/home/me"));
    assert_eq!(log.path(), Some("/home/me/.local/state/mailprune/actions.jsonl"));
}

#[test]
fn actions_have_their_names() {
    let names: Vec<&str> =
        [Action::Trash, Action::Archive, Action::Read, Action::Unsub, Action::Keep]
            .iter()
            .map(|a| a.name())
            .collect();
    assert_eq!(names, ["trash", "archive", "read", "unsub", "keep"]);
}

fn mail(uid: u32, email: &str, name: &str, subject: &str, date: Option<i64>) -> MsgMeta {
    MsgMeta {
        uid,
        sender_email: email.into(),
        sender_name: name.into(),
        subject: subject.into(),
        date: date.map(|secs| Timestamp { secs, nanos: 0 }),
        unread: uid % 2 == 0,
        list_unsubscribe: None,
        one_click: false,
    }
}

#[test]
fn a_stack_holds_one_senders_mail_newest_first() {
    let stacks = build_stacks(
        vec![
            mail(1, "A@x.com", "", "old", Some(10)),
            mail(2, "b@x.com", "Bob", "hi", Some(50)),
            mail(3, "a@X.com", "Ann", "new", Some(30)),
            mail(4, "a@x.com", "", "undated", None),
        ],
        GroupBy::Sender,
        SortBy::Count,
    );
    assert_eq!(stacks.len(), 2);
    assert_eq!(stacks[0].key, "a@x.com");
    assert_eq!(stacks[0].uids(), [3, 1, 4], "no date comes last");
    assert_eq!(stacks[0].display_name, "Ann", "the newest message names the stack");
    assert_eq!(stacks[0].latest().uid, 3);
    assert_eq!(stacks[0].unread_count, 1);
    assert_eq!(stacks[0].read_rate(), 66, "rounded down");
    assert!(!stacks[0].can_unsubscribe && stacks[0].unsubscribe_source().is_none());
    assert_eq!(stacks[1].display_name, "Bob");
    assert_eq!(stacks[1].subject, None);
}

#[test]
fn an_unnamed_sender_goes_by_the_address() {
    let stacks =
        build_stacks(vec![mail(1, "A@x.com", "", "s", None)], GroupBy::Sender, SortBy::Count);
    assert_eq!(stacks[0].display_name, "A@x.com");
}

#[test]
fn grouping_by_subject_ignores_numbers_and_case() {
    assert_eq!(normalize_subject("Order #12 shipped"), "order ## shipped");
    assert_eq!(normalize_subject("A1B22c333"), "a#b#c#");
    assert_eq!(normalize_subject("GRÜSSE 7"), "grüsse #");
    assert_eq!(mask_numbers("Re: 1,000 of 2"), "Re: #,# of #");
    let stacks = build_stacks(
        vec![
            mail(1, "a@x.com", "A", "Invoice 7", Some(1)),
            mail(2, "a@x.com", "A", "INVOICE 123", Some(2)),
            mail(3, "a@x.com", "A", "Hello", Some(3)),
        ],
        GroupBy::SenderSubject,
        SortBy::Count,
    );
    assert_eq!(stacks.len(), 2);
    assert_eq!(stacks[0].uids(), [2, 1]);
    assert_eq!(stacks[0].subject.as_deref(), Some("INVOICE 123"), "the newest one's own words");
    assert_eq!(stacks[0].key, "a@x.com\u{0}invoice #");
}

#[test]
fn stacks_sort_by_count_then_by_date_and_by_rate_then_by_count() {
    let msgs = || {
        vec![
            mail(2, "rare@x.com", "R", "s", Some(5)),
            mail(1, "read@x.com", "D", "s", Some(9)),
            mail(4, "two@x.com", "T", "s", Some(1)),
            mail(6, "two@x.com", "T", "s", Some(2)),
            mail(8, "late@x.com", "L", "s", Some(7)),
        ]
    };
    let keys = |by| {
        build_stacks(msgs(), GroupBy::Sender, by).iter().map(|s| s.key.clone()).collect::<Vec<_>>()
    };
    assert_eq!(keys(SortBy::Count), ["two@x.com", "read@x.com", "late@x.com", "rare@x.com"]);
    assert_eq!(keys(SortBy::ReadRate), ["two@x.com", "late@x.com", "rare@x.com", "read@x.com"]);

    let mut stacks = build_stacks(msgs(), GroupBy::Sender, SortBy::Count);
    sort_stacks(&mut stacks, SortBy::ReadRate);
    assert_eq!(stacks[3].key, "read@x.com");
    assert_eq!(stacks[3].read_rate(), 100);
}

#[test]
fn ties_keep_the_order_they_came_in() {
    let senders = ["c@x.com", "a@x.com", "d@x.com", "b@x.com"];
    let msgs: Vec<MsgMeta> =
        senders.iter().enumerate().map(|(i, s)| mail(2 * i as u32, s, "", "s", None)).collect();
    for by in [SortBy::Count, SortBy::ReadRate] {
        let stacks = build_stacks(msgs.clone(), GroupBy::Sender, by);
        let keys: Vec<&str> = stacks.iter().map(|s| s.key.as_str()).collect();
        assert_eq!(keys, senders);
    }
}

#[test]
fn any_order_sorts_stably() {
    let v: Vec<u32> = (0..1000).map(|i| (i * 7919) % 101).collect();
    let mut expected = v.clone();
    expected.sort();
    assert_eq!(sort::<u32, Ascending>(v.clone()), expected);
    expected.reverse();
    assert_eq!(sort::<u32, Descending>(v), expected);
    assert_eq!(sort::<u32, Ascending>(vec![]), Vec::<u32>::new());
}

#[test]
fn no_message_is_lost_between_the_stacks() {
    let msgs: Vec<MsgMeta> = (1..=500)
        .map(|uid| {
            mail(
                uid,
                &format!("s{}@x.com", uid % 37),
                "",
                &format!("subject {}", uid % 5),
                Some((uid as i64 * 7919) % 1000),
            )
        })
        .collect();
    for by in [GroupBy::Sender, GroupBy::SenderSubject] {
        let stacks = build_stacks(msgs.clone(), by, SortBy::Count);
        let mut uids: Vec<u32> = stacks.iter().flat_map(|s| s.uids()).collect();
        uids.sort();
        assert_eq!(uids, (1..=500).collect::<Vec<u32>>());
        for s in &stacks {
            assert!(s.msgs.windows(2).all(|w| w[0].date.unwrap().secs >= w[1].date.unwrap().secs));
        }
    }
}

#[test]
fn the_labels_toggle() {
    assert_eq!(GroupBy::Sender.label(), "sender");
    assert_eq!(GroupBy::Sender.toggle().label(), "sender+subject");
    assert_eq!(GroupBy::SenderSubject.toggle(), GroupBy::Sender);
    assert_eq!(SortBy::Count.label(), "count");
    assert_eq!(SortBy::Count.toggle().label(), "read rate");
    assert_eq!(SortBy::ReadRate.toggle(), SortBy::Count);
}

#[test]
fn the_most_recent_unsubscribe_header_is_the_source() {
    let mut msgs = vec![msg("new", 0, true), msg("older", 1, true), msg("oldest", 2, true)];
    msgs[0].list_unsubscribe = None;
    let stacks = build_stacks(msgs, GroupBy::Sender, SortBy::Count);
    assert!(stacks[0].can_unsubscribe);
    assert_eq!(stacks[0].unsubscribe_source().unwrap().subject, "older");
}

#[test]
fn a_leap_second_comes_before_the_second_that_follows_it() {
    // halfway through 23:59:60, and the start of the next second
    let leap = Timestamp { secs: JUNE - 1, nanos: 1_500_000_000 };
    let next = Timestamp { secs: JUNE, nanos: 0 };
    assert!(leap.not_after(next) && !next.not_after(leap));
    assert!(!leap.not_after(Timestamp { secs: JUNE - 1, nanos: 999_999_999 }));

    let at = |uid, date| MsgMeta { uid, date: Some(date), ..msg("s", 0, true) };
    let stacks =
        build_stacks(vec![at(1, leap), at(2, next)], GroupBy::Sender, SortBy::Count);
    assert_eq!(stacks[0].uids(), [2, 1], "the newest first");
}

#[test]
fn a_leap_second_is_counted_where_it_was_passed() {
    // halfway through 23:59:60
    let leap = Timestamp { secs: JUNE - 1, nanos: 1_500_000_000 };
    let midnight = Timestamp { secs: JUNE, nanos: 0 };
    let noon = Timestamp { secs: JUNE - DAY / 2, nanos: 0 };
    assert_eq!(leap.nanos_since(noon), (DAY as i128 / 2) * 1_000_000_000 + 500_000_000);
    assert_eq!(midnight.nanos_since(noon), (DAY as i128 / 2) * 1_000_000_000);
    assert_eq!(leap.nanos_since(leap), 0);
    assert_eq!(midnight.days_since(Timestamp { secs: JUNE - 3 * DAY + 1, nanos: 0 }), 2);
    assert_eq!(Timestamp { secs: JUNE - 3 * DAY, nanos: 0 }.days_since(midnight), -3);
}

#[test]
fn rebuilding_from_its_own_messages_changes_nothing() {
    let msgs: Vec<MsgMeta> = (1..=200)
        .map(|uid| {
            mail(
                uid,
                &format!("s{}@x.com", (uid * 13) % 23),
                "",
                &format!("subject {}", ["a", "b", "c"][uid as usize % 3]),
                if uid % 7 == 0 { None } else { Some((uid as i64 * 31) % 4) },
            )
        })
        .collect();
    let shape = |stacks: &[Stack]| -> Vec<(String, Vec<u32>)> {
        stacks.iter().map(|s| (s.key.clone(), s.uids())).collect()
    };
    for by in [GroupBy::Sender, GroupBy::SenderSubject] {
        for order in [SortBy::Count, SortBy::ReadRate] {
            let stacks = build_stacks(msgs.clone(), by, order);
            let first = shape(&stacks);
            let own: Vec<MsgMeta> = stacks.into_iter().flat_map(|s| s.msgs).collect();
            assert_eq!(shape(&build_stacks(own, by, order)), first);
        }
    }
}
