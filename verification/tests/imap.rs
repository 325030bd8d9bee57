use mailprune::imap_client::{
    get_first_value, is_timeout, meta_from, newest_first, parse_from, pick_sender, quoted,
    resolve_folders, sender_query, to_meta, uid_set, FanOut, MailError, Sweep, SweepProgress,
    SweepRun, TimedOut, FETCH_CHUNK, WINDOW,
};
use mailprune::stacks::MsgMeta;
use std::collections::{HashMap, HashSet};

#[test]
fn uid_set_compresses_ranges() {
    assert_eq!(uid_set(&[3, 1, 2, 7, 9, 8]), "1:3,7:9");
    assert_eq!(uid_set(&[5]), "5");
    assert_eq!(uid_set(&[2, 2, 4]), "2,4");
}

#[test]
fn uid_set_holds_at_the_edges() {
    assert_eq!(uid_set(&[]), "");
    assert_eq!(uid_set(&[u32::MAX, u32::MAX - 1]), "4294967294:4294967295");
    assert_eq!(uid_set(&[u32::MAX, 1]), "1,4294967295");
    assert_eq!(uid_set(&[10, 9, 8, 8, 3]), "3,8:10");
}

#[test]
fn addresses_are_quoted_so_they_cannot_escape_the_search_argument() {
    assert_eq!(quoted("a@b.com"), "\"a@b.com\"");
    assert_eq!(quoted("we\"ird\\@b.com"), "\"we\\\"ird\\\\@b.com\"");
}

#[test]
fn a_sender_query_names_the_quoted_address() {
    assert_eq!(sender_query("a@b.com"), "FROM \"a@b.com\"");
    assert_eq!(sender_query("a\"b"), "FROM \"a\\\"b\"");
}

fn meta(uid: u32, sender: &str) -> MsgMeta {
    MsgMeta {
        uid,
        sender_email: sender.into(),
        sender_name: String::new(),
        subject: "hi".into(),
        date: None,
        unread: true,
        list_unsubscribe: None,
        one_click: false,
    }
}

/// what the scripted mailbox does when an operation is reached
#[derive(Clone, Copy, PartialEq, Eq)]
enum Answer {
    Fine,
    /// a server `NO`/`BAD`: a clean answer on a live connection
    Refuse,
    Timeout,
}

/// A mailbox with no socket. Models the three behaviours the sweep and the
/// fan-out actually depend on: sequence numbers are 1-based and oldest first,
/// `FROM` matches as a substring, and a message that has left the mailbox
/// simply returns nothing.
struct FakeMailbox {
    /// oldest first, so `msgs[i]` is sequence number `i + 1`
    msgs: Vec<MsgMeta>,
    /// how each fetch is answered, in order; missing entries are `Fine`
    fetches: Vec<Answer>,
    fetch_calls: usize,
    /// the sequence ranges asked for, in order
    ranges: Vec<(u32, u32)>,
    /// keyed by the address inside `FROM "…"`
    searches: HashMap<String, Answer>,
    searched: bool,
    /// UIDs the server answers nothing for
    silent: HashSet<u32>,
}

impl FakeMailbox {
    fn new(msgs: Vec<MsgMeta>) -> Self {
        Self {
            msgs,
            fetches: Vec::new(),
            fetch_calls: 0,
            ranges: Vec::new(),
            searches: HashMap::new(),
            searched: false,
            silent: HashSet::new(),
        }
    }

    /// `n` messages, one per sender, oldest first — uid `i` at sequence `i`
    fn of_size(n: u32) -> Self {
        Self::new((1..=n).map(|uid| meta(uid, &format!("s{uid}@x.com"))).collect())
    }

    /// how each fetch is answered, in order
    fn fetches_answer(mut self, answers: &[Answer]) -> Self {
        self.fetches = answers.to_vec();
        self
    }

    fn search_answers(mut self, addr: &str, answer: Answer) -> Self {
        self.searches.insert(addr.into(), answer);
        self
    }

    /// the fetch for these uids comes back with nothing
    fn silent_uids(mut self, uids: impl IntoIterator<Item = u32>) -> Self {
        self.silent = uids.into_iter().collect();
        self
    }

    fn answer(a: Answer, what: &str) -> Result<(), MailError> {
        match a {
            Answer::Fine => Ok(()),
            Answer::Refuse => Err(MailError::new(&format!("NO [CANNOT] {what} not supported"))),
            Answer::Timeout => Err(MailError::timed_out(what, 60)),
        }
    }

    fn next_fetch_answer(&mut self) -> Result<(), MailError> {
        let answer = self.fetches.get(self.fetch_calls).copied().unwrap_or(Answer::Fine);
        self.fetch_calls += 1;
        Self::answer(answer, "fetch")
    }

    fn count(&self) -> u32 {
        self.msgs.len() as u32
    }

    fn fetch_seq(&mut self, lo: u32, hi: u32) -> Result<Vec<MsgMeta>, MailError> {
        self.ranges.push((lo, hi));
        self.next_fetch_answer()?;
        Ok(self.msgs[(lo - 1) as usize..hi as usize]
            .iter()
            .filter(|m| !self.silent.contains(&m.uid))
            .cloned()
            .collect())
    }

    fn search(&mut self, query: &str) -> Result<Vec<u32>, MailError> {
        let addr = query.trim_start_matches("FROM ").trim_matches('"').to_string();
        self.searched = true;
        Self::answer(self.searches.get(&addr).copied().unwrap_or(Answer::Fine), "search")?;
        Ok(newest_first(
            self.msgs
                .iter()
                // IMAP FROM is a substring match, not an equality test
                .filter(|m| m.sender_email.contains(&addr))
                .map(|m| m.uid)
                .collect(),
        ))
    }

    fn fetch(&mut self, uids: &[u32]) -> Result<Vec<MsgMeta>, MailError> {
        self.next_fetch_answer()?;
        Ok(self
            .msgs
            .iter()
            .filter(|m| uids.contains(&m.uid) && !self.silent.contains(&m.uid))
            .cloned()
            .collect())
    }
}

/// one sweep, with the progress it reported along the way
fn swept(
    mailbox: &mut FakeMailbox,
    back: usize,
) -> (Sweep, Result<(), MailError>, Vec<SweepProgress>) {
    let mut progress = Vec::new();
    let mut run = SweepRun::start(mailbox.count(), back);
    let mut result = Ok(());
    while let Some((lo, hi)) = run.next() {
        match mailbox.fetch_seq(lo, hi) {
            Ok(part) => progress.push(run.on_chunk(part)),
            Err(e) => {
                run.on_failure();
                result = Err(e);
            }
        }
    }
    (run.finish(), result, progress)
}

/// every message from an address still in the mailbox, and whether that is all
fn fan_out(mailbox: &mut FakeMailbox, addr: &str) -> Result<(Vec<MsgMeta>, bool), MailError> {
    let uids = mailbox.search(&sender_query(addr))?;
    let mut walk = FanOut::start(addr, uids);
    while let Some(chunk) = walk.next() {
        match mailbox.fetch(&chunk) {
            Ok(part) => walk.on_chunk(part),
            Err(e) => {
                if let Some(e) = walk.on_failure(e) {
                    return Err(e);
                }
            }
        }
    }
    Ok(walk.finish())
}

/// a 5,000-message window is five fetches, whatever the mailbox holds
#[test]
fn a_full_window_is_five_fetches_and_no_search() {
    let mut mailbox = FakeMailbox::of_size(137_482);
    let (sweep, result, _) = swept(&mut mailbox, 0);

    assert!(result.is_ok());
    assert!(!mailbox.searched, "a sweep never searches, at any size");
    assert_eq!(
        mailbox.ranges,
        [
            (136_483, 137_482),
            (135_483, 136_482),
            (134_483, 135_482),
            (133_483, 134_482),
            (132_483, 133_482),
        ],
        "five contiguous chunks, newest first"
    );
    assert_eq!(sweep.swept, WINDOW);
    assert_eq!(sweep.msgs.len(), WINDOW);
    assert_eq!(sweep.total, 137_482, "the title's denominator is EXISTS");
    assert!(!sweep.short());
    assert!(!sweep.reached_end);
}

#[test]
fn m_reads_the_window_behind_the_one_already_swept() {
    let mut mailbox = FakeMailbox::of_size(20_000);
    let (_, result, _) = swept(&mut mailbox, WINDOW);
    assert!(result.is_ok());
    assert_eq!(mailbox.ranges[0], (14_001, 15_000));
    assert_eq!(mailbox.ranges.last(), Some(&(10_001, 11_000)));
}

#[test]
fn m_after_a_short_window_reads_the_remainder_before_it_advances() {
    let mut mailbox = FakeMailbox::of_size(20_000)
        .fetches_answer(&[Answer::Fine, Answer::Fine, Answer::Refuse]);
    let (short, result, _) = swept(&mut mailbox, 0);
    assert!(result.is_err());
    assert_eq!(short.swept, 2_000, "the window stopped two chunks in");

    let mut mailbox = FakeMailbox::of_size(20_000);
    let (_, result, _) = swept(&mut mailbox, short.swept);

    assert!(result.is_ok());
    assert_eq!(
        mailbox.ranges[0],
        (17_001, 18_000),
        "the retry starts where the refusal stopped, not past the hole"
    );
}

#[test]
fn a_sweep_re_anchors_to_the_top_so_arrivals_do_not_shift_it_off() {
    let mut mailbox = FakeMailbox::of_size(20_000);
    // 10 messages arrive between the two sweeps
    mailbox.msgs.extend((20_001..=20_010).map(|uid| meta(uid, "new@x.com")));
    let (sweep, result, _) = swept(&mut mailbox, WINDOW);

    assert!(result.is_ok());
    assert_eq!(sweep.total, 20_010);
    assert_eq!(
        mailbox.ranges[0],
        (14_011, 15_010),
        "the window is measured from the new top, not the old one"
    );
}

#[test]
fn headers_that_never_arrive_end_the_sweep_at_the_bound_anyway() {
    // four of the window's five chunks answer with nothing at all
    let mut mailbox = FakeMailbox::of_size(20_000).silent_uids(15_001..=19_000);
    let (sweep, result, _) = swept(&mut mailbox, 0);

    assert!(result.is_ok());
    assert_eq!(mailbox.ranges.len(), 5, "still five fetches, not more");
    assert_eq!(sweep.swept, WINDOW, "uids swept, not headers returned");
    assert_eq!(sweep.msgs.len(), 1_000, "only the live ones came back");
    assert!(!sweep.short(), "a dead uid is swept, not missed");
}

#[test]
fn a_mailbox_smaller_than_the_window_is_swept_to_its_oldest_message() {
    let mut mailbox = FakeMailbox::of_size(2_500);
    let (sweep, result, _) = swept(&mut mailbox, 0);

    assert!(result.is_ok());
    assert_eq!(mailbox.ranges, [(1_501, 2_500), (501, 1_500), (1, 500)]);
    assert_eq!(sweep.bound, 2_500, "the bound is the rest of the mailbox");
    assert_eq!(sweep.swept, 2_500);
    assert!(sweep.reached_end, "the title says `all`, not `newest`");
    assert!(!sweep.short());
}

#[test]
fn m_past_the_oldest_message_sweeps_nothing_and_asks_for_nothing() {
    let mut mailbox = FakeMailbox::of_size(2_500);
    let (sweep, result, progress) = swept(&mut mailbox, 2_500);

    assert!(result.is_ok());
    assert!(mailbox.ranges.is_empty(), "no fetch for an empty window");
    assert!(progress.is_empty());
    assert_eq!(sweep.swept, 0);
    assert!(sweep.reached_end);
    assert!(!sweep.short(), "reaching the end is not a short window");
}

#[test]
fn an_empty_mailbox_sweeps_nothing() {
    let mut mailbox = FakeMailbox::of_size(0);
    let (sweep, result, _) = swept(&mut mailbox, 0);

    assert!(result.is_ok());
    assert!(mailbox.ranges.is_empty());
    assert_eq!(sweep.total, 0);
    assert!(sweep.reached_end);
}

#[test]
fn a_refused_chunk_keeps_the_earlier_ones_and_reports_a_short_window() {
    let mut mailbox = FakeMailbox::of_size(20_000)
        .fetches_answer(&[Answer::Fine, Answer::Fine, Answer::Refuse]);
    let (sweep, result, _) = swept(&mut mailbox, 0);

    let err = result.expect_err("the refusal is reported");
    assert!(!is_timeout(&err), "the connection is still usable");
    assert_eq!(mailbox.ranges.len(), 3, "the sweep stops at the refusal");
    assert_eq!(sweep.swept, 2_000);
    assert_eq!(sweep.msgs.len(), 2_000, "two chunks of real messages");
    assert!(sweep.short(), "the window has a hole at its oldest edge");
    assert!(!sweep.reached_end);
}

#[test]
fn a_timeout_stops_the_sweep_and_the_caller_can_tell() {
    let mut mailbox =
        FakeMailbox::of_size(20_000).fetches_answer(&[Answer::Fine, Answer::Timeout]);
    let (sweep, result, _) = swept(&mut mailbox, 0);

    assert!(is_timeout(&result.expect_err("the timeout is reported")));
    assert_eq!(sweep.swept, 1_000, "the chunk that landed still counts");
    assert!(sweep.short());
}

#[test]
fn progress_reports_uids_out_of_the_bound_and_stacks_so_far() {
    // 1,500 messages from two senders: the newest 1,000 from a@, the rest from
    // b@, so the stack count moves between the two chunks
    let mut msgs: Vec<MsgMeta> = (1..=500).map(|uid| meta(uid, "b@x.com")).collect();
    msgs.extend((501..=1_500).map(|uid| meta(uid, "a@x.com")));
    let mut mailbox = FakeMailbox::new(msgs);

    let (_, result, progress) = swept(&mut mailbox, 0);

    assert!(result.is_ok());
    let seen: Vec<(usize, usize, usize)> =
        progress.iter().map(|p| (p.swept, p.bound, p.stacks)).collect();
    assert_eq!(seen, [(1_000, 1_500, 1), (1_500, 1_500, 2)]);
}

#[test]
fn one_sender_counts_once_however_many_messages_it_sent() {
    let mut mailbox = FakeMailbox::new((1..=10).map(|uid| meta(uid, "a@x.com")).collect());
    let (_, _, progress) = swept(&mut mailbox, 0);
    assert_eq!(progress.last().map(|p| p.stacks), Some(1));
}

#[test]
fn a_sender_in_capitals_is_the_same_sender() {
    let mut mailbox = FakeMailbox::new(vec![meta(1, "A@x.com"), meta(2, "a@X.com")]);
    let (_, _, progress) = swept(&mut mailbox, 0);
    assert_eq!(progress.last().map(|p| p.stacks), Some(1));
}

#[test]
fn a_sweep_that_never_reached_the_mailbox_knows_nothing() {
    let none = Sweep::default();
    assert!(!none.anchored);
    assert_eq!((none.total, none.bound, none.swept), (0, 0, 0));
    assert!(!none.reached_end && !none.short() && none.msgs.is_empty());
}

#[test]
fn a_substring_match_never_lands_in_another_senders_fan_out() {
    let mut mailbox = FakeMailbox::new(vec![
        meta(1, "news@x.com"),
        meta(2, "xnews@x.com"),
        meta(3, "news@x.com"),
    ]);
    let (msgs, complete) = fan_out(&mut mailbox, "news@x.com").unwrap();

    assert!(complete);
    assert_eq!(msgs.len(), 2);
    assert!(
        msgs.iter().all(|m| m.sender_email == "news@x.com"),
        "xnews@ leaked into news@'s fan-out"
    );
}

#[test]
fn a_refused_fan_out_chunk_keeps_the_chunks_that_arrived() {
    let msgs: Vec<MsgMeta> =
        (1..=(FETCH_CHUNK as u32 + 500)).map(|uid| meta(uid, "big@x.com")).collect();
    // 1,500 messages is two fan-out chunks; the second is refused
    let mut mailbox = FakeMailbox::new(msgs).fetches_answer(&[Answer::Fine, Answer::Refuse]);

    let (msgs, complete) = fan_out(&mut mailbox, "big@x.com").unwrap();

    assert!(!complete, "the count is short and must say so");
    assert_eq!(msgs.len(), FETCH_CHUNK, "the first chunk survives");
}

#[test]
fn a_refused_fan_out_search_is_an_error_not_an_empty_result() {
    let mut mailbox = FakeMailbox::new(vec![meta(1, "bad@x.com")])
        .search_answers("bad@x.com", Answer::Refuse);
    let err = fan_out(&mut mailbox, "bad@x.com").expect_err("refused");
    assert!(!is_timeout(&err));
}

#[test]
fn a_timed_out_fan_out_chunk_is_an_error() {
    let mut mailbox =
        FakeMailbox::new(vec![meta(1, "a@x.com")]).fetches_answer(&[Answer::Timeout]);
    let err = fan_out(&mut mailbox, "a@x.com").expect_err("timed out");
    assert!(is_timeout(&err));
}

#[test]
fn a_timeout_is_distinguishable_from_a_server_refusal() {
    let refused = MailError::new("NO [CANNOT] search failed");
    assert!(!is_timeout(&refused));
    let out = MailError::timed_out("imap sender search", 60);
    assert!(is_timeout(&out));
    assert!(out.message().contains("press R to reconnect"));
    // still a timeout once it has been given context by a caller
    assert!(is_timeout(&out.context("loading batch")));
}

#[test]
fn an_error_reads_outermost_first() {
    let e = MailError::new("NO").context("fetching").context("sweeping");
    assert_eq!(e.message(), "sweeping: fetching: NO");
    assert_eq!(
        TimedOut { what: "imap trash".into(), secs: 30 }.message(),
        "imap trash timed out after 30s — connection presumed dead, press R to reconnect"
    );
}

#[test]
fn a_search_result_comes_newest_first() {
    assert_eq!(newest_first([3, 11, 7].into_iter().collect()), [11, 7, 3]);
    assert_eq!(newest_first(HashSet::new()), Vec::<u32>::new());
}

#[test]
fn a_fetched_header_becomes_a_message() {
    let raw = b"From: =?UTF-8?Q?Caf=C3=A9?= <News@Example.com>\r\nSUBJECT: Hello\r\nList-Unsubscribe: <https://x.com/u>\r\nList-Unsubscribe-Post: List-Unsubscribe=One-Click\r\n\r\n";
    let m = to_meta(Some(7), false, None, Some(raw)).unwrap();
    assert_eq!(m.uid, 7);
    assert_eq!(m.sender_name, "Café");
    assert_eq!(m.sender_email, "News@Example.com");
    assert_eq!(m.subject, "Hello");
    assert_eq!(m.list_unsubscribe.as_deref(), Some("<https://x.com/u>"));
    assert!(m.one_click && m.unread);
}

#[test]
fn a_response_without_uid_or_header_is_no_message() {
    let raw = b"From: a@x.com\r\n\r\n";
    assert!(to_meta(None, false, None, Some(raw)).is_none());
    assert!(to_meta(Some(1), false, None, None).is_none());
    // a lone carriage return cannot be parsed as a header
    assert!(to_meta(Some(1), false, None, Some(b"\rx")).is_none());
    let m = to_meta(Some(1), true, None, Some(b"\r\n")).unwrap();
    assert_eq!((m.sender_email.as_str(), m.subject.as_str()), ("", ""));
    assert!(!m.unread && !m.one_click && m.list_unsubscribe.is_none());
}

#[test]
fn a_from_header_is_split_into_name_and_address() {
    let both = |s: &str| {
        let (n, e) = parse_from(s);
        (n, e)
    };
    assert_eq!(both("John Doe <a@b.com>"), ("John Doe".into(), "a@b.com".into()));
    assert_eq!(both("a@b.com"), ("".into(), "a@b.com".into()));
    assert_eq!(
        both("Team: Ann <ann@b.com>, bob@b.com;"),
        ("Ann".into(), "ann@b.com".into()),
        "a group is known by its first mailbox"
    );
    assert_eq!(both("  not an address  "), ("".into(), "not an address".into()));
}

#[test]
fn a_sender_is_the_first_mailbox_there_is() {
    let list = vec![vec![], vec![(None, "x@y.z".to_string()), (Some("Q".into()), "q@y.z".into())]];
    assert_eq!(pick_sender(Some(list), "raw"), ("".into(), "x@y.z".into()));
    assert_eq!(pick_sender(Some(vec![]), " raw "), ("".into(), "raw".into()));
    assert_eq!(pick_sender(None, " raw "), ("".into(), "raw".into()));
}

#[test]
fn fields_are_found_by_name_whatever_the_case() {
    let fields = vec![
        ("SUBJECT".to_string(), "one".to_string()),
        ("Subject".to_string(), "two".to_string()),
        ("list-unsubscribe-post".to_string(), "List-Unsubscribe=ONE-CLICK".to_string()),
    ];
    assert_eq!(get_first_value(&fields, "subject").as_deref(), Some("one"));
    assert_eq!(get_first_value(&fields, "From"), None);
    let m = meta_from(9, true, None, &fields, ("N".into(), "n@x.com".into()));
    assert_eq!((m.uid, m.subject.as_str(), m.one_click, m.unread), (9, "one", true, false));
    assert_eq!(m.list_unsubscribe, None);
}

#[test]
fn special_folders_are_known_by_their_attributes() {
    let f = |a: &str, n: &str| (a.to_string(), n.to_string());
    assert_eq!(
        resolve_folders(&[f("[NoInferiors]", "INBOX")]),
        ("[Gmail]/Trash".into(), "[Gmail]/All Mail".into())
    );
    assert_eq!(
        resolve_folders(&[
            f("[Extension(\"\\\\Trash\")]", "[Gmail]/Papierkorb"),
            f("[Extension(\"\\\\All\")]", "[Gmail]/Alle Nachrichten"),
        ]),
        ("[Gmail]/Papierkorb".into(), "[Gmail]/Alle Nachrichten".into())
    );
}
