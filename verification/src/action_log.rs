//! Append-only log of triage decisions — ground truth for evaluating any
//! future suggestion policy (heuristics, per-sender recall, ML).
//!
//! One record per (stack, decision). Actions are logged as they execute;
//! stacks the user saw on screen but left alone are logged as `keep` at
//! session end. Records queue up here; writing them out is best-effort and
//! happens elsewhere.
use crate::clock::{now, Timestamp};
use crate::config::{a_path_lies_below_its_directory, join_path, joined_path};
use crate::sort::{views, Compare, Order};
use crate::stacks::{any_one_click, copy_opt, opt_text, MsgMeta, MsgV, Stack, StackV};
use crate::text::{
    a_cut_is_at_the_first, begins, chars_of, cut_at, lemma_text_total, lemma_text_transitive, split_once, string_of, text_not_after,
    text_up_to,
};
use vstd::prelude::*;
use vstd::string::*;

verus! {

pub const SCHEMA_VERSION: u8 = 1;

/// What the user decided about a stack.
#[derive(Debug, Clone, Copy, PartialEq, Eq, Structural)]
pub enum Action {
    Trash,
    Archive,
    Read,
    Unsub,
    /// seen on screen during the session, never acted on
    Keep,
}

impl Action {
    /// How the log writes it.
    pub fn name(self) -> (r: &'static str)
        ensures
            r@ == (match self {
                Action::Trash => "trash"@,
                Action::Archive => "archive"@,
                Action::Read => "read"@,
                Action::Unsub => "unsub"@,
                Action::Keep => "keep"@,
            }),
    {
        match self {
            Action::Trash => "trash",
            Action::Archive => "archive",
            Action::Read => "read",
            Action::Unsub => "unsub",
            Action::Keep => "keep",
        }
    }
}

/// Stack features frozen at the moment the user saw or acted on it — the
/// inbox mutates, so they cannot be reconstructed from the log later.
#[derive(Debug, Clone)]
pub struct StackSnapshot {
    /// lowercased sender address
    pub sender: String,
    /// normalized subject, present only when grouped by sender+subject
    pub subject: Option<String>,
    pub group_by: &'static str,
    pub count: usize,
    pub read_rate: u8,
    pub has_unsub: bool,
    pub one_click: bool,
    /// days between oldest and newest message in the stack
    pub span_days: i64,
    /// days since the newest message
    pub latest_age_days: i64,
}

/// The value of a `StackSnapshot`.
pub struct SnapV {
    pub sender: Seq<char>,
    pub subject: Option<Seq<char>>,
    pub group_by: Seq<char>,
    pub count: nat,
    pub read_rate: int,
    pub has_unsub: bool,
    pub one_click: bool,
    pub span_days: int,
    pub latest_age_days: int,
}

impl View for StackSnapshot {
    type V = SnapV;

    open spec fn view(&self) -> SnapV {
        SnapV {
            sender: self.sender@,
            subject: opt_text(self.subject),
            group_by: self.group_by@,
            count: self.count as nat,
            read_rate: self.read_rate as int,
            has_unsub: self.has_unsub,
            one_click: self.one_click,
            span_days: self.span_days as int,
            latest_age_days: self.latest_age_days as int,
        }
    }
}

/// A grouping key as the sender and, where the subject counts, the normalized
/// subject behind the NUL.
pub open spec fn key_parts(key: Seq<char>) -> (Seq<char>, Option<Seq<char>>) {
    match cut_at(key, '\0') {
        Some((sender, subject)) => (sender, Some(subject)),
        None => (key, None),
    }
}

/// The date of the first message, of the last: where there is one.
pub open spec fn newest_date(ms: Seq<MsgV>) -> Option<Timestamp> {
    if ms.len() == 0 {
        None
    } else {
        ms[0].date
    }
}

pub open spec fn oldest_date(ms: Seq<MsgV>) -> Option<Timestamp> {
    if ms.len() == 0 {
        None
    } else {
        ms.last().date
    }
}

/// The features of a stack at a point in time.
pub open spec fn snapshot(s: StackV, at: Timestamp) -> SnapV {
    let (sender, subject) = key_parts(s.key);
    SnapV {
        sender,
        subject,
        group_by: match subject {
            Some(_) => "sender+subject"@,
            None => "sender"@,
        },
        count: s.msgs.len(),
        read_rate: s.rate(),
        has_unsub: s.can_unsubscribe,
        one_click: any_one_click(s.msgs),
        span_days: match (newest_date(s.msgs), oldest_date(s.msgs)) {
            (Some(n), Some(o)) => n.days_after(o),
            _ => 0,
        },
        latest_age_days: match newest_date(s.msgs) {
            Some(n) => at.days_after(n),
            None => 0,
        },
    }
}

fn one_click_in(ms: &Vec<MsgMeta>) -> (r: bool)
    ensures
        r == any_one_click(views(ms@)),
{
    let mut i: usize = 0;
    while i < ms.len()
        invariant
            i <= ms@.len(),
            forall|j: int| 0 <= j < i ==> !(#[trigger] views(ms@)[j]).one_click,
        decreases ms@.len() - i,
    {
        if ms[i].one_click {
            assert(views(ms@)[i as int].one_click);
            return true;
        }
        i += 1;
    }
    false
}

impl StackSnapshot {
    /// The stack as it is now.
    pub fn of(stack: &Stack) -> (r: StackSnapshot)
        ensures
            exists|at: Timestamp| r@ == snapshot(stack@, at),
    {
        let at = now();
        StackSnapshot::of_at(stack, at)
    }

    /// The stack as it is at a point in time.
    pub fn of_at(stack: &Stack, at: Timestamp) -> (r: StackSnapshot)
        ensures
            r@ == snapshot(stack@, at),
            r.count == stack.msgs@.len(),
            r.has_unsub == stack.can_unsubscribe,
            r.one_click <==> exists|i: int|
                0 <= i < stack.msgs@.len() && (#[trigger] stack.msgs@[i]).one_click,
    {
        proof {
            if any_one_click(stack@.msgs) {
                let i = choose|i: int|
                    0 <= i < stack@.msgs.len() && (#[trigger] stack@.msgs[i]).one_click;
                assert(stack.msgs@[i].one_click);
            }
            if exists|i: int| 0 <= i < stack.msgs@.len() && (#[trigger] stack.msgs@[i]).one_click {
                let i = choose|i: int|
                    0 <= i < stack.msgs@.len() && (#[trigger] stack.msgs@[i]).one_click;
                assert(stack@.msgs[i].one_click);
            }
        }
        // the grouping key is "sender" or "sender\0normalized-subject"
        let key = chars_of(stack.key.as_str());
        let (sender, subject) = match split_once(key.as_slice(), '\0') {
            Some((s, subj)) => (string_of(s), Some(string_of(subj))),
            None => (stack.key.clone(), None),
        };
        let n: usize = stack.msgs.len();
        let newest = if n == 0 {
            None
        } else {
            assert(stack@.msgs[0] == stack.msgs@[0]@);
            stack.msgs[0].date
        };
        let oldest = if n == 0 {
            None
        } else {
            assert(stack@.msgs.last() == stack.msgs@.last()@);
            stack.msgs[n - 1].date
        };
        let span_days: i64 = match (newest, oldest) {
            (Some(a), Some(b)) => a.days_since(b),
            _ => 0,
        };
        let latest_age_days: i64 = match newest {
            Some(a) => at.days_since(a),
            None => 0,
        };
        StackSnapshot {
            group_by: if subject.is_some() {
                "sender+subject"
            } else {
                "sender"
            },
            sender,
            subject,
            count: n,
            read_rate: stack.read_rate(),
            has_unsub: stack.can_unsubscribe,
            one_click: one_click_in(&stack.msgs),
            span_days,
            latest_age_days,
        }
    }

    /// The same snapshot again.
    pub fn copy(&self) -> (r: StackSnapshot)
        ensures
            r@ == self@,
    {
        StackSnapshot {
            sender: self.sender.clone(),
            subject: copy_opt(&self.subject),
            group_by: self.group_by,
            count: self.count,
            read_rate: self.read_rate,
            has_unsub: self.has_unsub,
            one_click: self.one_click,
            span_days: self.span_days,
            latest_age_days: self.latest_age_days,
        }
    }
}

/// By sender, then by subject; no subject comes first.
pub struct BySender;

pub open spec fn subject_up_to(a: Option<Seq<char>>, b: Option<Seq<char>>) -> bool {
    match (a, b) {
        (None, _) => true,
        (Some(_), None) => false,
        (Some(x), Some(y)) => text_up_to(x, y),
    }
}

impl Order<SnapV> for BySender {
    open spec fn le(a: SnapV, b: SnapV) -> bool {
        if a.sender == b.sender {
            subject_up_to(a.subject, b.subject)
        } else {
            text_up_to(a.sender, b.sender)
        }
    }

    proof fn total(a: SnapV, b: SnapV) {
        lemma_text_total(a.sender, b.sender);
        if let (Some(x), Some(y)) = (a.subject, b.subject) {
            lemma_text_total(x, y);
        }
    }

    proof fn transitive(a: SnapV, b: SnapV, c: SnapV) {
        if a.sender == b.sender && b.sender == c.sender {
            if let (Some(x), Some(y), Some(z)) = (a.subject, b.subject, c.subject) {
                lemma_text_transitive(x, y, z);
            }
        } else if a.sender != b.sender && b.sender != c.sender {
            lemma_text_transitive(a.sender, b.sender, c.sender);
            lemma_text_total(a.sender, b.sender);
        }
    }
}

impl Order<StackSnapshot> for BySender {
    open spec fn le(a: StackSnapshot, b: StackSnapshot) -> bool {
        <BySender as Order<SnapV>>::le(a@, b@)
    }

    proof fn total(a: StackSnapshot, b: StackSnapshot) {
        <BySender as Order<SnapV>>::total(a@, b@);
    }

    proof fn transitive(a: StackSnapshot, b: StackSnapshot, c: StackSnapshot) {
        <BySender as Order<SnapV>>::transitive(a@, b@, c@);
    }
}

impl Compare<StackSnapshot> for BySender {
    fn before(a: &StackSnapshot, b: &StackSnapshot) -> (r: bool) {
        if a.sender == b.sender {
            match (&a.subject, &b.subject) {
                (None, _) => true,
                (Some(_), None) => false,
                (Some(x), Some(y)) => text_not_after(x.as_str(), y.as_str()),
            }
        } else {
            text_not_after(a.sender.as_str(), b.sender.as_str())
        }
    }
}

// ---------------------------------------------------------------------------
// the log
// ---------------------------------------------------------------------------

/// One decision about one stack.
#[derive(Debug, Clone)]
pub struct Record {
    pub v: u8,
    pub account: String,
    pub action: Action,
    /// whether the tool suggested this action (no suggestion engine yet;
    /// recorded from day one so suggestion-biased labels are detectable)
    pub suggested: bool,
    pub stack: StackSnapshot,
}

/// The value of a `Record`.
pub struct RecordV {
    pub v: u8,
    pub account: Seq<char>,
    pub action: Action,
    pub suggested: bool,
    pub stack: SnapV,
}

impl View for Record {
    type V = RecordV;

    open spec fn view(&self) -> RecordV {
        RecordV {
            v: self.v,
            account: self.account@,
            action: self.action,
            suggested: self.suggested,
            stack: self.stack@,
        }
    }
}

/// One record for each stack, in their order.
pub open spec fn records(account: Seq<char>, action: Action, stacks: Seq<SnapV>) -> Seq<RecordV> {
    Seq::new(
        stacks.len(),
        |i: int|
            RecordV {
                v: SCHEMA_VERSION,
                account,
                action,
                suggested: false,
                stack: stacks[i],
            },
    )
}

/// The log: where it is written, and the records that wait to be.
pub struct ActionLog {
    /// None = logging disabled
    path: Option<String>,
    pending: Vec<Record>,
}

/// The value of an `ActionLog`.
pub struct ActionLogV {
    pub path: Option<Seq<char>>,
    pub pending: Seq<RecordV>,
}

impl View for ActionLog {
    type V = ActionLogV;

    closed spec fn view(&self) -> ActionLogV {
        ActionLogV { path: opt_text(self.path), pending: views(self.pending@) }
    }
}

impl ActionLogV {
    /// The log with a decision about these stacks; a disabled log stays as it
    /// is.
    pub open spec fn logged(
        self,
        account: Seq<char>,
        action: Action,
        stacks: Seq<SnapV>,
    ) -> ActionLogV {
        match self.path {
            Some(_) => ActionLogV {
                pending: self.pending + records(account, action, stacks),
                ..self
            },
            None => self,
        }
    }
}

impl ActionLog {
    /// A log at its default place, or none.
    pub fn new(enabled: bool, xdg_state_home: Option<&str>, home: Option<&str>) -> (r: ActionLog)
        ensures
            r@.pending == Seq::<RecordV>::empty(),
            r@.path == (if enabled {
                Some(default_path_text(str_text(xdg_state_home), str_text(home)))
            } else {
                None
            }),
    {
        let path = if enabled {
            Some(default_path(xdg_state_home, home))
        } else {
            None
        };
        let pending: Vec<Record> = Vec::new();
        assert(views(pending@) =~= Seq::<RecordV>::empty());
        ActionLog { path, pending }
    }

    /// A log at this place.
    pub fn at(path: String) -> (r: ActionLog)
        ensures
            r@.pending == Seq::<RecordV>::empty(),
            r@.path == Some(path@),
    {
        let pending: Vec<Record> = Vec::new();
        assert(views(pending@) =~= Seq::<RecordV>::empty());
        ActionLog { path: Some(path), pending }
    }

    /// Log a decision about these stacks.
    pub fn log(&mut self, account: &str, action: Action, stacks: &[StackSnapshot])
        ensures
            final(self)@ == old(self)@.logged(account@, action, views(stacks@)),
    {
        if self.path.is_none() {
            return;
        }
        let ghost before = self@;
        let ghost all = records(account@, action, views(stacks@));
        let mut i: usize = 0;
        assert(before.pending + all.take(0) =~= before.pending);
        while i < stacks.len()
            invariant
                i <= stacks@.len(),
                self@.path == before.path,
                all == records(account@, action, views(stacks@)),
                self@.pending == before.pending + all.take(i as int),
            decreases stacks@.len() - i,
        {
            let ghost queued = self.pending@;
            let record = Record {
                v: SCHEMA_VERSION,
                account: account.to_owned(),
                action,
                suggested: false,
                stack: stacks[i].copy(),
            };
            let ghost r = record@;
            self.pending.push(record);
            assert(views(self.pending@) =~= views(queued).push(r));
            assert(r == all[i as int]);
            i += 1;
            assert(self@.pending =~= before.pending + all.take(i as int));
        }
        assert(all.take(i as int) =~= all);
    }

    /// Where the log is written; None when it is disabled.
    pub fn path(&self) -> (r: Option<&str>)
        ensures
            str_text(r) == self@.path,
    {
        match &self.path {
            Some(p) => Some(p.as_str()),
            None => None,
        }
    }

    /// Hand out the records that wait to be written.
    pub fn take_pending(&mut self) -> (r: Vec<Record>)
        ensures
            views(r@) == old(self)@.pending,
            final(self)@ == (ActionLogV { pending: Seq::empty(), ..old(self)@ }),
    {
        let ghost waiting = self.pending@;
        let mut out: Vec<Record> = Vec::new();
        out.append(&mut self.pending);
        assert(out@ =~= waiting);
        assert(views(self.pending@) =~= Seq::<RecordV>::empty());
        out
    }
}

/// The text in an optional string slice.
pub open spec fn str_text(o: Option<&str>) -> Option<Seq<char>> {
    match o {
        Some(s) => Some(s@),
        None => None,
    }
}

/// The directory for state: `$XDG_STATE_HOME/mailprune` where that is an
/// absolute path, else below `~/.local/state`, else below the current
/// directory.
pub open spec fn state_dir_text(xdg: Option<Seq<char>>, home: Option<Seq<char>>) -> Seq<char> {
    let absolute = xdg matches Some(x) && x.len() > 0 && x[0] == '/';
    let base = if absolute {
        xdg->0
    } else {
        match home {
            Some(h) => joined_path(h, ".local/state"@),
            None => "."@,
        }
    };
    joined_path(base, "mailprune"@)
}

pub open spec fn default_path_text(xdg: Option<Seq<char>>, home: Option<Seq<char>>) -> Seq<char> {
    joined_path(state_dir_text(xdg, home), "actions.jsonl"@)
}

/// $XDG_STATE_HOME/mailprune, default ~/.local/state/mailprune
pub fn state_dir(xdg_state_home: Option<&str>, home: Option<&str>) -> (r: String)
    ensures
        r@ == state_dir_text(str_text(xdg_state_home), str_text(home)),
{
    if let Some(x) = xdg_state_home {
        if x.unicode_len() > 0 && x.get_char(0) == '/' {
            return join_path(x, "mailprune");
        }
    }
    match home {
        Some(h) => {
            let base = join_path(h, ".local/state");
            join_path(base.as_str(), "mailprune")
        },
        None => join_path(".", "mailprune"),
    }
}

/// Where the log is written unless told otherwise.
pub fn default_path(xdg_state_home: Option<&str>, home: Option<&str>) -> (r: String)
    ensures
        r@ == default_path_text(str_text(xdg_state_home), str_text(home)),
{
    let dir = state_dir(xdg_state_home, home);
    join_path(dir.as_str(), "actions.jsonl")
}

/// A disabled log takes nothing: whatever is logged, nothing waits to be
/// written.
pub proof fn a_disabled_log_records_nothing(
    log: ActionLogV,
    account: Seq<char>,
    action: Action,
    stacks: Seq<SnapV>,
)
    requires
        log.path is None,
    ensures
        log.logged(account, action, stacks) == log,
{
}

/// An enabled log takes one record for each stack, after those it has.
pub proof fn a_log_takes_one_record_per_stack(
    log: ActionLogV,
    account: Seq<char>,
    action: Action,
    stacks: Seq<SnapV>,
)
    requires
        log.path is Some,
    ensures
        log.logged(account, action, stacks).pending.len() == log.pending.len() + stacks.len(),
        log.logged(account, action, stacks).pending.take(log.pending.len() as int) == log.pending,
        forall|i: int|
            0 <= i < stacks.len() ==> {
                let r = #[trigger] records(account, action, stacks)[i];
                r.stack == stacks[i] && r.action == action && r.account == account && !r.suggested
            },
{
    let after = log.logged(account, action, stacks).pending;
    assert(after.take(log.pending.len() as int) =~= log.pending);
}

/// An enabled log writes down of each stack what it was, for which account and
/// what was decided, none of it as suggested; the log stays where it is.
pub proof fn a_record_says_what_was_decided(
    log: ActionLogV,
    account: Seq<char>,
    action: Action,
    stacks: Seq<SnapV>,
    i: int,
)
    requires
        log.path is Some,
        0 <= i < stacks.len(),
    ensures
        ({
            let after = log.logged(account, action, stacks);
            let r = after.pending[log.pending.len() + i];
            &&& after.path == log.path
            &&& after.pending.len() == log.pending.len() + stacks.len()
            &&& r.v == 1
            &&& r.account == account
            &&& r.action == action
            &&& !r.suggested
            &&& r.stack == stacks[i]
        }),
{
}

/// A snapshot names the sender that the key names, and the subject where the
/// key has one; it counts the messages, and tells of the oldest and the newest
/// how many days lie between them and how long ago the newest came.
pub proof fn a_snapshot_tells_of_its_stack(s: StackV, at: Timestamp)
    ensures
        ({
            let r = snapshot(s, at);
            &&& match r.subject {
                Some(subject) => s.key == r.sender.push('\0') + subject && !r.sender.contains('\0')
                    && r.group_by == "sender+subject"@,
                None => s.key == r.sender && !s.key.contains('\0') && r.group_by == "sender"@,
            }
            &&& r.count == s.msgs.len()
            &&& r.read_rate == s.rate()
            &&& r.has_unsub == s.can_unsubscribe
            &&& r.one_click <==> exists|i: int|
                0 <= i < s.msgs.len() && (#[trigger] s.msgs[i]).one_click
            &&& s.msgs.len() > 0 ==> {
                &&& s.msgs[0].date matches Some(newest) ==> r.latest_age_days == at.days_after(
                    newest,
                )
                &&& s.msgs[0].date is None ==> r.latest_age_days == 0 && r.span_days == 0
                &&& s.msgs.last().date is None ==> r.span_days == 0
                &&& s.msgs[0].date matches Some(newest) ==> s.msgs.last().date matches Some(oldest)
                    ==> r.span_days == newest.days_after(oldest)
            }
        }),
{
    a_cut_is_at_the_first(s.key, '\0');
}

/// The log lies in a directory of its own: below `$XDG_STATE_HOME` where that
/// is absolute, whatever the home directory; otherwise below the home
/// directory's `.local/state`, whatever the variable says.
pub proof fn state_lies_below_an_absolute_directory(
    xdg: Option<Seq<char>>,
    other: Option<Seq<char>>,
    home: Option<Seq<char>>,
    away: Option<Seq<char>>,
)
    ensures
        ({
            let d = state_dir_text(xdg, home);
            &&& d.skip(d.len() - "mailprune"@.len()) == "mailprune"@
            &&& (xdg matches Some(x) && x.len() > 0 && x[0] == '/') ==> d == state_dir_text(
                xdg,
                away,
            ) && begins(d, xdg->0)
            &&& !(xdg matches Some(x) && x.len() > 0 && x[0] == '/') && !(other matches Some(y)
                && y.len() > 0 && y[0] == '/') ==> d == state_dir_text(other, home)
            &&& !(xdg matches Some(x) && x.len() > 0 && x[0] == '/') ==> (home matches Some(h)
                ==> begins(d, h))
        }),
        ({
            let p = default_path_text(xdg, home);
            p == state_dir_text(xdg, home) + "/actions.jsonl"@
        }),
{
    let d = state_dir_text(xdg, home);
    let absolute = xdg matches Some(x) && x.len() > 0 && x[0] == '/';
    let base = if absolute {
        xdg->0
    } else {
        match home {
            Some(h) => joined_path(h, ".local/state"@),
            None => "."@,
        }
    };
    a_path_lies_below_its_directory(base, "mailprune"@);
    if let Some(h) = home {
        a_path_lies_below_its_directory(h, ".local/state"@);
        if !absolute {
            assert(d.take(h.len() as int) =~= base.take(h.len() as int)) by {
                assert(d.take(base.len() as int) == base);
                assert(base.take(h.len() as int) =~= d.take(base.len() as int).take(
                    h.len() as int,
                ));
            }
        }
    }
    reveal_strlit("mailprune");
    reveal_strlit("/");
    reveal_strlit("actions.jsonl");
    reveal_strlit("/actions.jsonl");
    assert(d.last() == d.skip(d.len() - "mailprune"@.len()).last());
    assert(d.last() == 'e');
    a_path_lies_below_its_directory(d, "actions.jsonl"@);
    assert(default_path_text(xdg, home) =~= d + "/actions.jsonl"@);
}

} // verus!
