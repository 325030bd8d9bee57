//! What the application hands out to be done in the background, how the
//! longer jobs go from step to step, and what comes back.
use crate::config::{AccountConfig, AccountConfigV};
use crate::imap_client::{
    escaped, from_exactly, is_timeout, sender_query, senders_of, FanOut, FanOutV, MailError, Sweep,
    SweepProgress, SweepRun, SweepRunV, SweepV,
};
use crate::sort::views;
use crate::stacks::{opt_text, uids_of, unsubscribe_at, MsgMeta, Stack, StackV};
use crate::text::{commas, decimal, grouped, number, push_decimal};
use crate::ui::account::{below, count_at, ints, AccountView};
use crate::unsubscribe::{is_readable, method_of, pick_method, readable, Method, MethodV};
use vstd::prelude::*;
use vstd::string::*;

verus! {

// ---------------------------------------------------------------------------
// decisions that wait for an answer
// ---------------------------------------------------------------------------

/// A pending action, with the stacks it is about.
#[derive(Debug, Clone)]
pub enum PendingAction {
    Trash { stack_idxs: Vec<usize> },
    Archive { stack_idxs: Vec<usize> },
    Unsubscribe { stack_idxs: Vec<usize> },
    /// after a successful unsubscribe, offer to trash the stacks too
    TrashAfterUnsub { stack_idxs: Vec<usize> },
}

/// The value of a `PendingAction`.
pub enum PendingV {
    Trash(Seq<int>),
    Archive(Seq<int>),
    Unsubscribe(Seq<int>),
    TrashAfterUnsub(Seq<int>),
}

impl View for PendingAction {
    type V = PendingV;

    open spec fn view(&self) -> PendingV {
        match self {
            PendingAction::Trash { stack_idxs } => PendingV::Trash(ints(stack_idxs@)),
            PendingAction::Archive { stack_idxs } => PendingV::Archive(ints(stack_idxs@)),
            PendingAction::Unsubscribe { stack_idxs } => PendingV::Unsubscribe(ints(stack_idxs@)),
            PendingAction::TrashAfterUnsub { stack_idxs } => PendingV::TrashAfterUnsub(
                ints(stack_idxs@),
            ),
        }
    }
}

/// The stack that an unsubscribe looks at can be read.
pub open spec fn source_readable(s: StackV) -> bool {
    let i = unsubscribe_at(s.msgs);
    i < s.msgs.len() ==> readable(s.msgs[i])
}

/// The way to unsubscribe from a stack: what its most recent message with a
/// List-Unsubscribe header offers.
pub open spec fn stack_method(s: StackV) -> Option<MethodV> {
    let i = unsubscribe_at(s.msgs);
    if i < s.msgs.len() {
        method_of(s.msgs[i])
    } else {
        None
    }
}

/// Every one of these stacks can be read for its way to unsubscribe.
pub open spec fn sources_readable(stacks: Seq<StackV>, idxs: Seq<int>) -> bool {
    forall|k: int| 0 <= k < idxs.len() ==> source_readable(stacks[#[trigger] idxs[k]])
}

/// "DoorDash", or "3 stacks" once it is more than one.
pub open spec fn whose(stacks: Seq<StackV>, idxs: Seq<int>) -> Seq<char> {
    if idxs.len() == 1 {
        stacks[idxs[0]].display_name
    } else {
        decimal(idxs.len()) + " stacks"@
    }
}

/// "400 messages from DoorDash (12 in view)" — what moves, and where it moves
/// from. The number in view is stated where more than that moves.
pub open spec fn mail_text(stacks: Seq<StackV>, idxs: Seq<int>, beyond: nat) -> Seq<char> {
    let held = count_at(stacks, idxs);
    grouped(held + beyond) + " message"@ + (if held + beyond == 1 {
        ""@
    } else {
        "s"@
    }) + " from "@ + whose(stacks, idxs) + (if beyond > 0 {
        " ("@ + grouped(held) + " in view)"@
    } else {
        ""@
    })
}

/// How a stack would be unsubscribed from, for the prompt.
pub open spec fn via_text(s: StackV) -> Seq<char> {
    match stack_method(s) {
        Some(m) => m.description(),
        None => "?"@,
    }
}

impl PendingV {
    pub open spec fn idxs(self) -> Seq<int> {
        match self {
            PendingV::Trash(s) => s,
            PendingV::Archive(s) => s,
            PendingV::Unsubscribe(s) => s,
            PendingV::TrashAfterUnsub(s) => s,
        }
    }

    /// The action is about stacks that are there, and that it can be carried
    /// out on.
    pub open spec fn fits(self, stacks: Seq<StackV>) -> bool {
        &&& below(self.idxs(), stacks.len())
        &&& count_at(stacks, self.idxs()) <= usize::MAX
        &&& self is Unsubscribe ==> sources_readable(stacks, self.idxs())
    }

    /// The question that the user is asked.
    pub open spec fn question(self, stacks: Seq<StackV>, beyond: nat) -> Seq<char> {
        match self {
            PendingV::Trash(idxs) => "trash "@ + mail_text(stacks, idxs, beyond) + "?"@,
            PendingV::Archive(idxs) => "archive "@ + mail_text(stacks, idxs, beyond) + "?"@,
            // unsubscribing is per sender, not per message, so this one counts
            // senders rather than the mail behind them
            PendingV::Unsubscribe(idxs) => if idxs.len() == 1 {
                "unsubscribe from "@ + whose(stacks, idxs) + " via "@ + via_text(stacks[idxs[0]])
                    + "?"@
            } else {
                "unsubscribe from "@ + whose(stacks, idxs) + "?"@
            },
            PendingV::TrashAfterUnsub(idxs) => "unsubscribed — also trash "@ + mail_text(
                stacks,
                idxs,
                beyond,
            ) + "?"@,
        }
    }
}

/// The way to unsubscribe from a stack.
pub fn method_for(stack: &Stack) -> (r: Option<Method>)
    requires
        source_readable(stack@),
    ensures
        match r {
            Some(m) => stack_method(stack@) == Some(m@),
            None => stack_method(stack@) is None,
        },
{
    match stack.unsubscribe_source() {
        Some(m) => pick_method(m),
        None => None,
    }
}

/// Can the stack be read for its way to unsubscribe?
pub fn is_source_readable(stack: &Stack) -> (r: bool)
    ensures
        r == source_readable(stack@),
{
    match stack.unsubscribe_source() {
        Some(m) => is_readable(m),
        None => true,
    }
}

/// How many messages these stacks hold.
pub fn count(stacks: &Vec<Stack>, idxs: &Vec<usize>) -> (r: usize)
    requires
        below(ints(idxs@), stacks@.len()),
        count_at(views(stacks@), ints(idxs@)) <= usize::MAX,
    ensures
        r == count_at(views(stacks@), ints(idxs@)),
{
    let ghost all = ints(idxs@);
    let ghost v = views(stacks@);
    let mut n: usize = 0;
    let mut k: usize = 0;
    assert(all.take(0) =~= Seq::<int>::empty());
    while k < idxs.len()
        invariant
            k <= idxs@.len(),
            all == ints(idxs@),
            v == views(stacks@),
            below(all, stacks@.len()),
            count_at(v, all) <= usize::MAX,
            n == count_at(v, all.take(k as int)),
        decreases idxs@.len() - k,
    {
        let i: usize = idxs[k];
        proof {
            assert(all[k as int] == i as int);
            assert(all.take(k + 1).drop_last() =~= all.take(k as int));
            assert(all.take(k + 1).last() == i as int);
            lemma_count_prefix(v, all, k + 1);
            assert(v[i as int] == stacks@[i as int]@);
        }
        n = n + stacks[i].msgs.len();
        k += 1;
    }
    assert(all.take(k as int) =~= all);
    n
}

pub proof fn lemma_count_prefix(stacks: Seq<StackV>, idxs: Seq<int>, k: int)
    requires
        0 <= k <= idxs.len(),
    ensures
        count_at(stacks, idxs.take(k)) <= count_at(stacks, idxs),
    decreases idxs.len(),
{
    if k < idxs.len() {
        assert(idxs.drop_last().take(k) =~= idxs.take(k));
        lemma_count_prefix(stacks, idxs.drop_last(), k);
    } else {
        assert(idxs.take(k) =~= idxs);
    }
}

/// Can the messages of these stacks be counted, together with `extra` more?
pub fn can_count(stacks: &Vec<Stack>, idxs: &Vec<usize>, extra: usize) -> (r: bool)
    requires
        below(ints(idxs@), stacks@.len()),
    ensures
        r == (count_at(views(stacks@), ints(idxs@)) + extra <= usize::MAX),
{
    let ghost all = ints(idxs@);
    let ghost v = views(stacks@);
    let mut n: usize = extra;
    let mut k: usize = 0;
    assert(all.take(0) =~= Seq::<int>::empty());
    while k < idxs.len()
        invariant
            k <= idxs@.len(),
            all == ints(idxs@),
            v == views(stacks@),
            below(all, stacks@.len()),
            n == count_at(v, all.take(k as int)) + extra,
        decreases idxs@.len() - k,
    {
        let i: usize = idxs[k];
        proof {
            assert(all[k as int] == i as int);
            assert(all.take(k + 1).drop_last() =~= all.take(k as int));
            assert(all.take(k + 1).last() == i as int);
            lemma_count_prefix(v, all, k + 1);
            assert(v[i as int] == stacks@[i as int]@);
        }
        match n.checked_add(stacks[i].msgs.len()) {
            Some(sum) => {
                n = sum;
            },
            None => return false,
        }
        k += 1;
    }
    assert(all.take(k as int) =~= all);
    true
}

/// Is every index one of `n` things?
pub fn all_below(idxs: &Vec<usize>, n: usize) -> (r: bool)
    ensures
        r == below(ints(idxs@), n as nat),
{
    let mut k: usize = 0;
    while k < idxs.len()
        invariant
            k <= idxs@.len(),
            forall|j: int| 0 <= j < k ==> 0 <= #[trigger] ints(idxs@)[j] < n,
        decreases idxs@.len() - k,
    {
        if idxs[k] >= n {
            assert(ints(idxs@)[k as int] >= n);
            return false;
        }
        k += 1;
    }
    true
}

/// "DoorDash", or "3 stacks" once it is more than one.
pub fn label(stacks: &Vec<Stack>, idxs: &Vec<usize>) -> (r: String)
    requires
        below(ints(idxs@), stacks@.len()),
    ensures
        r@ == whose(views(stacks@), ints(idxs@)),
{
    if idxs.len() == 1 {
        let i: usize = idxs[0];
        assert(ints(idxs@)[0] == i as int);
        assert(views(stacks@)[i as int] == stacks@[i as int]@);
        stacks[i].display_name.clone()
    } else {
        let mut out = number(idxs.len());
        out.append(" stacks");
        out
    }
}

fn push_mail(out: &mut String, stacks: &Vec<Stack>, idxs: &Vec<usize>, beyond: usize)
    requires
        below(ints(idxs@), stacks@.len()),
        count_at(views(stacks@), ints(idxs@)) + beyond <= usize::MAX,
    ensures
        final(out)@ == old(out)@ + mail_text(views(stacks@), ints(idxs@), beyond as nat),
{
    let ghost start = out@;
    let held: usize = count(stacks, idxs);
    let n: usize = held + beyond;
    let total = commas(n);
    out.append(total.as_str());
    out.append(" message");
    out.append(
        if n == 1 {
            ""
        } else {
            "s"
        },
    );
    out.append(" from ");
    let who = label(stacks, idxs);
    out.append(who.as_str());
    if beyond > 0 {
        out.append(" (");
        let in_view = commas(held);
        out.append(in_view.as_str());
        out.append(" in view)");
    } else {
        out.append("");
    }
    assert(out@ =~= start + mail_text(views(stacks@), ints(idxs@), beyond as nat));
}

impl PendingAction {
    /// The alert's headline. It does not name `y`/`n`: the hint line under it
    /// does, and the box saying the same thing twice wastes one of its three
    /// lines.
    pub fn prompt(&self, acct: &AccountView) -> (r: String)
        requires
            self@.fits(acct@.stacks),
        ensures
            r@ == self@.question(acct@.stacks, 0),
    {
        self.prompt_for(acct, 0)
    }

    /// The same, where the action reaches this many messages beyond those in
    /// view.
    pub fn prompt_for(&self, acct: &AccountView, beyond: usize) -> (r: String)
        requires
            self@.fits(acct@.stacks),
            count_at(acct@.stacks, self@.idxs()) + beyond <= usize::MAX,
        ensures
            r@ == self@.question(acct@.stacks, beyond as nat),
    {
        match self {
            PendingAction::Trash { stack_idxs } => {
                let mut out = "trash ".to_owned();
                push_mail(&mut out, &acct.stacks, stack_idxs, beyond);
                out.append("?");
                out
            },
            PendingAction::Archive { stack_idxs } => {
                let mut out = "archive ".to_owned();
                push_mail(&mut out, &acct.stacks, stack_idxs, beyond);
                out.append("?");
                out
            },
            PendingAction::Unsubscribe { stack_idxs } => {
                let mut out = "unsubscribe from ".to_owned();
                let who = label(&acct.stacks, stack_idxs);
                out.append(who.as_str());
                if stack_idxs.len() == 1 {
                    let i: usize = stack_idxs[0];
                    assert(ints(stack_idxs@)[0] == i as int);
                    assert(acct@.stacks[i as int] == acct.stacks@[i as int]@);
                    out.append(" via ");
                    match method_for(&acct.stacks[i]) {
                        Some(m) => out.append(m.describe()),
                        None => out.append("?"),
                    }
                }
                out.append("?");
                out
            },
            PendingAction::TrashAfterUnsub { stack_idxs } => {
                let mut out = "unsubscribed — also trash ".to_owned();
                push_mail(&mut out, &acct.stacks, stack_idxs, beyond);
                out.append("?");
                out
            },
        }
    }

    /// The stacks the action is about.
    pub fn idxs(&self) -> (r: &Vec<usize>)
        ensures
            ints(r@) == self@.idxs(),
    {
        match self {
            PendingAction::Trash { stack_idxs } => stack_idxs,
            PendingAction::Archive { stack_idxs } => stack_idxs,
            PendingAction::Unsubscribe { stack_idxs } => stack_idxs,
            PendingAction::TrashAfterUnsub { stack_idxs } => stack_idxs,
        }
    }
}

// ---------------------------------------------------------------------------
// jobs and their outcomes
// ---------------------------------------------------------------------------

/// A change to the mailbox.
#[derive(Debug, Clone, Copy, PartialEq, Eq, Structural)]
pub enum ImapKind {
    Trash,
    Archive,
    Read,
}

/// What a sweep does to what is already on screen.
#[derive(Debug, Clone, Copy, PartialEq, Eq, Structural)]
pub enum Load {
    /// `R` and first load: discard the window and sweep it again from the top
    Reset,
    /// `m`: widen the window by another sweep behind the one already read
    More,
}

/// One stack to unsubscribe from.
pub struct UnsubJob {
    pub idx: usize,
    pub name: String,
    pub method: Option<Method>,
}

/// The value of an `UnsubJob`.
pub struct UnsubJobV {
    pub idx: int,
    pub name: Seq<char>,
    pub method: Option<MethodV>,
}

/// The value of an optional method.
pub open spec fn opt_method(m: Option<Method>) -> Option<MethodV> {
    match m {
        Some(m) => Some(m@),
        None => None,
    }
}

impl View for UnsubJob {
    type V = UnsubJobV;

    open spec fn view(&self) -> UnsubJobV {
        UnsubJobV { idx: self.idx as int, name: self.name@, method: opt_method(self.method) }
    }
}

/// Work for the background.
#[allow(inconsistent_fields)]
pub enum Job {
    /// connect, if there is no session, and sweep one window
    Sweep {
        acct_idx: usize,
        account: AccountConfig,
        password: Option<String>,
        /// the account has a session: use it
        connected: bool,
        back: usize,
        kind: Load,
    },
    /// move messages, or mark them as read
    Imap {
        kind: ImapKind,
        uids: Vec<u32>,
        stack_idxs: Vec<usize>,
        label: String,
        /// how many of the messages are not in the stacks
        beyond: usize,
        /// the server refused to say what else the senders sent
        partial: bool,
    },
    /// unsubscribe from stacks, one after the other
    Unsub {
        account: AccountConfig,
        password: String,
        jobs: Vec<UnsubJob>,
        stack_idxs: Vec<usize>,
    },
    /// find everything that these senders have in the mailbox, before the user
    /// is asked about the action
    FanOut { action: PendingAction, senders: Vec<String> },
}

/// The value of a `Job`.
#[allow(inconsistent_fields)]
pub enum JobV {
    Sweep {
        acct: int,
        account: AccountConfigV,
        password: Option<Seq<char>>,
        connected: bool,
        back: nat,
        kind: Load,
    },
    Imap {
        kind: ImapKind,
        uids: Seq<u32>,
        idxs: Seq<int>,
        label: Seq<char>,
        beyond: nat,
        partial: bool,
    },
    Unsub {
        account: AccountConfigV,
        password: Seq<char>,
        jobs: Seq<UnsubJobV>,
        idxs: Seq<int>,
    },
    FanOut { action: PendingV, senders: Seq<Seq<char>> },
}

impl View for Job {
    type V = JobV;

    open spec fn view(&self) -> JobV {
        match self {
            Job::Sweep { acct_idx, account, password, connected, back, kind } => JobV::Sweep {
                acct: *acct_idx as int,
                account: account@,
                password: opt_text(*password),
                connected: *connected,
                back: *back as nat,
                kind: *kind,
            },
            Job::Imap { kind, uids, stack_idxs, label, beyond, partial } => JobV::Imap {
                kind: *kind,
                uids: uids@,
                idxs: ints(stack_idxs@),
                label: label@,
                beyond: *beyond as nat,
                partial: *partial,
            },
            Job::Unsub { account, password, jobs, stack_idxs } => JobV::Unsub {
                account: account@,
                password: password@,
                jobs: views(jobs@),
                idxs: ints(stack_idxs@),
            },
            Job::FanOut { action, senders } => JobV::FanOut {
                action: action@,
                senders: views(senders@),
            },
        }
    }
}

/// The value of an optional job.
pub open spec fn opt_job(j: Option<Job>) -> Option<JobV> {
    match j {
        Some(j) => Some(j@),
        None => None,
    }
}

/// What came of a job.
#[allow(inconsistent_fields)]
pub enum TaskDone {
    /// A mailbox change finished. After a failure the session state is
    /// unknown, so the session goes with it.
    Imap {
        kind: ImapKind,
        stack_idxs: Vec<usize>,
        n_msgs: usize,
        label: String,
        beyond: usize,
        partial: bool,
        result: Result<(), MailError>,
    },
    Unsub {
        stack_idxs: Vec<usize>,
        ok_idxs: Vec<usize>,
        failed: usize,
        last: String,
    },
    /// a sweep finished for `acct_idx`, carrying the whole window it read —
    /// the list is built once, here, and never chunk by chunk
    Swept {
        acct_idx: usize,
        /// false when the session is unusable (connect failed, or a timeout
        /// left the session in an unknown state)
        connected: bool,
        /// the keychain lookup's result, cached so later loads skip it
        password: Option<String>,
        kind: Load,
        /// what the sweep read. Reported alongside the outcome rather than
        /// inside it: a failure does not un-read the chunks that landed, and
        /// dropping them would make the next `m` re-read them.
        sweep: Sweep,
        result: Result<(), MailError>,
    },
    /// the senders' mail was searched for
    FannedOut {
        action: PendingAction,
        found: Vec<u32>,
        /// the server refused a part of it
        partial: bool,
        /// the session died over it
        error: Option<MailError>,
    },
}

/// A message from a background job to the event loop.
pub enum TaskMsg {
    /// progress line for the status bar
    Status(String),
    /// One chunk of a sweep landed. Numbers rather than a formatted line: the
    /// alert owns the wording, and it needs the counts for its bar as well as
    /// its headline.
    Sweeping(SweepProgress),
    Done(TaskDone),
}

// ---------------------------------------------------------------------------
// loading a window
// ---------------------------------------------------------------------------

/// How far a load has come.
enum Phase {
    /// the password has to be looked up
    Password,
    /// a session has to be opened
    Connect,
    /// the mailbox has to say how much it holds
    Count,
    /// chunks are being read
    Fetch(SweepRun),
    /// something failed
    Over {
        sweep: Sweep,
        /// the mailbox was reached, so there is a session
        reached: bool,
        error: MailError,
    },
}

/// The value of a `Phase`.
pub enum PhaseV {
    Password,
    Connect,
    Count,
    Fetch(SweepRunV),
    Over { sweep: SweepV, reached: bool, error: MailError },
}

/// A load under way: a session is opened where there is none, and one window
/// is swept.
pub struct LoadRun {
    acct_idx: usize,
    account: AccountConfig,
    /// what is known of the password, handed back so that later loads and the
    /// unsubscribe path skip the keychain
    password: Option<String>,
    back: usize,
    kind: Load,
    phase: Phase,
}

/// The value of a `LoadRun`.
pub struct LoadRunV {
    pub acct: int,
    pub account: AccountConfigV,
    pub password: Option<Seq<char>>,
    pub back: nat,
    pub kind: Load,
    pub phase: PhaseV,
}

impl View for LoadRun {
    type V = LoadRunV;

    closed spec fn view(&self) -> LoadRunV {
        LoadRunV {
            acct: self.acct_idx as int,
            account: self.account@,
            password: opt_text(self.password),
            back: self.back as nat,
            kind: self.kind,
            phase: match self.phase {
                Phase::Password => PhaseV::Password,
                Phase::Connect => PhaseV::Connect,
                Phase::Count => PhaseV::Count,
                Phase::Fetch(run) => PhaseV::Fetch(run@),
                Phase::Over { sweep, reached, error } => PhaseV::Over {
                    sweep: sweep@,
                    reached,
                    error,
                },
            },
        }
    }
}

/// What a load needs next.
pub enum LoadAsk {
    /// the password of this address
    Password(String),
    /// a session
    Connect { account: AccountConfig, password: String },
    /// the number of messages in the mailbox
    Count,
    /// the headers of these sequence numbers, both ends included
    Fetch(u32, u32),
}

/// The value of a `LoadAsk`.
pub enum LoadAskV {
    Password(Seq<char>),
    Connect { account: AccountConfigV, password: Seq<char> },
    Count,
    Fetch(int, int),
}

impl View for LoadAsk {
    type V = LoadAskV;

    open spec fn view(&self) -> LoadAskV {
        match self {
            LoadAsk::Password(email) => LoadAskV::Password(email@),
            LoadAsk::Connect { account, password } => LoadAskV::Connect {
                account: account@,
                password: password@,
            },
            LoadAsk::Count => LoadAskV::Count,
            LoadAsk::Fetch(lo, hi) => LoadAskV::Fetch(*lo as int, *hi as int),
        }
    }
}

impl LoadRunV {
    /// A session is opened only with a password, and a sweep keeps to its
    /// window.
    pub open spec fn wf(self) -> bool {
        &&& self.phase is Connect ==> self.password is Some
        &&& self.phase matches PhaseV::Fetch(run) ==> run.wf()
    }

    /// What is needed next; nothing when the load is over.
    pub open spec fn ask(self) -> Option<LoadAskV> {
        match self.phase {
            PhaseV::Password => Some(LoadAskV::Password(self.account.email)),
            PhaseV::Connect => Some(
                LoadAskV::Connect { account: self.account, password: self.password->0 },
            ),
            PhaseV::Count => Some(LoadAskV::Count),
            PhaseV::Fetch(run) => match run.next() {
                Some((lo, hi)) => Some(LoadAskV::Fetch(lo, hi)),
                None => None,
            },
            PhaseV::Over { .. } => None,
        }
    }

    /// Over before the mailbox was read.
    pub open spec fn ended(self, reached: bool, error: MailError) -> LoadRunV {
        LoadRunV {
            phase: PhaseV::Over { sweep: SweepV::nothing(), reached, error },
            ..self
        }
    }

    /// What the sweep read so far.
    pub open spec fn read(self) -> SweepV {
        match self.phase {
            PhaseV::Fetch(run) => run.window,
            PhaseV::Over { sweep, .. } => sweep,
            _ => SweepV::nothing(),
        }
    }

    /// The error that the load ended with.
    pub open spec fn error(self) -> Option<MailError> {
        match self.phase {
            PhaseV::Over { error, .. } => Some(error),
            _ => None,
        }
    }

    /// The session can still be used: the mailbox was reached, and nothing
    /// timed out. After a timeout the session state is unknown; a server
    /// refusal leaves the connection perfectly usable.
    pub open spec fn session_lives(self) -> bool {
        match self.phase {
            PhaseV::Fetch(_) => true,
            PhaseV::Over { reached, error, .. } => reached && !(error.cause is TimedOut),
            _ => false,
        }
    }
}

impl LoadRun {
    /// The load's own books agree with each other.
    pub closed spec fn consistent(&self) -> bool {
        self.phase matches Phase::Fetch(run) ==> run.wf()
    }

    pub open spec fn wf(&self) -> bool {
        self@.wf() && self.consistent()
    }

    /// Start a load. `connected` says that the account has a session to use.
    pub fn start(
        acct_idx: usize,
        account: AccountConfig,
        password: Option<String>,
        connected: bool,
        back: usize,
        kind: Load,
    ) -> (r: LoadRun)
        ensures
            r.wf(),
            r@ == (LoadRunV {
                acct: acct_idx as int,
                account: account@,
                password: opt_text(password),
                back: back as nat,
                kind,
                phase: if connected {
                    PhaseV::Count
                } else if password is Some {
                    PhaseV::Connect
                } else {
                    PhaseV::Password
                },
            }),
    {
        let phase = if connected {
            Phase::Count
        } else if password.is_some() {
            Phase::Connect
        } else {
            Phase::Password
        };
        LoadRun { acct_idx, account, password, back, kind, phase }
    }

    /// What is needed next.
    pub fn next(&self) -> (r: Option<LoadAsk>)
        requires
            self.wf(),
        ensures
            match r {
                Some(a) => self@.ask() == Some(a@),
                None => self@.ask() is None,
            },
    {
        match &self.phase {
            Phase::Password => Some(LoadAsk::Password(self.account.email.clone())),
            Phase::Connect => match &self.password {
                Some(p) => Some(
                    LoadAsk::Connect { account: self.account.copy(), password: p.clone() },
                ),
                None => None,
            },
            Phase::Count => Some(LoadAsk::Count),
            Phase::Fetch(run) => match run.next() {
                Some((lo, hi)) => Some(LoadAsk::Fetch(lo, hi)),
                None => None,
            },
            Phase::Over { .. } => None,
        }
    }

    /// The password was looked up.
    pub fn on_password(&mut self, found: Result<String, MailError>)
        requires
            old(self).wf(),
            old(self)@.phase is Password,
        ensures
            final(self).wf(),
            final(self)@ == (match found {
                Ok(p) => LoadRunV {
                    password: Some(p@),
                    phase: PhaseV::Connect,
                    ..old(self)@
                },
                Err(e) => old(self)@.ended(false, e),
            }),
    {
        match found {
            Ok(p) => {
                self.password = Some(p);
                self.phase = Phase::Connect;
            },
            Err(error) => {
                self.phase = Phase::Over { sweep: Sweep::default(), reached: false, error };
            },
        }
    }

    /// A session was opened, or not.
    pub fn on_connected(&mut self, result: Result<(), MailError>)
        requires
            old(self).wf(),
            old(self)@.phase is Connect,
        ensures
            final(self).wf(),
            final(self)@ == (match result {
                Ok(_) => LoadRunV { phase: PhaseV::Count, ..old(self)@ },
                Err(e) => old(self)@.ended(false, e),
            }),
    {
        match result {
            Ok(_) => {
                self.phase = Phase::Count;
            },
            Err(error) => {
                self.phase = Phase::Over { sweep: Sweep::default(), reached: false, error };
            },
        }
    }

    /// The mailbox said how much it holds, or did not.
    pub fn on_count(&mut self, total: Result<u32, MailError>)
        requires
            old(self).wf(),
            old(self)@.phase is Count,
        ensures
            final(self).wf(),
            final(self)@ == (match total {
                Ok(n) => LoadRunV {
                    phase: PhaseV::Fetch(SweepRunV::started(n, old(self)@.back)),
                    ..old(self)@
                },
                Err(e) => old(self)@.ended(true, e),
            }),
    {
        match total {
            Ok(n) => {
                self.phase = Phase::Fetch(SweepRun::start(n, self.back));
            },
            Err(error) => {
                self.phase = Phase::Over { sweep: Sweep::default(), reached: true, error };
            },
        }
    }

    /// The chunk asked for came back, or failed. A failure keeps what was
    /// read. Returns the progress to show.
    pub fn on_chunk(&mut self, part: Result<Vec<MsgMeta>, MailError>) -> (r: Option<SweepProgress>)
        requires
            old(self).wf(),
            old(self)@.phase matches PhaseV::Fetch(run) && run.next() is Some,
        ensures
            final(self).wf(),
            ({
                let run = old(self)@.phase->Fetch_0;
                match part {
                    Ok(msgs) => {
                        let after = run.landed(views(msgs@));
                        &&& final(self)@ == (LoadRunV {
                            phase: PhaseV::Fetch(after),
                            ..old(self)@
                        })
                        &&& r matches Some(p) && p.swept == after.window.swept && p.bound
                            == after.window.bound && p.stacks == senders_of(
                            after.window.msgs,
                        ).len()
                    },
                    Err(e) => {
                        &&& final(self)@ == (LoadRunV {
                            phase: PhaseV::Over {
                                sweep: run.window,
                                reached: true,
                                error: e,
                            },
                            ..old(self)@
                        })
                        &&& r is None
                    },
                }
            }),
    {
        let mut phase = Phase::Count;
        std::mem::swap(&mut phase, &mut self.phase);
        match phase {
            Phase::Fetch(mut run) => match part {
                Ok(msgs) => {
                    let progress = run.on_chunk(msgs);
                    self.phase = Phase::Fetch(run);
                    Some(progress)
                },
                Err(error) => {
                    run.on_failure();
                    self.phase = Phase::Over { sweep: run.finish(), reached: true, error };
                    None
                },
            },
            other => {
                self.phase = other;
                None
            },
        }
    }

    /// The outcome: what was read, and how it ended. One that never reached
    /// the mailbox knows nothing of it.
    pub fn finish(self) -> (r: TaskDone)
        requires
            self.wf(),
            self@.ask() is None,
        ensures
            r matches TaskDone::Swept { acct_idx, connected, password, kind, sweep, result } && {
                &&& acct_idx == self@.acct
                &&& connected == self@.session_lives()
                &&& opt_text(password) == self@.password
                &&& kind == self@.kind
                &&& sweep@ == self@.read()
                &&& match self@.error() {
                    Some(e) => result == Err::<(), MailError>(e),
                    None => result is Ok,
                }
            },
    {
        let (acct_idx, password, kind) = (self.acct_idx, self.password, self.kind);
        match self.phase {
            Phase::Fetch(run) => TaskDone::Swept {
                acct_idx,
                connected: true,
                password,
                kind,
                sweep: run.finish(),
                result: Ok(()),
            },
            Phase::Over { sweep, reached, error } => TaskDone::Swept {
                acct_idx,
                connected: reached && !is_timeout(&error),
                password,
                kind,
                sweep,
                result: Err(error),
            },
            _ => TaskDone::Swept {
                acct_idx,
                connected: false,
                password,
                kind,
                sweep: Sweep::default(),
                result: Ok(()),
            },
        }
    }
}

// ---------------------------------------------------------------------------
// unsubscribing from several stacks
// ---------------------------------------------------------------------------

/// Unsubscribing under way: one stack after the other.
pub struct UnsubRun {
    jobs: Vec<UnsubJob>,
    /// how many of the jobs are settled
    at: usize,
    ok_idxs: Vec<usize>,
    failed: usize,
    last: String,
}

/// The value of an `UnsubRun`.
pub struct UnsubRunV {
    pub jobs: Seq<UnsubJobV>,
    pub at: nat,
    pub ok: Seq<int>,
    pub failed: nat,
    pub last: Seq<char>,
}

impl View for UnsubRun {
    type V = UnsubRunV;

    closed spec fn view(&self) -> UnsubRunV {
        UnsubRunV {
            jobs: views(self.jobs@),
            at: self.at as nat,
            ok: ints(self.ok_idxs@),
            failed: self.failed as nat,
            last: self.last@,
        }
    }
}

impl UnsubRunV {
    /// Every settled job succeeded or failed.
    pub open spec fn wf(self) -> bool {
        self.at <= self.jobs.len() && self.ok.len() + self.failed == self.at
    }

    /// Past the stacks that offer no way to unsubscribe: each is a failure.
    pub open spec fn skipping(self) -> UnsubRunV
        decreases self.jobs.len() - self.at,
    {
        if self.at < self.jobs.len() && self.jobs[self.at as int].method is None {
            UnsubRunV { at: self.at + 1, failed: self.failed + 1, ..self }.skipping()
        } else {
            self
        }
    }

    /// The line for the status bar while a stack is being unsubscribed from.
    pub open spec fn progress(self) -> Seq<char> {
        "unsubscribing "@ + decimal(self.at + 1) + "/"@ + decimal(self.jobs.len()) + ": "@
            + self.jobs[self.at as int].name + "…"@
    }

    /// After the current stack's attempt came out.
    pub open spec fn settled(self, result: Result<String, String>) -> UnsubRunV {
        let job = self.jobs[self.at as int];
        match result {
            Ok(msg) => UnsubRunV {
                at: self.at + 1,
                ok: self.ok.push(job.idx),
                last: job.name + ": "@ + msg@,
                ..self
            },
            Err(e) => UnsubRunV {
                at: self.at + 1,
                failed: self.failed + 1,
                last: job.name + ": "@ + e@,
                ..self
            },
        }
    }
}

/// The next stack to unsubscribe from.
pub struct UnsubStep {
    /// for the status bar
    pub status: String,
    pub method: Method,
}

fn copy_method(m: &Method) -> (r: Method)
    ensures
        r@ == m@,
{
    match m {
        Method::OneClick(url) => Method::OneClick(url.clone()),
        Method::Mailto { to, subject } => Method::Mailto {
            to: to.clone(),
            subject: subject.clone(),
        },
        Method::Browser(url) => Method::Browser(url.clone()),
    }
}

impl UnsubRun {
    pub fn start(jobs: Vec<UnsubJob>) -> (r: UnsubRun)
        ensures
            r@ == (UnsubRunV {
                jobs: views(jobs@),
                at: 0,
                ok: Seq::empty(),
                failed: 0,
                last: Seq::empty(),
            }),
            r@.wf(),
    {
        let ok_idxs: Vec<usize> = Vec::new();
        assert(ints(ok_idxs@) =~= Seq::<int>::empty());
        UnsubRun { jobs, at: 0, ok_idxs, failed: 0, last: String::new() }
    }

    /// What to do next; nothing when all stacks are settled. A stack without a
    /// way to unsubscribe is passed over as a failure.
    pub fn next(&mut self) -> (r: Option<UnsubStep>)
        requires
            old(self)@.wf(),
        ensures
            final(self)@.wf(),
            final(self)@ == old(self)@.skipping(),
            match r {
                Some(step) => {
                    &&& final(self)@.at < final(self)@.jobs.len()
                    &&& final(self)@.jobs[final(self)@.at as int].method == Some(step.method@)
                    &&& step.status@ == final(self)@.progress()
                },
                None => final(self)@.at == final(self)@.jobs.len(),
            },
    {
        let ghost before = self@;
        while self.at < self.jobs.len() && self.jobs[self.at].method.is_none()
            invariant
                self@.wf(),
                self@.skipping() == before.skipping(),
                self@.jobs == before.jobs,
            decreases self@.jobs.len() - self.at,
        {
            assert(self@.jobs[self.at as int] == self.jobs@[self.at as int]@);
            self.failed = self.failed + 1;
            self.at = self.at + 1;
        }
        if self.at >= self.jobs.len() {
            return None;
        }
        assert(self@.jobs[self.at as int] == self.jobs@[self.at as int]@);
        let job = &self.jobs[self.at];
        match &job.method {
            Some(m) => {
                let mut status = "unsubscribing ".to_owned();
                push_decimal(&mut status, self.at as u64 + 1);
                status.append("/");
                push_decimal(&mut status, self.jobs.len() as u64);
                status.append(": ");
                status.append(job.name.as_str());
                status.append("…");
                Some(UnsubStep { status, method: copy_method(m) })
            },
            None => None,
        }
    }

    /// The current stack's attempt came out: what the user is told of it.
    pub fn on_result(&mut self, result: Result<String, String>)
        requires
            old(self)@.wf(),
            old(self)@.at < old(self)@.jobs.len(),
        ensures
            final(self)@.wf(),
            final(self)@ == old(self)@.settled(result),
    {
        let ghost before = self.ok_idxs@;
        assert(self.at < self.jobs.len() <= usize::MAX);
        assert(self@.jobs[self.at as int] == self.jobs@[self.at as int]@);
        let mut last = self.jobs[self.at].name.clone();
        last.append(": ");
        match result {
            Ok(msg) => {
                last.append(msg.as_str());
                self.ok_idxs.push(self.jobs[self.at].idx);
                assert(ints(self.ok_idxs@) =~= ints(before).push(
                    self.jobs@[self.at as int].idx as int,
                ));
            },
            Err(e) => {
                last.append(e.as_str());
                self.failed = self.failed + 1;
            },
        }
        self.last = last;
        self.at = self.at + 1;
    }

    /// The outcome.
    pub fn finish(self, stack_idxs: Vec<usize>) -> (r: TaskDone)
        ensures
            r matches TaskDone::Unsub { stack_idxs: s, ok_idxs, failed, last } && s == stack_idxs
                && ints(ok_idxs@) == self@.ok && failed == self@.failed && last@ == self@.last,
    {
        TaskDone::Unsub {
            stack_idxs,
            ok_idxs: self.ok_idxs,
            failed: self.failed,
            last: self.last,
        }
    }
}

// ---------------------------------------------------------------------------
// fanning out to several senders
// ---------------------------------------------------------------------------

/// What to ask the mailbox for.
pub enum Ask {
    /// the UIDs that a query matches
    Search(String),
    /// the headers of these UIDs
    Fetch(Vec<u32>),
}

/// The value of an `Ask`.
pub enum AskV {
    Search(Seq<char>),
    Fetch(Seq<u32>),
}

impl View for Ask {
    type V = AskV;

    open spec fn view(&self) -> AskV {
        match self {
            Ask::Search(q) => AskV::Search(q@),
            Ask::Fetch(uids) => AskV::Fetch(uids@),
        }
    }
}

/// Fan-outs under way: one sender after the other.
pub struct Gather {
    senders: Vec<String>,
    /// how many of the senders are done
    at: usize,
    /// the sender whose search came back
    walk: Option<FanOut>,
    found: Vec<u32>,
    partial: bool,
    error: Option<MailError>,
}

/// The value of a `Gather`.
pub struct GatherV {
    pub senders: Seq<Seq<char>>,
    pub at: nat,
    pub walk: Option<FanOutV>,
    pub found: Seq<u32>,
    pub partial: bool,
    pub error: Option<MailError>,
}

impl View for Gather {
    type V = GatherV;

    closed spec fn view(&self) -> GatherV {
        GatherV {
            senders: views(self.senders@),
            at: self.at as nat,
            walk: match self.walk {
                Some(w) => Some(w@),
                None => None,
            },
            found: self.found@,
            partial: self.partial,
            error: self.error,
        }
    }
}

/// The query for everything from an address.
pub open spec fn query_text(addr: Seq<char>) -> Seq<char> {
    "FROM "@ + (seq!['"'] + escaped(addr) + seq!['"'])
}

impl GatherV {
    pub open spec fn wf(self) -> bool {
        &&& self.at <= self.senders.len()
        &&& self.walk matches Some(w) ==> w.wf() && self.at < self.senders.len()
    }

    /// With a finished walk put away: what it found is kept, and whether that
    /// was all.
    pub open spec fn tidied(self) -> GatherV {
        match self.walk {
            Some(w) => if w.next() is None {
                GatherV {
                    at: self.at + 1,
                    walk: None,
                    found: self.found + uids_of(from_exactly(w.msgs, w.addr)),
                    partial: self.partial || !w.complete,
                    ..self
                }
            } else {
                self
            },
            None => self,
        }
    }

    /// What to ask for next, of a tidied state.
    pub open spec fn ask(self) -> Option<AskV> {
        if self.error is Some {
            None
        } else {
            match self.walk {
                Some(w) => match w.next() {
                    Some(chunk) => Some(AskV::Fetch(chunk)),
                    None => None,
                },
                None => if self.at < self.senders.len() {
                    Some(AskV::Search(query_text(self.senders[self.at as int])))
                } else {
                    None
                },
            }
        }
    }

    /// A search came back.
    pub open spec fn searched(self, uids: Seq<u32>) -> GatherV {
        GatherV {
            walk: Some(
                FanOutV {
                    addr: self.senders[self.at as int],
                    uids,
                    asked: 0,
                    msgs: Seq::empty(),
                    complete: true,
                },
            ),
            ..self
        }
    }

    /// What was asked for failed: a timeout ends everything, a refusal this
    /// search or this walk only.
    pub open spec fn failing(self, e: MailError) -> GatherV {
        if e.cause is TimedOut {
            GatherV {
                error: Some(e),
                walk: match self.walk {
                    Some(w) => Some(w.refused()),
                    None => None,
                },
                ..self
            }
        } else {
            match self.walk {
                Some(w) => GatherV { walk: Some(w.refused()), ..self },
                None => GatherV { at: self.at + 1, partial: true, ..self },
            }
        }
    }
}

impl Gather {
    pub fn start(senders: Vec<String>) -> (r: Gather)
        ensures
            r@ == (GatherV {
                senders: views(senders@),
                at: 0,
                walk: None,
                found: Seq::empty(),
                partial: false,
                error: None,
            }),
            r@.wf(),
    {
        Gather { senders, at: 0, walk: None, found: Vec::new(), partial: false, error: None }
    }

    /// What to ask the mailbox for next.
    pub fn next(&mut self) -> (r: Option<Ask>)
        requires
            old(self)@.wf(),
        ensures
            final(self)@.wf(),
            final(self)@ == (if old(self)@.error is Some {
                old(self)@
            } else {
                old(self)@.tidied()
            }),
            match r {
                Some(a) => final(self)@.ask() == Some(a@),
                None => final(self)@.ask() is None,
            },
    {
        if self.error.is_some() {
            return None;
        }
        assert(self.at <= self.senders.len() <= usize::MAX);
        let mut walk: Option<FanOut> = None;
        std::mem::swap(&mut walk, &mut self.walk);
        if let Some(w) = walk {
            if let Some(chunk) = w.next() {
                self.walk = Some(w);
                return Some(Ask::Fetch(chunk));
            }
            let (msgs, complete) = w.finish();
            let mut uids = uids_of_all(&msgs);
            self.found.append(&mut uids);
            self.partial = self.partial || !complete;
            self.at = self.at + 1;
        }
        if self.at < self.senders.len() {
            assert(views(self.senders@)[self.at as int] == self.senders@[self.at as int]@);
            Some(Ask::Search(sender_query(self.senders[self.at].as_str())))
        } else {
            None
        }
    }

    /// The search came back with these.
    pub fn on_found(&mut self, uids: Vec<u32>)
        requires
            old(self)@.wf(),
            old(self)@.at < old(self)@.senders.len(),
        ensures
            final(self)@.wf(),
            final(self)@ == old(self)@.searched(uids@),
    {
        assert(views(self.senders@)[self.at as int] == self.senders@[self.at as int]@);
        self.walk = Some(FanOut::start(self.senders[self.at].as_str(), uids));
    }

    /// The fetch came back with these.
    pub fn on_messages(&mut self, part: Vec<MsgMeta>)
        requires
            old(self)@.wf(),
            old(self)@.walk matches Some(w) && w.next() is Some,
        ensures
            final(self)@.wf(),
            final(self)@ == (GatherV {
                walk: Some((old(self)@.walk->0).landed(views(part@))),
                ..old(self)@
            }),
    {
        let mut walk: Option<FanOut> = None;
        std::mem::swap(&mut walk, &mut self.walk);
        if let Some(mut w) = walk {
            w.on_chunk(part);
            self.walk = Some(w);
        }
    }

    /// What was asked for failed.
    pub fn on_failure(&mut self, e: MailError)
        requires
            old(self)@.wf(),
            old(self)@.at < old(self)@.senders.len(),
        ensures
            final(self)@.wf(),
            final(self)@ == old(self)@.failing(e),
    {
        assert(self.at < self.senders.len() <= usize::MAX);
        let mut walk: Option<FanOut> = None;
        std::mem::swap(&mut walk, &mut self.walk);
        match walk {
            Some(mut w) => {
                self.error = match w.on_failure(e) {
                    Some(e) => Some(e),
                    None => {
                        let mut kept: Option<MailError> = None;
                        std::mem::swap(&mut kept, &mut self.error);
                        kept
                    },
                };
                self.walk = Some(w);
            },
            None => {
                if is_timeout(&e) {
                    self.error = Some(e);
                } else {
                    self.at = self.at + 1;
                    self.partial = true;
                }
            },
        }
    }

    /// The outcome.
    pub fn finish(self, action: PendingAction) -> (r: TaskDone)
        ensures
            r matches TaskDone::FannedOut { action: a, found, partial, error } && a == action
                && found@ == self@.found && partial == self@.partial && error == self@.error,
    {
        TaskDone::FannedOut {
            action,
            found: self.found,
            partial: self.partial,
            error: self.error,
        }
    }
}

/// The UIDs of these messages.
fn uids_of_all(ms: &Vec<MsgMeta>) -> (r: Vec<u32>)
    ensures
        r@ == uids_of(views(ms@)),
{
    let mut out: Vec<u32> = Vec::new();
    let mut i: usize = 0;
    while i < ms.len()
        invariant
            i <= ms@.len(),
            out@ == uids_of(views(ms@)).take(i as int),
        decreases ms@.len() - i,
    {
        out.push(ms[i].uid);
        i += 1;
        assert(out@ =~= uids_of(views(ms@)).take(i as int));
    }
    assert(out@ =~= uids_of(views(ms@)));
    out
}

} // verus!
