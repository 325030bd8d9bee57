//! The application: its state, what a key does to it, and what a finished job
//! does to it.
use crate::action_log::{Action, ActionLog, ActionLogV};
use crate::clock::{now, Timestamp};
use crate::config::{AccountConfig, AccountConfigV};
use crate::imap_client::{
    ascending, ascending_uids, each_once, Ascending, MailError, Sweep, SweepProgress, SweepV,
};
use crate::sort::{sorted, sorting_orders_and_permutes, views};
use crate::stacks::{all_messages, copy_opt, opt_text, GroupBy, SortBy, StackV};
use crate::text::{commas, decimal, grouped, is_empty, lowercase, number, occurs, pop_char};
use crate::ui::account::{
    below, count_at, ints, lemma_count_bound, lemma_targets, lemma_views_update, rising, saw_all,
    snapshots_at, uids_at, AccountV,
};
pub use crate::ui::account::{AccountView, SeenStack};
use crate::ui::jobs::{
    all_below, can_count, is_source_readable, label, method_for, opt_job, source_readable,
    sources_readable, stack_method, whose, Job, JobV, PendingV, UnsubJob, UnsubJobV,
};
pub use crate::ui::jobs::{ImapKind, Load, PendingAction, TaskDone, TaskMsg};
use crate::ui::keys::{is_quit, Event, KeyCode, KeyEvent, KeyEventKind};
use std::collections::HashSet;
use vstd::prelude::*;
use vstd::string::*;

verus! {

/// The one centered slot for "the app is busy" and for "the app wants an
/// answer". The confirm is the third state of the same box, but its copy
/// already lives in `Mode::Confirm` — the view merges the two rather than
/// duplicating a pending action here.
pub enum Alert {
    /// a sweep is running and the TUI is inert. `progress` is None until the
    /// first chunk reports, which is where `starting` earns its keep.
    Sweeping {
        /// what the sweep is doing before it has a count to show
        starting: String,
        progress: Option<SweepProgress>,
    },
    /// The last sweep stopped. It stays up until a key dismisses it: the
    /// status row behind it keeps the detail, but the count is the thing the
    /// user has to be told, and a line that scrolls past unread has not told
    /// them.
    Failed(String),
}

/// The value of an `Alert`.
pub enum AlertV {
    Sweeping { starting: Seq<char>, progress: Option<SweepProgress> },
    Failed(Seq<char>),
}

impl View for Alert {
    type V = AlertV;

    open spec fn view(&self) -> AlertV {
        match self {
            Alert::Sweeping { starting, progress } => AlertV::Sweeping {
                starting: starting@,
                progress: *progress,
            },
            Alert::Failed(s) => AlertV::Failed(s@),
        }
    }
}

pub open spec fn opt_alert(a: Option<Alert>) -> Option<AlertV> {
    match a {
        Some(a) => Some(a@),
        None => None,
    }
}

pub enum Mode {
    Normal,
    /// pending action awaiting y/n
    Confirm(PendingAction),
    Filter,
    /// full keybinding overlay, dismissed by any key
    Help,
}

/// The value of a `Mode`.
pub enum ModeV {
    Normal,
    Confirm(PendingV),
    Filter,
    Help,
}

impl View for Mode {
    type V = ModeV;

    open spec fn view(&self) -> ModeV {
        match self {
            Mode::Normal => ModeV::Normal,
            Mode::Confirm(p) => ModeV::Confirm(p@),
            Mode::Filter => ModeV::Filter,
            Mode::Help => ModeV::Help,
        }
    }
}

/// What was done this session, in messages.
pub struct SessionStats {
    pub trashed: usize,
    pub archived: usize,
    pub marked_read: usize,
    /// senders successfully unsubscribed from
    pub unsubscribed: usize,
}

/// The value of a `SessionStats`.
pub struct StatsV {
    pub trashed: nat,
    pub archived: nat,
    pub marked_read: nat,
    pub unsubscribed: nat,
}

impl View for SessionStats {
    type V = StatsV;

    open spec fn view(&self) -> StatsV {
        StatsV {
            trashed: self.trashed as nat,
            archived: self.archived as nat,
            marked_read: self.marked_read as nat,
            unsubscribed: self.unsubscribed as nat,
        }
    }
}

impl Default for SessionStats {
    fn default() -> (r: SessionStats)
        ensures
            r@ == (StatsV { trashed: 0, archived: 0, marked_read: 0, unsubscribed: 0 }),
    {
        SessionStats { trashed: 0, archived: 0, marked_read: 0, unsubscribed: 0 }
    }
}

/// A List-Unsubscribe header among the targets cannot be read.
#[derive(Debug, Clone, Copy, PartialEq, Eq, Structural)]
pub struct Unreadable;

/// How far the pending action reaches outside the stacks on screen.
pub struct Reach {
    /// the senders' messages that the window does not hold
    pub beyond: Vec<u32>,
    /// the server refused to say all of them
    pub partial: bool,
}

/// The value of a `Reach`.
pub struct ReachV {
    pub beyond: Seq<u32>,
    pub partial: bool,
}

impl View for Reach {
    type V = ReachV;

    open spec fn view(&self) -> ReachV {
        ReachV { beyond: self.beyond@, partial: self.partial }
    }
}

impl ReachV {
    /// No farther than the stacks.
    pub open spec fn in_view() -> ReachV {
        ReachV { beyond: Seq::empty(), partial: false }
    }
}

impl Reach {
    fn in_view() -> (r: Reach)
        ensures
            r@ == ReachV::in_view(),
    {
        Reach { beyond: Vec::new(), partial: false }
    }
}

pub struct App {
    pub accounts: Vec<AccountView>,
    pub active: usize,
    pub mode: Mode,
    pub group_by: GroupBy,
    pub sort_by: SortBy,
    pub filter: String,
    pub status: String,
    /// the one centered slot, when something is in it
    pub alert: Option<Alert>,
    /// colour is off, so the alert's frame carries on its own
    pub no_color: bool,
    pub busy: bool,
    /// frame counter for the spinner, advanced by the event loop's ticker
    /// while `busy`
    pub spinner: usize,
    /// the in-flight job is a read-only inbox fetch, so quitting can abandon
    /// it — unlike a mutation, it has no outcome to log
    pub loading: bool,
    pub should_quit: bool,
    pub stats: SessionStats,
    pub log: ActionLog,
    /// a job is in flight; until it reports, mutating keys are blocked so the
    /// stack indices it captured stay valid
    pub in_flight: bool,
    /// the in-flight job is a search for senders' mail, read-only like a load
    pub searching: bool,
    /// what unsubscribing came to, while the search that follows it runs: the
    /// question that comes next stands over it
    pub outcome: Option<String>,
    /// how far the action in `Mode::Confirm` reaches
    pub reach: Reach,
}

/// The value of an `App`.
pub struct AppV {
    pub accounts: Seq<AccountV>,
    pub active: int,
    pub mode: ModeV,
    pub group_by: GroupBy,
    pub sort_by: SortBy,
    pub filter: Seq<char>,
    pub status: Seq<char>,
    pub alert: Option<AlertV>,
    pub no_color: bool,
    pub busy: bool,
    pub spinner: usize,
    pub loading: bool,
    pub should_quit: bool,
    pub stats: StatsV,
    pub log: ActionLogV,
    pub in_flight: bool,
    pub searching: bool,
    pub outcome: Option<Seq<char>>,
    pub reach: ReachV,
}

impl View for App {
    type V = AppV;

    open spec fn view(&self) -> AppV {
        AppV {
            accounts: views(self.accounts@),
            active: self.active as int,
            mode: self.mode@,
            group_by: self.group_by,
            sort_by: self.sort_by,
            filter: self.filter@,
            status: self.status@,
            alert: opt_alert(self.alert),
            no_color: self.no_color,
            busy: self.busy,
            spinner: self.spinner,
            loading: self.loading,
            should_quit: self.should_quit,
            stats: self.stats@,
            log: self.log@,
            in_flight: self.in_flight,
            searching: self.searching,
            outcome: opt_text(self.outcome),
            reach: self.reach@,
        }
    }
}

// ---------------------------------------------------------------------------
// what the state means
// ---------------------------------------------------------------------------

/// The keys of these rows.
pub open spec fn row_keys(stacks: Seq<StackV>, rows: Seq<int>) -> Seq<Seq<char>> {
    Seq::new(rows.len(), |i: int| stacks[rows[i]].key)
}

/// Every key is in the set.
pub open spec fn all_in(keys: Seq<Seq<char>>, set: Set<Seq<char>>) -> bool {
    forall|i: int| 0 <= i < keys.len() ==> set.contains(#[trigger] keys[i])
}

/// The set with these keys.
pub open spec fn with_all(set: Set<Seq<char>>, keys: Seq<Seq<char>>) -> Set<Seq<char>>
    decreases keys.len(),
{
    if keys.len() == 0 {
        set
    } else {
        with_all(set, keys.drop_last()).insert(keys.last())
    }
}

/// The set without these keys.
pub open spec fn without_all(set: Set<Seq<char>>, keys: Seq<Seq<char>>) -> Set<Seq<char>>
    decreases keys.len(),
{
    if keys.len() == 0 {
        set
    } else {
        without_all(set, keys.drop_last()).remove(keys.last())
    }
}

/// Those of the stacks that offer a way to unsubscribe.
pub open spec fn offering(stacks: Seq<StackV>, idxs: Seq<int>) -> Seq<int>
    decreases idxs.len(),
{
    if idxs.len() == 0 {
        idxs
    } else if stack_method(stacks[idxs.last()]) is Some {
        offering(stacks, idxs.drop_last()).push(idxs.last())
    } else {
        offering(stacks, idxs.drop_last())
    }
}

/// The numbers of an ascending sequence that are not in the other.
pub open spec fn not_in(s: Seq<u32>, held: Seq<u32>) -> Seq<u32>
    decreases s.len(),
{
    if s.len() == 0 {
        s
    } else if held.contains(s.last()) {
        not_in(s.drop_last(), held)
    } else {
        not_in(s.drop_last(), held).push(s.last())
    }
}

/// The addresses that the newest messages of these stacks came from.
pub open spec fn senders_at(stacks: Seq<StackV>, idxs: Seq<int>) -> Seq<Seq<char>> {
    Seq::new(idxs.len(), |k: int| stacks[idxs[k]].msgs[0].sender_email)
}

/// What there is to unsubscribe from.
pub open spec fn unsub_jobs(stacks: Seq<StackV>, idxs: Seq<int>) -> Seq<UnsubJobV> {
    Seq::new(
        idxs.len(),
        |k: int|
            UnsubJobV {
                idx: idxs[k],
                name: stacks[idxs[k]].display_name,
                method: stack_method(stacks[idxs[k]]),
            },
    )
}

/// One line about an account's stacks as they stand now.
pub open spec fn summary(a: AccountV) -> Seq<char> {
    a.cfg.email + ": "@ + grouped(all_messages(a.stacks).len()) + " of "@ + grouped(a.total)
        + " messages in "@ + decimal(a.stacks.len()) + " stacks"@
}

/// What the user is told when the server refused a part of the search.
pub open spec fn partial_note(beyond: nat) -> Seq<char> {
    if beyond == 0 {
        "search refused, only the mail in view"@
    } else {
        "search cut short, only part of the mail"@
    }
}

pub open spec fn kind_verb(kind: ImapKind) -> Seq<char> {
    match kind {
        ImapKind::Trash => "trashing"@,
        ImapKind::Archive => "archiving"@,
        ImapKind::Read => "marking read"@,
    }
}

/// The line about a mailbox change that worked.
pub open spec fn done_line(
    kind: ImapKind,
    n: nat,
    label: Seq<char>,
    beyond: nat,
    partial: bool,
) -> Seq<char> {
    let line = match kind {
        ImapKind::Trash => "trashed "@ + decimal(n) + " messages from "@ + label,
        ImapKind::Archive => "archived "@ + decimal(n) + " messages from "@ + label,
        ImapKind::Read => "marked "@ + decimal(n) + " messages read ("@ + label + ")"@,
    };
    if partial {
        line + " — "@ + partial_note(beyond)
    } else {
        line
    }
}

/// The line about unsubscribing that came to its end.
pub open spec fn unsub_line(stacks: nat, ok: nat, failed: nat, last: Seq<char>) -> Seq<char> {
    if stacks == 1 {
        last
    } else if failed == 0 {
        "unsubscribed from "@ + decimal(ok) + " stacks"@
    } else {
        "unsubscribed "@ + decimal(ok) + "/"@ + decimal(ok + failed) + " stacks (last: "@ + last
            + ")"@
    }
}

/// How far a sweep got.
pub open spec fn stopped_at(s: SweepV) -> Seq<char> {
    "stopped at "@ + grouped(s.swept) + " of "@ + grouped(s.bound)
}

impl AppV {
    pub open spec fn acct(self) -> AccountV {
        self.accounts[self.active]
    }

    pub open spec fn with_acct(self, a: AccountV) -> AppV {
        AppV { accounts: self.accounts.update(self.active, a), ..self }
    }

    /// There is an account, and every account is well-formed.
    pub open spec fn wf(self) -> bool {
        &&& 0 <= self.active < self.accounts.len()
        &&& forall|i: int| 0 <= i < self.accounts.len() ==> (#[trigger] self.accounts[i]).wf()
    }

    /// The alert of a sweep that stopped is up.
    pub open spec fn failed_alert(self) -> bool {
        self.alert matches Some(AlertV::Failed(_))
    }

    /// No question is waiting, and nothing would stand before one.
    pub open spec fn open_to_questions(self) -> bool {
        !(self.mode is Confirm) && !self.failed_alert()
    }

    /// The action that waits for an answer is about stacks that are there, and
    /// nothing stands before the question.
    pub open spec fn targets_valid(self) -> bool {
        self.mode matches ModeV::Confirm(p) ==> {
            &&& !self.failed_alert()
            &&& p.fits(self.acct().stacks)
            &&& count_at(self.acct().stacks, p.idxs()) + self.reach.beyond.len() <= usize::MAX
        }
    }

    /// With a sweep started.
    pub open spec fn sweeping(self, kind: Load) -> (AppV, Option<JobV>) {
        let was = self.acct();
        let reset = kind == Load::Reset || !was.loaded;
        let acct = AccountV {
            connected: false,
            ..if reset {
                was.reset()
            } else {
                was
            }
        };
        let status = (if was.connected {
            "sweeping "@
        } else {
            "connecting to "@
        }) + was.cfg.email + "…"@;
        (
            AppV {
                status,
                alert: Some(AlertV::Sweeping { starting: status, progress: None }),
                busy: true,
                loading: true,
                in_flight: true,
                ..self
            }.with_acct(acct),
            Some(
                JobV::Sweep {
                    acct: self.active,
                    account: was.cfg,
                    password: was.password,
                    connected: was.connected,
                    back: acct.back,
                    kind: if reset {
                        Load::Reset
                    } else {
                        Load::More
                    },
                },
            ),
        )
    }

    /// `m`: the window widened by one more sweep, unless there is nothing
    /// behind it.
    pub open spec fn widening(self) -> (AppV, Option<JobV>) {
        if self.acct().loaded && self.acct().reached_end {
            (AppV { status: "no more messages — R to refresh"@, ..self }, None)
        } else {
            self.sweeping(Load::More)
        }
    }

    /// The user is asked about trashing or archiving. Where the senders can be
    /// searched for — under a grouping by sender, on an open session — the
    /// search comes first, so that the question states the number that moves.
    pub open spec fn asking(self, action: PendingV) -> (AppV, Option<JobV>) {
        let acct = self.acct();
        let searchable = acct.connected && self.group_by == GroupBy::Sender;
        if searchable {
            (
                AppV {
                    status: "searching for everything from "@ + whose(acct.stacks, action.idxs())
                        + "…"@,
                    busy: true,
                    in_flight: true,
                    searching: true,
                    ..self
                }.with_acct(AccountV { connected: false, ..acct }),
                Some(
                    JobV::FanOut { action, senders: senders_at(acct.stacks, action.idxs()) },
                ),
            )
        } else {
            (AppV { mode: ModeV::Confirm(action), reach: ReachV::in_view(), ..self }, None)
        }
    }

    /// A mailbox change handed out, if there is a session for it.
    pub open spec fn changing(self, kind: ImapKind, idxs: Seq<int>, reach: ReachV) -> (
        AppV,
        Option<JobV>,
    ) {
        let acct = self.acct();
        let uids = uids_at(acct.stacks, idxs) + reach.beyond;
        if acct.connected {
            (
                AppV {
                    status: kind_verb(kind) + " "@ + decimal(uids.len()) + " messages…"@,
                    busy: true,
                    in_flight: true,
                    ..self
                }.with_acct(AccountV { connected: false, ..acct }),
                Some(
                    JobV::Imap {
                        kind,
                        uids,
                        idxs,
                        label: whose(acct.stacks, idxs),
                        beyond: reach.beyond.len(),
                        partial: reach.partial,
                    },
                ),
            )
        } else {
            (AppV { status: "not connected — press R to reconnect"@, ..self }, None)
        }
    }

    /// Unsubscribing handed out.
    pub open spec fn unsubscribing(self, idxs: Seq<int>) -> (AppV, Option<JobV>) {
        let acct = self.acct();
        (
            AppV {
                status: "unsubscribing from "@ + decimal(idxs.len()) + " stacks…"@,
                busy: true,
                in_flight: true,
                ..self
            },
            Some(
                JobV::Unsub {
                    account: acct.cfg,
                    password: match acct.password {
                        Some(p) => p,
                        None => Seq::empty(),
                    },
                    jobs: unsub_jobs(acct.stacks, idxs),
                    idxs,
                },
            ),
        )
    }

    /// A confirmed action handed out.
    pub open spec fn running(self, action: PendingV, reach: ReachV) -> (AppV, Option<JobV>) {
        match action {
            PendingV::Trash(idxs) => self.changing(ImapKind::Trash, idxs, reach),
            PendingV::TrashAfterUnsub(idxs) => self.changing(ImapKind::Trash, idxs, reach),
            PendingV::Archive(idxs) => self.changing(ImapKind::Archive, idxs, reach),
            PendingV::Unsubscribe(idxs) => self.unsubscribing(idxs),
        }
    }

    /// Every loaded account grouped in another way.
    pub open spec fn regrouped(self, by: GroupBy) -> AppV {
        AppV {
            group_by: by,
            accounts: Seq::new(
                self.accounts.len(),
                |i: int|
                    if self.accounts[i].loaded {
                        self.accounts[i].regrouped(by, self.sort_by)
                    } else {
                        self.accounts[i]
                    },
            ),
            status: "grouping by "@ + by.name(),
            ..self
        }
    }

    /// Every account sorted in another way.
    pub open spec fn resorted(self, order: SortBy) -> AppV {
        AppV {
            sort_by: order,
            accounts: Seq::new(self.accounts.len(), |i: int| self.accounts[i].resorted(order)),
            status: "sorting by "@ + order.name(),
            ..self
        }
    }

    /// The stacks at these indices were on screen.
    pub open spec fn sighted(self, idxs: Seq<int>, at: Timestamp) -> AppV {
        let acct = self.acct();
        self.with_acct(
            AccountV { seen: saw_all(acct.seen, acct.stacks, idxs, at), ..acct },
        )
    }

    /// A decision logged: what the stacks were, and which messages it was
    /// about.
    pub open spec fn logged(self, action: Action, idxs: Seq<int>, now: Timestamp) -> AppV {
        let acct = self.acct();
        AppV {
            log: self.log.logged(
                acct.cfg.email,
                action,
                snapshots_at(acct.stacks, idxs, now),
            ),
            ..self
        }.with_acct(
            AccountV {
                acted: acct.acted.union(uids_at(acct.stacks, idxs).to_set()),
                ..acct
            },
        )
    }

    /// The log with the keeps of the first `n` accounts.
    pub open spec fn keeps_logged(self, n: int) -> ActionLogV
        decreases n,
    {
        if n <= 0 {
            self.log
        } else {
            let acct = self.accounts[n - 1];
            self.keeps_logged(n - 1).logged(acct.cfg.email, Action::Keep, acct.keeps())
        }
    }

    // -----------------------------------------------------------------------
    // keys
    // -----------------------------------------------------------------------

    /// The keys that neither mutate nor reorder stacks: they work while a job
    /// holds indices into them.
    pub open spec fn harmless(key: KeyEvent) -> bool {
        ||| key.quits()
        ||| key.code == KeyCode::Char('j')
        ||| key.code == KeyCode::Char('k')
        ||| key.code == KeyCode::Down
        ||| key.code == KeyCode::Up
        ||| key.code == KeyCode::Home
        ||| key.code == KeyCode::End
        ||| key.code == KeyCode::Char('G')
        ||| key.code == KeyCode::Esc
        ||| key.code == KeyCode::Char('?')
    }

    /// Esc: the marks go first, then the filter.
    pub open spec fn escaped(self) -> AppV {
        if !self.acct().marked.is_empty() {
            self.with_acct(AccountV { marked: Set::empty(), ..self.acct() })
        } else if self.filter.len() > 0 {
            AppV { filter: Seq::empty(), ..self }.with_acct(
                AccountV { selected: 0, ..self.acct() },
            )
        } else {
            self
        }
    }

    /// Space: the row under the cursor marked or unmarked, and on to the next.
    pub open spec fn toggled(self) -> AppV {
        let acct = self.acct();
        match acct.under_cursor(self.filter) {
            Some(i) => {
                let key = acct.stacks[i].key;
                let marked = if acct.marked.contains(key) {
                    acct.marked.remove(key)
                } else {
                    acct.marked.insert(key)
                };
                self.with_acct(
                    AccountV { marked, ..acct }.moved(1, acct.visible(self.filter).len()),
                )
            },
            None => self,
        }
    }

    /// `a`: everything in view marked, or unmarked where all of it is.
    pub open spec fn toggled_all(self) -> AppV {
        let acct = self.acct();
        let keys = row_keys(acct.stacks, acct.visible(self.filter));
        self.with_acct(
            AccountV {
                marked: if all_in(keys, acct.marked) {
                    without_all(acct.marked, keys)
                } else {
                    with_all(acct.marked, keys)
                },
                ..acct
            },
        )
    }

    /// Tab: on to the next account.
    pub open spec fn tabbed(self) -> (AppV, Option<JobV>) {
        let next = AppV {
            active: (self.active + 1) % (self.accounts.len() as int),
            filter: Seq::empty(),
            ..self
        };
        if next.acct().loaded {
            // the status line is global: without this it keeps describing the
            // account we just left
            (AppV { status: summary(next.acct()), ..next }, None)
        } else {
            next.sweeping(Load::Reset)
        }
    }

    /// What a key does that moves about in the list, marks in it, or leaves it
    /// for the filter or the help. None for any other key.
    pub open spec fn moving(self, key: KeyEvent) -> Option<AppV> {
        let rows = self.acct().visible(self.filter).len();
        match key.code {
            KeyCode::Char('j') | KeyCode::Down => Some(self.with_acct(self.acct().moved(1, rows))),
            KeyCode::Char('k') | KeyCode::Up => Some(self.with_acct(self.acct().moved(-1, rows))),
            KeyCode::Home => Some(self.with_acct(self.acct().jumped(0, rows))),
            KeyCode::End | KeyCode::Char('G') => Some(
                self.with_acct(self.acct().jumped(usize::MAX as nat, rows)),
            ),
            KeyCode::Esc => Some(self.escaped()),
            KeyCode::Char(' ') => Some(self.toggled()),
            KeyCode::Char('a') => Some(self.toggled_all()),
            KeyCode::Char('?') => Some(AppV { mode: ModeV::Help, ..self }),
            KeyCode::Char('/') => Some(
                AppV { mode: ModeV::Filter, filter: Seq::empty(), ..self },
            ),
            _ => None,
        }
    }

    /// `u`: the question whether to unsubscribe, from those of the targets that
    /// offer a way to.
    pub open spec fn leaving(self, targets: Seq<int>) -> AppV {
        let offered = offering(self.acct().stacks, targets);
        if offered.len() == 0 {
            AppV { status: "no List-Unsubscribe header in selection"@, ..self }
        } else {
            AppV {
                mode: ModeV::Confirm(PendingV::Unsubscribe(offered)),
                reach: ReachV::in_view(),
                ..self
            }
        }
    }

    /// What a key does that sorts, groups, loads or acts; any other key does
    /// nothing.
    pub open spec fn acting(self, key: KeyEvent) -> (AppV, Option<JobV>) {
        let targets = self.acct().targets(self.filter);
        match key.code {
            KeyCode::Char('s') => (self.resorted(self.sort_by.other()), None),
            KeyCode::Char('g') => (self.regrouped(self.group_by.other()), None),
            KeyCode::Tab => self.tabbed(),
            KeyCode::Char('m') => self.widening(),
            KeyCode::Char('R') => self.sweeping(Load::Reset),
            KeyCode::Char('d') => if targets.len() > 0 {
                self.asking(PendingV::Trash(targets))
            } else {
                (self, None)
            },
            KeyCode::Char('e') => if targets.len() > 0 {
                self.asking(PendingV::Archive(targets))
            } else {
                (self, None)
            },
            KeyCode::Char('r') => if targets.len() > 0 {
                self.changing(ImapKind::Read, targets, ReachV::in_view())
            } else {
                (self, None)
            },
            KeyCode::Char('u') => (self.leaving(targets), None),
            _ => (self, None),
        }
    }

    /// What a key does in the list.
    pub open spec fn normal(self, key: KeyEvent) -> (AppV, Option<JobV>) {
        if self.busy && !AppV::harmless(key) {
            // silently dropping the key looks like a hung TUI
            (AppV { status: "busy — wait for the current action to finish"@, ..self }, None)
        } else if key.quits() {
            (AppV { should_quit: true, ..self }, None)
        } else {
            match self.moving(key) {
                Some(after) => (after, None),
                None => self.acting(key),
            }
        }
    }

    /// What a key does to a question: `y` is yes, everything else is no.
    pub open spec fn confirm(self, key: KeyEvent) -> (AppV, Option<JobV>) {
        match self.mode {
            ModeV::Confirm(action) => {
                let closed = AppV { mode: ModeV::Normal, reach: ReachV::in_view(), ..self };
                if key.code == KeyCode::Char('y') || key.code == KeyCode::Char('Y') {
                    closed.running(action, self.reach)
                } else {
                    (AppV { status: "cancelled"@, ..closed }, None)
                }
            },
            _ => (self, None),
        }
    }

    /// What a key does to the filter.
    pub open spec fn filtering(self, key: KeyEvent) -> AppV {
        match key.code {
            KeyCode::Esc => AppV { filter: Seq::empty(), mode: ModeV::Normal, ..self },
            KeyCode::Enter => AppV { mode: ModeV::Normal, ..self },
            KeyCode::Backspace => AppV {
                filter: if self.filter.len() == 0 {
                    self.filter
                } else {
                    self.filter.drop_last()
                },
                ..self
            },
            KeyCode::Char(c) => AppV { filter: self.filter.push(c), ..self }.with_acct(
                AccountV { selected: 0, ..self.acct() },
            ),
            _ => self,
        }
    }

    /// What an event does.
    pub open spec fn event(self, ev: Event) -> (AppV, Option<JobV>) {
        match ev {
            Event::Key(key) => if key.kind != KeyEventKind::Press {
                (self, None)
            } else if self.loading {
                // the TUI is inert for a sweep's whole length
                (AppV { should_quit: self.should_quit || key.quits(), ..self }, None)
            } else if self.failed_alert() {
                // whatever the key, the box comes down and the key is spent
                // doing it
                let down = AppV { alert: None, ..self };
                if key.quits() {
                    (AppV { should_quit: true, ..down }, None)
                } else if key.code == KeyCode::Char('m') {
                    down.widening()
                } else {
                    (down, None)
                }
            } else {
                match self.mode {
                    ModeV::Normal => self.normal(key),
                    ModeV::Confirm(_) => self.confirm(key),
                    ModeV::Filter => (self.filtering(key), None),
                    ModeV::Help => (AppV { mode: ModeV::Normal, ..self }, None),
                }
            },
            Event::Other => (self, None),
        }
    }

    /// The key asks to unsubscribe from the targets.
    pub open spec fn reads_targets(self, key: KeyEvent) -> bool {
        !self.busy && key.code == KeyCode::Char('u')
    }

    /// The event asks to unsubscribe only from stacks that can be read.
    pub open spec fn event_fits(self, ev: Event) -> bool {
        ev matches Event::Key(key) && key.kind == KeyEventKind::Press && !self.loading
            && !self.failed_alert() && self.mode is Normal && self.reads_targets(key) ==> sources_readable(self.acct().stacks, self.acct().targets(self.filter))
    }

    // -----------------------------------------------------------------------
    // finished jobs
    // -----------------------------------------------------------------------

    /// These stacks left the mailbox, and `beyond` more messages with them: the
    /// decision is logged, and they are off the list.
    pub open spec fn departed(
        self,
        action: Action,
        idxs: Seq<int>,
        beyond: nat,
        now: Timestamp,
    ) -> AppV {
        let l = self.logged(action, idxs, now);
        l.with_acct(l.acct().pruned(idxs, beyond).removed(idxs))
    }

    /// A mailbox change worked.
    pub open spec fn changed(
        self,
        kind: ImapKind,
        idxs: Seq<int>,
        n: nat,
        label: Seq<char>,
        beyond: nat,
        partial: bool,
        now: Timestamp,
    ) -> AppV {
        let back = self.with_acct(AccountV { connected: true, ..self.acct() });
        let status = done_line(kind, n, label, beyond, partial);
        match kind {
            ImapKind::Trash => {
                let l = back.departed(Action::Trash, idxs, beyond, now);
                AppV {
                    stats: StatsV { trashed: l.stats.trashed + n, ..l.stats },
                    status,
                    ..l
                }
            },
            ImapKind::Archive => {
                let l = back.departed(Action::Archive, idxs, beyond, now);
                AppV {
                    stats: StatsV { archived: l.stats.archived + n, ..l.stats },
                    status,
                    ..l
                }
            },
            ImapKind::Read => {
                // logged before the flags change, so the log shows the read
                // rate the user actually acted on
                let l = back.logged(Action::Read, idxs, now);
                AppV {
                    stats: StatsV { marked_read: l.stats.marked_read + n, ..l.stats },
                    status,
                    ..l.with_acct(l.acct().marked_read(idxs))
                }
            },
        }
    }

    /// A sweep's window folded into its account.
    pub open spec fn window_landed(
        self,
        i: int,
        connected: bool,
        password: Option<Seq<char>>,
        kind: Load,
        sweep: SweepV,
    ) -> AppV {
        let acct = self.accounts[i].swept(
            self.filter,
            self.group_by,
            self.sort_by,
            connected,
            password,
            kind,
            sweep,
        );
        AppV { accounts: self.accounts.update(i, acct), ..self }
    }

    /// What is said of a sweep that came to its end.
    pub open spec fn sweep_reported(
        self,
        i: int,
        sweep: SweepV,
        result: Result<(), MailError>,
    ) -> AppV {
        match result {
            Ok(_) => AppV { status: summary(self.accounts[i]), ..self },
            Err(e) => if sweep.anchored && sweep.swept < sweep.bound {
                // the count goes in the alert, where it cannot be missed; the
                // reason stays in the status row
                AppV {
                    alert: Some(AlertV::Failed(stopped_at(sweep))),
                    status: "sweep "@ + stopped_at(sweep) + " — press m to retry ("@ + e.text()
                        + ")"@,
                    ..self
                }
            } else {
                AppV {
                    alert: Some(AlertV::Failed(e.text())),
                    status: "error: "@ + e.text(),
                    ..self
                }
            },
        }
    }

    /// What unsubscribing came to: it was told before the search began, and
    /// stays told whatever was said while it ran.
    pub open spec fn told(self) -> Seq<char> {
        match self.outcome {
            Some(line) => line,
            None => self.status,
        }
    }

    /// What is said of a search that came back without an error. After
    /// unsubscribing, what that came to stays on screen.
    pub open spec fn search_line(self, action: PendingV, beyond: nat, partial: bool) -> Seq<char> {
        if action is TrashAfterUnsub {
            if partial {
                self.told() + " — "@ + partial_note(beyond)
            } else {
                self.told()
            }
        } else if partial {
            partial_note(beyond)
        } else {
            summary(self.acct())
        }
    }

    /// What is said of a search that failed.
    pub open spec fn search_error(self, action: PendingV, e: MailError) -> Seq<char> {
        if action is TrashAfterUnsub {
            self.told() + " — error: "@ + e.text()
        } else {
            "error: "@ + e.text()
        }
    }

    /// The search for the senders' mail came back.
    pub open spec fn fanned_out(
        self,
        action: PendingV,
        found: Seq<u32>,
        partial: bool,
        error: Option<MailError>,
    ) -> AppV {
        match error {
            Some(e) => AppV {
                status: self.search_error(action, e),
                outcome: None,
                ..self.with_acct(AccountV { connected: false, ..self.acct() })
            },
            None => {
                let acct = AccountV { connected: true, ..self.acct() };
                let beyond = not_in(ascending(found), uids_at(acct.stacks, action.idxs()));
                AppV {
                    mode: ModeV::Confirm(action),
                    reach: ReachV { beyond, partial },
                    status: self.search_line(action, beyond.len(), partial),
                    outcome: None,
                    ..self.with_acct(acct)
                }
            },
        }
    }

    /// A chunk of the running sweep landed.
    pub open spec fn progressed(self, p: SweepProgress) -> AppV {
        AppV {
            alert: match self.alert {
                Some(AlertV::Sweeping { starting, .. }) => Some(
                    AlertV::Sweeping { starting, progress: Some(p) },
                ),
                other => other,
            },
            ..self
        }
    }

    /// With the job off the books.
    pub open spec fn idle(self) -> AppV {
        AppV {
            busy: false,
            loading: false,
            in_flight: false,
            searching: false,
            alert: None,
            ..self
        }
    }

    /// What unsubscribing came to, told and logged. Where something worked, the
    /// question whether to trash the stacks too comes next; the outcome stays
    /// on screen until it is answered.
    pub open spec fn unsubscribed(
        self,
        idxs: Seq<int>,
        ok: Seq<int>,
        failed: nat,
        last: Seq<char>,
        now: Timestamp,
    ) -> (AppV, Option<JobV>) {
        let line = unsub_line(idxs.len(), ok.len(), failed, last);
        let told = AppV {
            status: line,
            outcome: None,
            stats: StatsV { unsubscribed: self.stats.unsubscribed + ok.len(), ..self.stats },
            ..self
        }.logged(Action::Unsub, ok, now);
        if ok.len() > 0 {
            // chain into "also trash?" prompt
            let (asked, job) = told.asking(PendingV::TrashAfterUnsub(idxs));
            (
                AppV {
                    status: line,
                    outcome: if job is Some {
                        Some(line)
                    } else {
                        None
                    },
                    ..asked
                },
                job,
            )
        } else {
            (told, None)
        }
    }

    /// What a finished job does.
    pub open spec fn finished(self, done: TaskDone, now: Timestamp) -> (AppV, Option<JobV>) {
        let app = self.idle();
        match done {
            TaskDone::Imap { kind, stack_idxs, n_msgs, label, beyond, partial, result } => (
                match result {
                    Ok(_) => app.changed(
                        kind,
                        ints(stack_idxs@),
                        n_msgs as nat,
                        label@,
                        beyond as nat,
                        partial,
                        now,
                    ),
                    // session state unknown after failure/timeout: drop the
                    // session so the next R reconnects fresh
                    Err(e) => AppV {
                        status: "error: "@ + e.text(),
                        ..app.with_acct(AccountV { connected: false, ..app.acct() })
                    },
                },
                None,
            ),
            TaskDone::Unsub { stack_idxs, ok_idxs, failed, last } => app.unsubscribed(
                ints(stack_idxs@),
                ints(ok_idxs@),
                failed as nat,
                last@,
                now,
            ),
            TaskDone::Swept { acct_idx, connected, password, kind, sweep, result } => (
                app.window_landed(
                    acct_idx as int,
                    connected,
                    opt_text(password),
                    kind,
                    sweep@,
                ).sweep_reported(acct_idx as int, sweep@, result),
                None,
            ),
            TaskDone::FannedOut { action, found, partial, error } => (
                app.fanned_out(action@, found@, partial, error),
                None,
            ),
        }
    }

    /// The finished job is about stacks and accounts that are there, and its
    /// counts can be added up.
    pub open spec fn done_fits(self, done: TaskDone) -> bool {
        let stacks = self.acct().stacks;
        match done {
            TaskDone::Imap { kind, stack_idxs, n_msgs, result, .. } => result is Ok ==> {
                &&& below(ints(stack_idxs@), stacks.len())
                &&& match kind {
                    ImapKind::Trash => self.stats.trashed + n_msgs <= usize::MAX,
                    ImapKind::Archive => self.stats.archived + n_msgs <= usize::MAX,
                    ImapKind::Read => self.stats.marked_read + n_msgs <= usize::MAX,
                }
            },
            TaskDone::Unsub { stack_idxs, ok_idxs, failed, .. } => {
                &&& below(ints(ok_idxs@), stacks.len())
                &&& self.stats.unsubscribed + ok_idxs@.len() <= usize::MAX
                &&& ok_idxs@.len() + failed <= usize::MAX
                &&& ok_idxs@.len() > 0 ==> PendingV::TrashAfterUnsub(ints(stack_idxs@)).fits(
                    stacks,
                )
            },
            TaskDone::Swept { acct_idx, sweep, .. } => {
                &&& acct_idx < self.accounts.len()
                &&& self.accounts[acct_idx as int].back + sweep@.swept <= usize::MAX
            },
            TaskDone::FannedOut { action, found, error, .. } => error is None ==> {
                &&& action@.fits(stacks)
                &&& count_at(stacks, action@.idxs()) + found@.len() <= usize::MAX
            },
        }
    }
}

// ---------------------------------------------------------------------------
// operations
// ---------------------------------------------------------------------------

/// Three texts as one.
fn text3(a: &str, b: &str, c: &str) -> (r: String)
    ensures
        r@ == a@ + b@ + c@,
{
    let mut out = a.to_owned();
    out.append(b);
    out.append(c);
    out
}

/// Colour is off where the variable is set and not empty.
pub fn color_off(no_color: Option<&str>) -> (r: bool)
    ensures
        r == (no_color matches Some(v) && v@.len() > 0),
{
    match no_color {
        Some(v) => !is_empty(v),
        None => false,
    }
}

/// The value of a new `App`.
pub open spec fn app_started(
    accounts: Seq<AccountConfigV>,
    log: ActionLogV,
    no_color: bool,
) -> AppV {
    AppV {
        accounts: Seq::new(accounts.len(), |i: int| AccountV::fresh(accounts[i])),
        active: 0,
        mode: ModeV::Normal,
        group_by: GroupBy::Sender,
        sort_by: SortBy::Count,
        filter: Seq::empty(),
        status: "loading…"@,
        alert: None,
        no_color,
        busy: false,
        spinner: 0,
        loading: false,
        should_quit: false,
        stats: StatsV { trashed: 0, archived: 0, marked_read: 0, unsubscribed: 0 },
        log,
        in_flight: false,
        searching: false,
        outcome: None,
        reach: ReachV::in_view(),
    }
}

impl App {
    /// `no_color` is the value of the environment variable of that name, if it
    /// is set.
    pub fn new(accounts: Vec<AccountConfig>, log: ActionLog, no_color: Option<&str>) -> (r: App)
        ensures
            r@ == app_started(
                views(accounts@),
                log@,
                no_color matches Some(v) && v@.len() > 0,
            ),
            accounts@.len() > 0 ==> r@.wf(),
            r@.targets_valid(),
    {
        let ghost all = app_started(views(accounts@), log@, false).accounts;
        let ghost cfgs = views(accounts@);
        let mut list: Vec<AccountView> = Vec::new();
        assert(views(list@) =~= all.take(0));
        for cfg in it: accounts
            invariant
                views(it.seq()) == cfgs,
                all == Seq::new(cfgs.len(), |i: int| AccountV::fresh(cfgs[i])),
                views(list@) == all.take(it.index() as int),
        {
            let ghost i = it.index() as int;
            let ghost had = list@;
            assert(cfgs[i] == cfg@);
            let acct = AccountView::new(cfg);
            let ghost v = acct@;
            list.push(acct);
            assert(views(list@) =~= views(had).push(v));
            assert(all.take(i + 1) =~= all.take(i).push(v));
        }
        assert(all.take(all.len() as int) =~= all);
        App {
            accounts: list,
            active: 0,
            mode: Mode::Normal,
            group_by: GroupBy::Sender,
            sort_by: SortBy::Count,
            filter: String::new(),
            status: "loading…".to_owned(),
            alert: None,
            no_color: color_off(no_color),
            busy: false,
            spinner: 0,
            loading: false,
            should_quit: false,
            stats: SessionStats::default(),
            log,
            in_flight: false,
            searching: false,
            outcome: None,
            reach: Reach::in_view(),
        }
    }

    pub fn account(&self) -> (r: &AccountView)
        requires
            self.active < self.accounts@.len(),
        ensures
            r@ == self@.acct(),
            *r == self.accounts@[self.active as int],
    {
        &self.accounts[self.active]
    }

    pub fn account_mut(&mut self) -> (r: &mut AccountView)
        requires
            old(self).active < old(self).accounts@.len(),
        ensures
            (*r)@ == old(self)@.acct(),
            final(self)@ == old(self)@.with_acct((*final(r))@),
    {
        let ghost before = self.accounts@;
        let i: usize = self.active;
        let r = &mut self.accounts[i];
        proof {
            lemma_views_update(before, i as int, *final(r));
        }
        r
    }

    /// Indices into account().stacks that match the current filter.
    pub fn visible_stacks(&self) -> (r: Vec<usize>)
        requires
            self.active < self.accounts@.len(),
        ensures
            ints(r@) == self@.acct().visible(self@.filter),
            below(ints(r@), self@.acct().stacks.len()),
            forall|i: int| #[trigger]
                ints(r@).contains(i) <==> 0 <= i < self@.acct().stacks.len() && (self@.filter.len() == 0
                    || occurs(self@.acct().stacks[i].key, lowercase(self@.filter)) || occurs(
                    lowercase(self@.acct().stacks[i].display_name),
                    lowercase(self@.filter),
                ) || (self@.acct().stacks[i].subject matches Some(subject) && occurs(
                    lowercase(subject),
                    lowercase(self@.filter),
                ))),
    {
        self.account().visible(self.filter.as_str())
    }

    /// Index into stacks of the currently selected (filtered) row.
    pub fn selected_stack_idx(&self) -> (r: Option<usize>)
        requires
            self.active < self.accounts@.len(),
        ensures
            match r {
                Some(i) => self@.acct().under_cursor(self@.filter) == Some(i as int) && i
                    < self@.acct().stacks.len(),
                None => self@.acct().under_cursor(self@.filter) is None,
            },
    {
        self.account().cursor_stack(self.filter.as_str())
    }

    /// Stacks an action applies to: all marked, else the selected one.
    pub fn target_stacks(&self) -> (r: Vec<usize>)
        requires
            self.active < self.accounts@.len(),
        ensures
            ints(r@) == self@.acct().targets(self@.filter),
            below(ints(r@), self@.acct().stacks.len()),
    {
        self.account().targets(self.filter.as_str())
    }

    /// Status line describing an account's stacks as they stand now.
    pub fn account_summary(&self, idx: usize) -> (r: String)
        requires
            idx < self@.accounts.len(),
            self@.accounts[idx as int].wf(),
        ensures
            r@ == summary(self@.accounts[idx as int]),
    {
        let acct = &self.accounts[idx];
        assert(self@.accounts[idx as int] == acct@);
        let held = commas(acct.loaded_messages());
        let total = commas(acct.inbox_total());
        let stacks = number(acct.stacks.len());
        let mut out = acct.cfg.email.clone();
        out.append(": ");
        out.append(held.as_str());
        out.append(" of ");
        out.append(total.as_str());
        out.append(" messages in ");
        out.append(stacks.as_str());
        out.append(" stacks");
        out
    }

    /// Connect (if needed) and sweep one window in the background, so the
    /// event loop keeps drawing while the network work runs.
    pub fn spawn_batch(&mut self, kind: Load) -> (r: Option<Job>)
        requires
            old(self)@.wf(),
        ensures
            (final(self)@, opt_job(r)) == old(self)@.sweeping(kind),
            r is Some,
            final(self)@.wf(),
            old(self)@.mode !is Confirm ==> final(self)@.targets_valid(),
    {
        let acct_idx: usize = self.active;
        // nothing swept yet means there is no window to widen
        let reset = kind == Load::Reset || !self.account().loaded;
        let kind = if reset {
            Load::Reset
        } else {
            Load::More
        };
        let account = self.account().cfg.copy();
        let password = copy_opt(&self.account().password);
        // a live session is reused on refresh; taking it keeps the account
        // from being used by two paths at once
        let connected = self.account().connected;
        let acct = self.account_mut();
        acct.connected = false;
        if reset {
            acct.reset();
        }
        let back: usize = acct.back;
        self.in_flight = true;
        self.busy = true;
        self.loading = true;
        self.status = text3(
            if connected {
                "sweeping "
            } else {
                "connecting to "
            },
            account.email.as_str(),
            "…",
        );
        self.alert = Some(Alert::Sweeping { starting: self.status.clone(), progress: None });
        Some(Job::Sweep { acct_idx, account, password, connected, back, kind })
    }

    /// `m`: widen the window by one more sweep, behind the one already read.
    /// The mailbox is never loaded whole — every sweep is the same bounded
    /// work however big it is.
    pub fn load_more(&mut self) -> (r: Option<Job>)
        requires
            old(self)@.wf(),
        ensures
            (final(self)@, opt_job(r)) == old(self)@.widening(),
            final(self)@.wf(),
            old(self)@.mode !is Confirm ==> final(self)@.targets_valid(),
    {
        if self.account().loaded && self.account().exhausted() {
            self.status = "no more messages — R to refresh".to_owned();
            return None;
        }
        self.spawn_batch(Load::More)
    }

    /// Put a question to the user; where the senders can be searched for, the
    /// search comes first.
    pub fn ask(&mut self, action: PendingAction) -> (r: Option<Job>)
        requires
            old(self)@.wf(),
            action@.fits(old(self)@.acct().stacks),
        ensures
            (final(self)@, opt_job(r)) == old(self)@.asking(action@),
            final(self)@.wf(),
            old(self)@.open_to_questions() ==> final(self)@.targets_valid(),
    {
        if !(self.account().connected && self.group_by == GroupBy::Sender) {
            self.mode = Mode::Confirm(action);
            self.reach = Reach::in_view();
            return None;
        }
        let senders = self.senders(action.idxs());
        let who = label(&self.account().stacks, action.idxs());
        self.account_mut().connected = false;
        self.in_flight = true;
        self.searching = true;
        self.busy = true;
        self.status = text3("searching for everything from ", who.as_str(), "…");
        Some(Job::FanOut { action, senders })
    }

    fn senders(&self, idxs: &Vec<usize>) -> (r: Vec<String>)
        requires
            self@.wf(),
            below(ints(idxs@), self@.acct().stacks.len()),
        ensures
            views(r@) == senders_at(self@.acct().stacks, ints(idxs@)),
    {
        let acct = self.account();
        let ghost all = senders_at(acct@.stacks, ints(idxs@));
        let mut out: Vec<String> = Vec::new();
        let mut k: usize = 0;
        assert(acct@.wf());
        assert(views(out@) =~= all.take(0));
        while k < idxs.len()
            invariant
                k <= idxs@.len(),
                acct@.wf(),
                below(ints(idxs@), acct@.stacks.len()),
                all == senders_at(acct@.stacks, ints(idxs@)),
                views(out@) == all.take(k as int),
            decreases idxs@.len() - k,
        {
            let ghost had = out@;
            let i: usize = idxs[k];
            assert(ints(idxs@)[k as int] == i as int);
            assert(acct@.stacks[i as int] == acct.stacks@[i as int]@);
            assert(acct@.stacks[i as int].wf());
            let sender = acct.stacks[i].latest().sender_email.clone();
            let ghost v = sender@;
            out.push(sender);
            assert(views(out@) =~= views(had).push(v));
            assert(all.take(k + 1) =~= all.take(k as int).push(v));
            k += 1;
        }
        assert(all.take(k as int) =~= all);
        out
    }

    /// Merged uids across stacks + a human label for the status line.
    pub fn collect(&self, stack_idxs: &Vec<usize>) -> (r: (Vec<u32>, String))
        requires
            self.active < self.accounts@.len(),
            below(ints(stack_idxs@), self@.acct().stacks.len()),
        ensures
            r.0@ == uids_at(self@.acct().stacks, ints(stack_idxs@)),
            r.1@ == whose(self@.acct().stacks, ints(stack_idxs@)),
    {
        let acct = self.account();
        (acct.uids(stack_idxs.as_slice()), label(&acct.stacks, stack_idxs))
    }

    /// Hand a mailbox change out.
    pub fn spawn_imap(&mut self, kind: ImapKind, stack_idxs: Vec<usize>, reach: Reach) -> (r: Option<
        Job,
    >)
        requires
            old(self)@.wf(),
            below(ints(stack_idxs@), old(self)@.acct().stacks.len()),
        ensures
            (final(self)@, opt_job(r)) == old(self)@.changing(kind, ints(stack_idxs@), reach@),
            final(self)@.wf(),
            old(self)@.mode !is Confirm ==> final(self)@.targets_valid(),
    {
        let (mut uids, label) = self.collect(&stack_idxs);
        let mut beyond = reach.beyond;
        let n_beyond: usize = beyond.len();
        uids.append(&mut beyond);
        if !self.account().connected {
            self.status = "not connected — press R to reconnect".to_owned();
            return None;
        }
        self.account_mut().connected = false;
        self.in_flight = true;
        self.busy = true;
        let verb = match kind {
            ImapKind::Trash => "trashing",
            ImapKind::Archive => "archiving",
            ImapKind::Read => "marking read",
        };
        let n = number(uids.len());
        let mut status = text3(verb, " ", n.as_str());
        status.append(" messages…");
        self.status = status;
        Some(
            Job::Imap {
                kind,
                uids,
                stack_idxs,
                label,
                beyond: n_beyond,
                partial: reach.partial,
            },
        )
    }

    fn unsub_jobs(&self, idxs: &Vec<usize>) -> (r: Vec<UnsubJob>)
        requires
            self.active < self.accounts@.len(),
            below(ints(idxs@), self@.acct().stacks.len()),
            sources_readable(self@.acct().stacks, ints(idxs@)),
        ensures
            views(r@) == unsub_jobs(self@.acct().stacks, ints(idxs@)),
    {
        let acct = self.account();
        let ghost all = unsub_jobs(acct@.stacks, ints(idxs@));
        let mut out: Vec<UnsubJob> = Vec::new();
        let mut k: usize = 0;
        assert(views(out@) =~= all.take(0));
        while k < idxs.len()
            invariant
                k <= idxs@.len(),
                below(ints(idxs@), acct@.stacks.len()),
                sources_readable(acct@.stacks, ints(idxs@)),
                all == unsub_jobs(acct@.stacks, ints(idxs@)),
                views(out@) == all.take(k as int),
            decreases idxs@.len() - k,
        {
            let ghost had = out@;
            let i: usize = idxs[k];
            assert(ints(idxs@)[k as int] == i as int);
            assert(acct@.stacks[i as int] == acct.stacks@[i as int]@);
            let job = UnsubJob {
                idx: i,
                name: acct.stacks[i].display_name.clone(),
                method: method_for(&acct.stacks[i]),
            };
            let ghost v = job@;
            out.push(job);
            assert(views(out@) =~= views(had).push(v));
            assert(all.take(k + 1) =~= all.take(k as int).push(v));
            k += 1;
        }
        assert(all.take(k as int) =~= all);
        out
    }

    /// Hand unsubscribing out. Methods and names are resolved up front; the
    /// stacks stay untouched while the job runs because mutating keys are
    /// blocked when busy.
    pub fn spawn_unsub(&mut self, stack_idxs: Vec<usize>) -> (r: Option<Job>)
        requires
            old(self)@.wf(),
            below(ints(stack_idxs@), old(self)@.acct().stacks.len()),
            sources_readable(old(self)@.acct().stacks, ints(stack_idxs@)),
        ensures
            (final(self)@, opt_job(r)) == old(self)@.unsubscribing(ints(stack_idxs@)),
            final(self)@.wf(),
            old(self)@.mode !is Confirm ==> final(self)@.targets_valid(),
    {
        let account = self.account().cfg.copy();
        let password = match &self.account().password {
            Some(p) => p.clone(),
            None => String::new(),
        };
        let jobs = self.unsub_jobs(&stack_idxs);
        self.in_flight = true;
        self.busy = true;
        let n = number(stack_idxs.len());
        self.status = text3("unsubscribing from ", n.as_str(), " stacks…");
        Some(Job::Unsub { account, password, jobs, stack_idxs })
    }

    /// Dispatch a confirmed action to the background so the event loop keeps
    /// drawing while the network work runs.
    pub fn run_action(&mut self, action: PendingAction, reach: Reach) -> (r: Option<Job>)
        requires
            old(self)@.wf(),
            action@.fits(old(self)@.acct().stacks),
        ensures
            (final(self)@, opt_job(r)) == old(self)@.running(action@, reach@),
            final(self)@.wf(),
            old(self)@.mode !is Confirm ==> final(self)@.targets_valid(),
    {
        match action {
            PendingAction::Trash { stack_idxs } => {
                self.spawn_imap(ImapKind::Trash, stack_idxs, reach)
            },
            PendingAction::TrashAfterUnsub { stack_idxs } => {
                self.spawn_imap(ImapKind::Trash, stack_idxs, reach)
            },
            PendingAction::Archive { stack_idxs } => {
                self.spawn_imap(ImapKind::Archive, stack_idxs, reach)
            },
            PendingAction::Unsubscribe { stack_idxs } => self.spawn_unsub(stack_idxs),
        }
    }

    /// Rebuild every loaded account's stacks from its already-fetched
    /// messages.
    pub fn regroup(&mut self, group_by: GroupBy)
        requires
            old(self)@.wf(),
        ensures
            final(self)@ == old(self)@.regrouped(group_by),
            final(self)@.wf(),
            old(self)@.mode !is Confirm ==> final(self)@.targets_valid(),
    {
        let ghost before = self@;
        self.group_by = group_by;
        let sort_by = self.sort_by;
        let n: usize = self.accounts.len();
        let mut i: usize = 0;
        while i < n
            invariant
                i <= n,
                n == self.accounts@.len(),
                sort_by == before.sort_by,
                (AppV { accounts: before.accounts, ..self@ }) == (AppV { group_by, ..before }),
                n == before.accounts.len(),
                forall|j: int|
                    0 <= j < i ==> #[trigger] self.accounts@[j]@ == before.regrouped(
                        group_by,
                    ).accounts[j] && self.accounts@[j]@.wf(),
                forall|j: int|
                    i <= j < n ==> #[trigger] self.accounts@[j]@ == before.accounts[j]
                        && self.accounts@[j]@.wf(),
            decreases n - i,
        {
            if self.accounts[i].loaded {
                self.accounts[i].regroup(group_by, sort_by);
            }
            i += 1;
        }
        self.status = "grouping by ".to_owned();
        self.status.append(group_by.label());
        assert(self@.accounts =~= before.regrouped(group_by).accounts);
    }

    /// Sort every account's stacks.
    pub fn resort(&mut self, sort_by: SortBy)
        requires
            old(self)@.wf(),
        ensures
            final(self)@ == old(self)@.resorted(sort_by),
            final(self)@.wf(),
            old(self)@.mode !is Confirm ==> final(self)@.targets_valid(),
    {
        let ghost before = self@;
        self.sort_by = sort_by;
        let n: usize = self.accounts.len();
        let mut i: usize = 0;
        while i < n
            invariant
                i <= n,
                n == self.accounts@.len(),
                (AppV { accounts: before.accounts, ..self@ }) == (AppV { sort_by, ..before }),
                n == before.accounts.len(),
                forall|j: int|
                    0 <= j < i ==> #[trigger] self.accounts@[j]@ == before.accounts[j].resorted(
                        sort_by,
                    ) && self.accounts@[j]@.wf(),
                forall|j: int|
                    i <= j < n ==> #[trigger] self.accounts@[j]@ == before.accounts[j]
                        && self.accounts@[j]@.wf(),
            decreases n - i,
        {
            self.accounts[i].resort(sort_by);
            i += 1;
        }
        self.status = "sorting by ".to_owned();
        self.status.append(sort_by.label());
        assert(self@.accounts =~= before.resorted(sort_by).accounts);
    }

    fn escape(&mut self)
        requires
            old(self)@.wf(),
        ensures
            final(self)@ == old(self)@.escaped(),
            final(self)@.wf(),
    {
        if !self.account().marked.is_empty() {
            self.account_mut().marked.clear();
        } else if !is_empty(self.filter.as_str()) {
            self.filter = String::new();
            self.account_mut().selected = 0;
        }
    }

    fn toggle_mark(&mut self)
        requires
            old(self)@.wf(),
        ensures
            final(self)@ == old(self)@.toggled(),
            final(self)@.wf(),
    {
        let rows: usize = self.visible_stacks().len();
        if let Some(i) = self.selected_stack_idx() {
            assert(self@.acct().stacks[i as int] == self.account_spec().stacks@[i as int]@);
            let key = self.account().stacks[i].key.clone();
            let acct = self.account_mut();
            if acct.marked.contains(key.as_str()) {
                acct.marked.remove(key.as_str());
            } else {
                acct.marked.insert(key);
            }
            // auto-advance for rapid marking
            acct.move_sel(1, rows);
        }
    }

    spec fn account_spec(&self) -> AccountView {
        self.accounts@[self.active as int]
    }

    fn toggle_all_marks(&mut self)
        requires
            old(self)@.wf(),
        ensures
            final(self)@ == old(self)@.toggled_all(),
            final(self)@.wf(),
    {
        let rows = self.visible_stacks();
        let ghost keys = row_keys(self@.acct().stacks, ints(rows@));
        let ghost before = self@;
        let all_marked = self.rows_marked(&rows);
        let mut k: usize = 0;
        assert(keys.take(0) =~= Seq::<Seq<char>>::empty());
        assert(before.with_acct(before.acct()).accounts =~= before.accounts);
        while k < rows.len()
            invariant
                k <= rows@.len(),
                before.wf(),
                self@.wf(),
                self@.active == before.active,
                below(ints(rows@), before.acct().stacks.len()),
                keys == row_keys(before.acct().stacks, ints(rows@)),
                self@ == before.with_acct(
                    AccountV {
                        marked: if all_marked {
                            without_all(before.acct().marked, keys.take(k as int))
                        } else {
                            with_all(before.acct().marked, keys.take(k as int))
                        },
                        ..before.acct()
                    },
                ),
            decreases rows@.len() - k,
        {
            let i: usize = rows[k];
            assert(ints(rows@)[k as int] == i as int);
            assert(keys.take(k + 1).drop_last() =~= keys.take(k as int));
            assert(keys.take(k + 1).last() == keys[k as int]);
            assert(self@.acct().stacks[i as int] == self.account_spec().stacks@[i as int]@);
            let key = self.account().stacks[i].key.clone();
            let acct = self.account_mut();
            if all_marked {
                acct.marked.remove(key.as_str());
            } else {
                acct.marked.insert(key);
            }
            assert(self@.accounts =~= before.accounts.update(before.active, self@.acct()));
            k += 1;
        }
        assert(keys.take(k as int) =~= keys);
    }

    fn rows_marked(&self, rows: &Vec<usize>) -> (r: bool)
        requires
            self.active < self.accounts@.len(),
            below(ints(rows@), self@.acct().stacks.len()),
        ensures
            r == all_in(row_keys(self@.acct().stacks, ints(rows@)), self@.acct().marked),
    {
        let acct = self.account();
        let ghost keys = row_keys(acct@.stacks, ints(rows@));
        let mut k: usize = 0;
        while k < rows.len()
            invariant
                k <= rows@.len(),
                acct@ == self@.acct(),
                below(ints(rows@), acct@.stacks.len()),
                keys == row_keys(acct@.stacks, ints(rows@)),
                forall|j: int| 0 <= j < k ==> acct@.marked.contains(#[trigger] keys[j]),
            decreases rows@.len() - k,
        {
            let i: usize = rows[k];
            assert(ints(rows@)[k as int] == i as int);
            assert(acct@.stacks[i as int] == acct.stacks@[i as int]@);
            if !acct.marked.contains(acct.stacks[i].key.as_str()) {
                assert(!acct@.marked.contains(keys[k as int]));
                return false;
            }
            k += 1;
        }
        true
    }

    fn next_account(&mut self) -> (r: Option<Job>)
        requires
            old(self)@.wf(),
        ensures
            (final(self)@, opt_job(r)) == old(self)@.tabbed(),
            final(self)@.wf(),
            old(self)@.mode !is Confirm ==> final(self)@.targets_valid(),
    {
        assert(self.active < self.accounts.len() <= usize::MAX);
        self.active = (self.active + 1) % self.accounts.len();
        self.filter = String::new();
        if self.account().loaded {
            // the status line is global: without this it keeps describing the
            // account we just left
            let line = self.account_summary(self.active);
            self.status = line;
            None
        } else {
            self.spawn_batch(Load::Reset)
        }
    }

    /// Those of the targets that offer a way to unsubscribe.
    fn offering(&self, idxs: &Vec<usize>) -> (r: Vec<usize>)
        requires
            self.active < self.accounts@.len(),
            below(ints(idxs@), self@.acct().stacks.len()),
            sources_readable(self@.acct().stacks, ints(idxs@)),
        ensures
            ints(r@) == offering(self@.acct().stacks, ints(idxs@)),
    {
        let acct = self.account();
        let ghost all = ints(idxs@);
        let mut out: Vec<usize> = Vec::new();
        let mut k: usize = 0;
        assert(all.take(0) =~= Seq::<int>::empty());
        assert(ints(out@) =~= offering(acct@.stacks, all.take(0)));
        while k < idxs.len()
            invariant
                k <= idxs@.len(),
                all == ints(idxs@),
                below(all, acct@.stacks.len()),
                sources_readable(acct@.stacks, all),
                ints(out@) == offering(acct@.stacks, all.take(k as int)),
            decreases idxs@.len() - k,
        {
            let ghost had = out@;
            let i: usize = idxs[k];
            assert(all[k as int] == i as int);
            assert(all.take(k + 1).drop_last() =~= all.take(k as int));
            assert(all.take(k + 1).last() == i as int);
            assert(acct@.stacks[i as int] == acct.stacks@[i as int]@);
            if method_for(&acct.stacks[i]).is_some() {
                out.push(i);
                assert(ints(out@) =~= ints(had).push(i as int));
            }
            k += 1;
        }
        assert(all.take(k as int) =~= all);
        out
    }

    /// A key that moves about in the list, marks in it or leaves it. Was it one?
    #[verifier::spinoff_prover]
    fn handle_moving(&mut self, key: KeyEvent) -> (r: bool)
        requires
            old(self)@.wf(),
        ensures
            match old(self)@.moving(key) {
                Some(after) => r && final(self)@ == after,
                None => !r && final(self)@ == old(self)@,
            },
            final(self)@.wf(),
            old(self)@.mode !is Confirm ==> final(self)@.mode !is Confirm,
            final(self)@.alert == old(self)@.alert,
    {
        let rows: usize = self.visible_stacks().len();
        match key.code {
            KeyCode::Char('j') | KeyCode::Down => {
                self.account_mut().move_sel(1, rows);
            },
            KeyCode::Char('k') | KeyCode::Up => {
                self.account_mut().move_sel(-1, rows);
            },
            KeyCode::Home => {
                self.account_mut().jump_sel(0, rows);
            },
            KeyCode::End | KeyCode::Char('G') => {
                self.account_mut().jump_sel(usize::MAX, rows);
            },
            KeyCode::Esc => self.escape(),
            KeyCode::Char(' ') => self.toggle_mark(),
            KeyCode::Char('a') => self.toggle_all_marks(),
            KeyCode::Char('?') => {
                self.mode = Mode::Help;
            },
            KeyCode::Char('/') => {
                self.mode = Mode::Filter;
                self.filter = String::new();
            },
            _ => return false,
        }
        true
    }

    /// `u`: ask whether to unsubscribe.
    fn ask_to_leave(&mut self, targets: Vec<usize>)
        requires
            old(self)@.wf(),
            ints(targets@) == old(self)@.acct().targets(old(self)@.filter),
            sources_readable(old(self)@.acct().stacks, ints(targets@)),
        ensures
            final(self)@ == old(self)@.leaving(ints(targets@)),
            final(self)@.wf(),
            old(self)@.open_to_questions() ==> final(self)@.targets_valid(),
    {
        proof {
            lemma_targets(self@.acct(), self@.filter);
        }
        let offered = self.offering(&targets);
        proof {
            lemma_offering(self@.acct().stacks, ints(targets@));
            lemma_count_bound(self@.acct().stacks, ints(offered@));
        }
        if offered.len() == 0 {
            self.status = "no List-Unsubscribe header in selection".to_owned();
        } else {
            self.mode = Mode::Confirm(PendingAction::Unsubscribe { stack_idxs: offered });
            self.reach = Reach::in_view();
        }
    }

    /// A key that sorts, groups, loads or acts.
    #[verifier::spinoff_prover]
    fn handle_acting(&mut self, key: KeyEvent) -> (r: Option<Job>)
        requires
            old(self)@.wf(),
            key.code == KeyCode::Char('u') ==> sources_readable(
                old(self)@.acct().stacks,
                old(self)@.acct().targets(old(self)@.filter),
            ),
        ensures
            (final(self)@, opt_job(r)) == old(self)@.acting(key),
            final(self)@.wf(),
            old(self)@.open_to_questions() ==> final(self)@.targets_valid(),
    {
        proof {
            lemma_targets(self@.acct(), self@.filter);
        }
        match key.code {
            KeyCode::Char('s') => {
                self.resort(self.sort_by.toggle());
                None
            },
            KeyCode::Char('g') => {
                self.regroup(self.group_by.toggle());
                None
            },
            KeyCode::Tab => self.next_account(),
            KeyCode::Char('m') => self.load_more(),
            KeyCode::Char('R') => self.spawn_batch(Load::Reset),
            KeyCode::Char('d') => {
                let targets = self.target_stacks();
                if targets.len() == 0 {
                    None
                } else {
                    self.ask(PendingAction::Trash { stack_idxs: targets })
                }
            },
            KeyCode::Char('e') => {
                let targets = self.target_stacks();
                if targets.len() == 0 {
                    None
                } else {
                    self.ask(PendingAction::Archive { stack_idxs: targets })
                }
            },
            KeyCode::Char('r') => {
                let targets = self.target_stacks();
                if targets.len() == 0 {
                    None
                } else {
                    self.spawn_imap(ImapKind::Read, targets, Reach::in_view())
                }
            },
            KeyCode::Char('u') => {
                let targets = self.target_stacks();
                self.ask_to_leave(targets);
                None
            },
            _ => None,
        }
    }

    /// A key in the list.
    pub fn handle_normal(&mut self, key: KeyEvent) -> (r: Option<Job>)
        requires
            old(self)@.wf(),
            old(self)@.reads_targets(key) ==> sources_readable(
                old(self)@.acct().stacks,
                old(self)@.acct().targets(old(self)@.filter),
            ),
        ensures
            (final(self)@, opt_job(r)) == old(self)@.normal(key),
            final(self)@.wf(),
            old(self)@.open_to_questions() ==> final(self)@.targets_valid(),
    {
        // while an action is in flight, only allow keys that can't mutate or
        // reorder stacks — the job holds indices into them
        if self.busy && !is_harmless(key) {
            // silently dropping the key looks like a hung TUI
            self.status = "busy — wait for the current action to finish".to_owned();
            return None;
        }
        if is_quit(key) {
            self.should_quit = true;
            return None;
        }
        if self.handle_moving(key) {
            return None;
        }
        self.handle_acting(key)
    }

    /// A key at a question.
    pub fn handle_confirm(&mut self, key: KeyEvent) -> (r: Option<Job>)
        requires
            old(self)@.wf(),
            old(self)@.targets_valid(),
        ensures
            (final(self)@, opt_job(r)) == old(self)@.confirm(key),
            final(self)@.wf(),
            final(self)@.targets_valid(),
    {
        let mut mode = Mode::Normal;
        std::mem::swap(&mut mode, &mut self.mode);
        match mode {
            Mode::Confirm(action) => {
                let mut reach = Reach::in_view();
                std::mem::swap(&mut reach, &mut self.reach);
                match key.code {
                    KeyCode::Char('y') | KeyCode::Char('Y') => self.run_action(action, reach),
                    _ => {
                        self.status = "cancelled".to_owned();
                        None
                    },
                }
            },
            other => {
                self.mode = other;
                None
            },
        }
    }

    /// A key while the filter is being typed.
    pub fn handle_filter(&mut self, key: KeyEvent)
        requires
            old(self)@.wf(),
        ensures
            final(self)@ == old(self)@.filtering(key),
            final(self)@.wf(),
            old(self)@.mode !is Confirm ==> final(self)@.targets_valid(),
    {
        match key.code {
            KeyCode::Esc => {
                self.filter = String::new();
                self.mode = Mode::Normal;
            },
            KeyCode::Enter => {
                self.mode = Mode::Normal;
            },
            KeyCode::Backspace => {
                pop_char(&mut self.filter);
            },
            KeyCode::Char(c) => {
                self.filter.push(c);
                self.account_mut().selected = 0;
            },
            _ => {},
        }
    }

    /// Something happened at the terminal.
    pub fn handle_event(&mut self, ev: Event) -> (r: Option<Job>)
        requires
            old(self)@.wf(),
            old(self)@.targets_valid(),
            old(self)@.event_fits(ev),
        ensures
            (final(self)@, opt_job(r)) == old(self)@.event(ev),
            final(self)@.wf(),
            final(self)@.targets_valid(),
    {
        let key = match ev {
            Event::Key(key) => key,
            Event::Other => return None,
        };
        if key.kind != KeyEventKind::Press {
            return None;
        }
        // The TUI is inert for a sweep's whole length. This is wider than the
        // `busy` gate: that one only has to keep an action's stack indices
        // valid, so it still allows scrolling and help. A sweep refuses those
        // too — on a widen the previous window is still on screen, and letting
        // the cursor roam a list that is about to be rebuilt under it would
        // retarget it silently. The refusal is stated for the whole sweep, not
        // posted per keypress, so nothing here writes to the status.
        if self.loading {
            if is_quit(key) {
                self.should_quit = true;
            }
            return None;
        }
        // The failed alert names two keys and swallows the rest, which is what
        // "any key to continue" means: whatever the user pressed, the box
        // comes down and that keypress is spent doing it. Letting the key
        // through as well would act on a list the user was not looking at.
        if let Some(Alert::Failed(_)) = self.alert {
            self.alert = None;
            if is_quit(key) {
                self.should_quit = true;
            } else if key.code == KeyCode::Char('m') {
                return self.load_more();
            }
            return None;
        }
        match self.mode {
            Mode::Normal => self.handle_normal(key),
            Mode::Confirm(_) => self.handle_confirm(key),
            Mode::Filter => {
                self.handle_filter(key);
                None
            },
            Mode::Help => {
                self.mode = Mode::Normal;
                None
            },
        }
    }

    /// Does the event ask to unsubscribe only from stacks that can be read?
    pub fn accepts_event(&self, ev: Event) -> (r: bool)
        requires
            self@.wf(),
        ensures
            r == self@.event_fits(ev),
    {
        let key = match ev {
            Event::Key(key) => key,
            Event::Other => return true,
        };
        if key.kind != KeyEventKind::Press || self.loading || self.busy || key.code
            != KeyCode::Char('u') {
            return true;
        }
        if let Some(Alert::Failed(_)) = self.alert {
            return true;
        }
        match self.mode {
            Mode::Normal => {
                let targets = self.target_stacks();
                self.readable(&targets)
            },
            _ => true,
        }
    }

    /// Something happened at the terminal. An event that asks to unsubscribe
    /// from a stack whose header cannot be read is refused, and changes
    /// nothing.
    pub fn try_event(&mut self, ev: Event) -> (r: Result<Option<Job>, Unreadable>)
        requires
            old(self)@.wf(),
            old(self)@.targets_valid(),
        ensures
            match r {
                Ok(job) => old(self)@.event_fits(ev) && (final(self)@, opt_job(job)) == old(self)@.event(ev),
                Err(_) => !old(self)@.event_fits(ev) && final(self)@ == old(self)@,
            },
            final(self)@.wf(),
            final(self)@.targets_valid(),
    {
        if self.accepts_event(ev) {
            Ok(self.handle_event(ev))
        } else {
            Err(Unreadable)
        }
    }

    /// Is the finished job about stacks and accounts that are there, and can
    /// its counts be added up?
    pub fn accepts_done(&self, done: &TaskDone) -> (r: bool)
        requires
            self@.wf(),
        ensures
            r == self@.done_fits(*done),
    {
        let acct = self.account();
        let n: usize = acct.stacks.len();
        match done {
            TaskDone::Imap { kind, stack_idxs, n_msgs, result, .. } => match result {
                Ok(_) => all_below(stack_idxs, n) && match kind {
                    ImapKind::Trash => self.stats.trashed <= usize::MAX - *n_msgs,
                    ImapKind::Archive => self.stats.archived <= usize::MAX - *n_msgs,
                    ImapKind::Read => self.stats.marked_read <= usize::MAX - *n_msgs,
                },
                Err(_) => true,
            },
            TaskDone::Unsub { stack_idxs, ok_idxs, failed, .. } => {
                let ok: usize = ok_idxs.len();
                all_below(ok_idxs, n) && self.stats.unsubscribed <= usize::MAX - ok && ok
                    <= usize::MAX - *failed && (ok == 0 || (all_below(stack_idxs, n) && can_count(
                    &acct.stacks,
                    stack_idxs,
                    0,
                )))
            },
            TaskDone::Swept { acct_idx, sweep, .. } => {
                if *acct_idx < self.accounts.len() {
                    assert(self@.accounts[*acct_idx as int] == self.accounts@[*acct_idx as int]@);
                    self.accounts[*acct_idx].back <= usize::MAX - sweep.swept
                } else {
                    false
                }
            },
            TaskDone::FannedOut { action, found, error, .. } => {
                if error.is_some() {
                    return true;
                }
                let idxs = action.idxs();
                if !(all_below(idxs, n) && can_count(&acct.stacks, idxs, found.len())) {
                    return false;
                }
                match action {
                    PendingAction::Unsubscribe { .. } => self.readable(idxs),
                    _ => true,
                }
            },
        }
    }

    fn readable(&self, idxs: &Vec<usize>) -> (r: bool)
        requires
            self.active < self.accounts@.len(),
            below(ints(idxs@), self@.acct().stacks.len()),
        ensures
            r == sources_readable(self@.acct().stacks, ints(idxs@)),
    {
        let acct = self.account();
        let ghost all = ints(idxs@);
        let mut k: usize = 0;
        while k < idxs.len()
            invariant
                k <= idxs@.len(),
                acct@ == self@.acct(),
                all == ints(idxs@),
                below(all, acct@.stacks.len()),
                forall|j: int| 0 <= j < k ==> source_readable(acct@.stacks[#[trigger] all[j]]),
            decreases idxs@.len() - k,
        {
            let i: usize = idxs[k];
            assert(all[k as int] == i as int);
            assert(acct@.stacks[i as int] == acct.stacks@[i as int]@);
            if !is_source_readable(&acct.stacks[i]) {
                assert(!source_readable(acct@.stacks[all[k as int]]));
                return false;
            }
            k += 1;
        }
        true
    }

    /// Called by the view with the stack rows actually on screen this frame.
    /// Features are frozen at first sighting, except when a widened window has
    /// grown the stack: `m` folds new messages into stacks already on screen,
    /// and a "keep" that reported the count from before the widening would
    /// under-report the mail the user actually decided to keep.
    pub fn record_seen(&mut self, stack_idxs: &[usize])
        requires
            old(self)@.wf(),
            below(ints(stack_idxs@), old(self)@.acct().stacks.len()),
        ensures
            exists|at: Timestamp|
                final(self)@ == #[trigger] old(self)@.sighted(ints(stack_idxs@), at),
            final(self)@.wf(),
            old(self)@.targets_valid() ==> final(self)@.targets_valid(),
    {
        let at = now();
        self.record_seen_at(stack_idxs, at);
    }

    /// The same, at a given time.
    pub fn record_seen_at(&mut self, stack_idxs: &[usize], at: Timestamp)
        requires
            old(self)@.wf(),
            below(ints(stack_idxs@), old(self)@.acct().stacks.len()),
        ensures
            final(self)@ == old(self)@.sighted(ints(stack_idxs@), at),
            final(self)@.wf(),
            old(self)@.targets_valid() ==> final(self)@.targets_valid(),
    {
        self.account_mut().record_seen(stack_idxs, at);
    }

    /// Snapshot the stacks as they are right now and append to the log.
    pub fn log_action(&mut self, action: Action, stack_idxs: &[usize])
        requires
            old(self)@.wf(),
            below(ints(stack_idxs@), old(self)@.acct().stacks.len()),
        ensures
            exists|at: Timestamp|
                final(self)@ == #[trigger] old(self)@.logged(action, ints(stack_idxs@), at),
            final(self)@.wf(),
            old(self)@.targets_valid() ==> final(self)@.targets_valid(),
    {
        let at = now();
        self.log_action_at(action, stack_idxs, at);
    }

    /// The same, at a given time.
    pub fn log_action_at(&mut self, action: Action, stack_idxs: &[usize], at: Timestamp)
        requires
            old(self)@.wf(),
            below(ints(stack_idxs@), old(self)@.acct().stacks.len()),
        ensures
            final(self)@ == old(self)@.logged(action, ints(stack_idxs@), at),
            final(self)@.wf(),
            old(self)@.targets_valid() ==> final(self)@.targets_valid(),
    {
        let snaps = self.account().snapshots(stack_idxs, at);
        let uids = self.account().uids(stack_idxs);
        let email = self.account().cfg.email.clone();
        self.account_mut().note_acted(&uids);
        self.log.log(email.as_str(), action, snaps.as_slice());
    }

    /// At session end, stacks seen on screen but never acted on are "keep". A
    /// stack containing any acted-on message is not a keep — the user already
    /// made a decision about it, possibly under another grouping.
    pub fn flush_keeps(&mut self)
        ensures
            final(self)@ == (AppV {
                log: old(self)@.keeps_logged(old(self)@.accounts.len() as int),
                ..old(self)@
            }),
    {
        let ghost before = self@;
        let n: usize = self.accounts.len();
        let mut i: usize = 0;
        while i < n
            invariant
                i <= n,
                n == self.accounts@.len(),
                n == before.accounts.len(),
                self@ == (AppV { log: before.keeps_logged(i as int), ..before }),
            decreases n - i,
        {
            assert(before.accounts[i as int] == self.accounts@[i as int]@);
            let keeps = self.accounts[i].keeps();
            let email = self.accounts[i].cfg.email.clone();
            self.log.log(email.as_str(), Action::Keep, keeps.as_slice());
            i += 1;
        }
    }

    /// One chunk of the running sweep landed.
    pub fn on_sweep_progress(&mut self, p: SweepProgress)
        ensures
            final(self)@ == old(self)@.progressed(p),
    {
        let mut alert: Option<Alert> = None;
        std::mem::swap(&mut alert, &mut self.alert);
        self.alert = match alert {
            Some(Alert::Sweeping { starting, .. }) => Some(
                Alert::Sweeping { starting, progress: Some(p) },
            ),
            other => other,
        };
    }

    /// Advance the spinner one frame.
    pub fn tick_spinner(&mut self)
        ensures
            final(self)@ == (AppV {
                spinner: old(self)@.spinner.wrapping_add(1),
                ..old(self)@
            }),
    {
        self.spinner = self.spinner.wrapping_add(1);
    }

    /// Account for messages that just left INBOX: those of these stacks, and
    /// `beyond` more that the window does not hold.
    pub fn prune_window(&mut self, stack_idxs: &[usize], beyond: usize)
        requires
            old(self)@.wf(),
            below(ints(stack_idxs@), old(self)@.acct().stacks.len()),
        ensures
            final(self)@ == old(self)@.with_acct(
                old(self)@.acct().pruned(ints(stack_idxs@), beyond as nat),
            ),
            final(self)@.wf(),
            old(self)@.targets_valid() ==> final(self)@.targets_valid(),
    {
        self.account_mut().prune_window(stack_idxs, beyond);
    }

    /// Take these stacks off the list.
    pub fn remove_stacks(&mut self, stack_idxs: &[usize])
        requires
            old(self)@.wf(),
            below(ints(stack_idxs@), old(self)@.acct().stacks.len()),
        ensures
            final(self)@ == old(self)@.with_acct(old(self)@.acct().removed(ints(stack_idxs@))),
            final(self)@.wf(),
            old(self)@.mode !is Confirm ==> final(self)@.targets_valid(),
    {
        assert(self@.acct().wf());
        self.account_mut().remove_stacks(stack_idxs);
    }

    /// Log what was done to these stacks, and take them off the list.
    fn depart(&mut self, action: Action, stack_idxs: &[usize], beyond: usize, at: Timestamp)
        requires
            old(self)@.wf(),
            below(ints(stack_idxs@), old(self)@.acct().stacks.len()),
        ensures
            final(self)@ == old(self)@.departed(action, ints(stack_idxs@), beyond as nat, at),
            final(self)@.wf(),
    {
        self.log_action_at(action, stack_idxs, at);
        assert(self@.acct().wf());
        self.account_mut().depart(stack_idxs, beyond);
    }

    #[verifier::spinoff_prover]
    fn on_changed(
        &mut self,
        kind: ImapKind,
        stack_idxs: &Vec<usize>,
        n_msgs: usize,
        label: String,
        beyond: usize,
        partial: bool,
        at: Timestamp,
    )
        requires
            old(self)@.wf(),
            below(ints(stack_idxs@), old(self)@.acct().stacks.len()),
            match kind {
                ImapKind::Trash => old(self)@.stats.trashed + n_msgs <= usize::MAX,
                ImapKind::Archive => old(self)@.stats.archived + n_msgs <= usize::MAX,
                ImapKind::Read => old(self)@.stats.marked_read + n_msgs <= usize::MAX,
            },
        ensures
            final(self)@ == old(self)@.changed(
                kind,
                ints(stack_idxs@),
                n_msgs as nat,
                label@,
                beyond as nat,
                partial,
                at,
            ),
            final(self)@.wf(),
            old(self)@.mode !is Confirm ==> final(self)@.targets_valid(),
    {
        self.account_mut().connected = true;
        assert(self@.wf());
        match kind {
            ImapKind::Trash => {
                self.depart(Action::Trash, stack_idxs.as_slice(), beyond, at);
                self.stats.trashed = self.stats.trashed + n_msgs;
            },
            ImapKind::Archive => {
                self.depart(Action::Archive, stack_idxs.as_slice(), beyond, at);
                self.stats.archived = self.stats.archived + n_msgs;
            },
            ImapKind::Read => {
                // snapshot before mutating flags so the log shows the read
                // rate the user actually acted on
                self.log_action_at(Action::Read, stack_idxs.as_slice(), at);
                assert(self@.acct().wf());
                self.account_mut().mark_read(stack_idxs.as_slice());
                self.stats.marked_read = self.stats.marked_read + n_msgs;
            },
        }
        self.status = done_message(kind, n_msgs, label.as_str(), beyond, partial);
    }

    fn on_unsubscribed(
        &mut self,
        stack_idxs: Vec<usize>,
        ok_idxs: &Vec<usize>,
        failed: usize,
        last: String,
        at: Timestamp,
    ) -> (r: Option<Job>)
        requires
            old(self)@.wf(),
            below(ints(ok_idxs@), old(self)@.acct().stacks.len()),
            old(self)@.stats.unsubscribed + ok_idxs@.len() <= usize::MAX,
            ok_idxs@.len() + failed <= usize::MAX,
            ok_idxs@.len() > 0 ==> PendingV::TrashAfterUnsub(ints(stack_idxs@)).fits(
                old(self)@.acct().stacks,
            ),
        ensures
            (final(self)@, opt_job(r)) == old(self)@.unsubscribed(
                ints(stack_idxs@),
                ints(ok_idxs@),
                failed as nat,
                last@,
                at,
            ),
            final(self)@.wf(),
            old(self)@.open_to_questions() ==> final(self)@.targets_valid(),
    {
        let ok: usize = ok_idxs.len();
        let line = unsub_message(stack_idxs.len(), ok, failed, last);
        self.status = line.clone();
        self.outcome = None;
        self.stats.unsubscribed = self.stats.unsubscribed + ok;
        self.log_action_at(Action::Unsub, ok_idxs.as_slice(), at);
        if ok == 0 {
            return None;
        }
        // chain into "also trash?" prompt; where a search comes before it, the
        // outcome stays on screen
        let job = self.ask(PendingAction::TrashAfterUnsub { stack_idxs });
        if job.is_some() {
            self.outcome = Some(line.clone());
        }
        self.status = line;
        job
    }

    fn on_swept(
        &mut self,
        acct_idx: usize,
        connected: bool,
        password: Option<String>,
        kind: Load,
        sweep: Sweep,
        result: Result<(), MailError>,
    )
        requires
            old(self)@.wf(),
            acct_idx < old(self)@.accounts.len(),
            old(self)@.accounts[acct_idx as int].back + sweep@.swept <= usize::MAX,
        ensures
            final(self)@ == old(self)@.window_landed(
                acct_idx as int,
                connected,
                opt_text(password),
                kind,
                sweep@,
            ).sweep_reported(acct_idx as int, sweep@, result),
            final(self)@.wf(),
            old(self)@.mode !is Confirm ==> final(self)@.targets_valid(),
    {
        let (anchored, swept, bound) = (sweep.anchored, sweep.swept, sweep.bound);
        let short = sweep.short();
        self.land_window(acct_idx, connected, password, kind, sweep);
        match result {
            Ok(_) => {
                let line = self.account_summary(acct_idx);
                self.status = line;
            },
            // the stacks that landed stay on screen: a failure halfway through
            // the window is not a reason to throw away the half that worked.
            // `back` stopped where the sweep did, so `m` retries the remainder
            // of this window before it advances.
            Err(e) => {
                let why = e.message();
                if anchored && short {
                    // the count goes in the alert, where it cannot be missed;
                    // the reason stays in the status row, which is still there
                    // once the alert is dismissed
                    let headline = stopped_message(swept, bound);
                    let mut status = text3("sweep ", headline.as_str(), " — press m to retry (");
                    status.append(why.as_str());
                    status.append(")");
                    self.alert = Some(Alert::Failed(headline));
                    self.status = status;
                } else {
                    // a sweep that never anchored has no count to report, so
                    // the alert carries the reason itself
                    let mut status = "error: ".to_owned();
                    status.append(why.as_str());
                    self.alert = Some(Alert::Failed(why));
                    self.status = status;
                }
            },
        }
    }

    fn land_window(
        &mut self,
        acct_idx: usize,
        connected: bool,
        password: Option<String>,
        kind: Load,
        sweep: Sweep,
    )
        requires
            old(self)@.wf(),
            acct_idx < old(self)@.accounts.len(),
            old(self)@.accounts[acct_idx as int].back + sweep@.swept <= usize::MAX,
        ensures
            final(self)@ == old(self)@.window_landed(
                acct_idx as int,
                connected,
                opt_text(password),
                kind,
                sweep@,
            ),
            final(self)@.wf(),
    {
        let ghost held = self.accounts@;
        let (group_by, sort_by) = (self.group_by, self.sort_by);
        assert(self@.accounts[acct_idx as int] == held[acct_idx as int]@);
        assert(self@.accounts[acct_idx as int].wf());
        let filter = self.filter.clone();
        self.accounts[acct_idx].on_swept(
            filter.as_str(),
            group_by,
            sort_by,
            connected,
            password,
            kind,
            sweep,
        );
        proof {
            lemma_views_update(held, acct_idx as int, self.accounts@[acct_idx as int]);
            assert(self.accounts@ =~= held.update(
                acct_idx as int,
                self.accounts@[acct_idx as int],
            ));
        }
    }

    /// What unsubscribing came to, where the action follows it; nobody else
    /// needs it any more.
    fn take_told(&mut self, action: &PendingAction) -> (r: Option<String>)
        ensures
            final(self)@ == (AppV { outcome: None, ..old(self)@ }),
            opt_text(r) == (if action@ is TrashAfterUnsub {
                Some(old(self)@.told())
            } else {
                None
            }),
    {
        let mut outcome: Option<String> = None;
        std::mem::swap(&mut outcome, &mut self.outcome);
        match action {
            PendingAction::TrashAfterUnsub { .. } => match outcome {
                Some(line) => Some(line),
                None => Some(self.status.clone()),
            },
            _ => None,
        }
    }

    fn on_fanned_out(
        &mut self,
        action: PendingAction,
        found: Vec<u32>,
        partial: bool,
        error: Option<MailError>,
    )
        requires
            old(self)@.wf(),
            error is None ==> action@.fits(old(self)@.acct().stacks) && count_at(
                old(self)@.acct().stacks,
                action@.idxs(),
            ) + found@.len() <= usize::MAX,
        ensures
            final(self)@ == old(self)@.fanned_out(action@, found@, partial, error),
            final(self)@.wf(),
            old(self)@.open_to_questions() ==> final(self)@.targets_valid(),
    {
        let told = self.take_told(&action);
        if let Some(e) = error {
            self.account_mut().connected = false;
            let why = e.message();
            self.status = match told {
                Some(line) => text3(line.as_str(), " — error: ", why.as_str()),
                None => {
                    let mut status = "error: ".to_owned();
                    status.append(why.as_str());
                    status
                },
            };
            return;
        }
        self.account_mut().connected = true;
        assert(self@.wf());
        assert(self@.accounts.len() == self.accounts@.len());
        let held = self.account().uids(action.idxs().as_slice());
        let beyond = leave_out(&ascending_uids(found.as_slice()), &held);
        proof {
            lemma_ascending_len(found@);
            lemma_not_in_len(ascending(found@), held@);
        }
        self.status = match told {
            Some(line) => if partial {
                let note = partial_message(beyond.len());
                text3(line.as_str(), " — ", note.as_str())
            } else {
                line
            },
            None => if partial {
                partial_message(beyond.len())
            } else {
                self.account_summary(self.active)
            },
        };
        self.reach = Reach { beyond, partial };
        self.mode = Mode::Confirm(action);
    }

    /// Apply a finished job's outcome.
    pub fn on_task_done(&mut self, done: TaskDone) -> (r: Option<Job>)
        requires
            old(self)@.wf(),
            old(self)@.done_fits(done),
        ensures
            exists|at: Timestamp|
                (final(self)@, opt_job(r)) == #[trigger] old(self)@.finished(done, at),
            final(self)@.wf(),
            old(self)@.mode !is Confirm ==> final(self)@.targets_valid(),
    {
        let at = now();
        self.on_task_done_at(done, at)
    }

    /// Apply a finished job's outcome, at a given time.
    pub fn on_task_done_at(&mut self, done: TaskDone, at: Timestamp) -> (r: Option<Job>)
        requires
            old(self)@.wf(),
            old(self)@.done_fits(done),
        ensures
            (final(self)@, opt_job(r)) == old(self)@.finished(done, at),
            final(self)@.wf(),
            old(self)@.mode !is Confirm ==> final(self)@.targets_valid(),
    {
        self.busy = false;
        self.loading = false;
        self.in_flight = false;
        self.searching = false;
        // whatever raised it is over; a failed sweep puts its own back up below
        self.alert = None;
        match done {
            TaskDone::Imap { kind, stack_idxs, n_msgs, label, beyond, partial, result } => {
                match result {
                    Ok(_) => {
                        self.on_changed(kind, &stack_idxs, n_msgs, label, beyond, partial, at);
                    },
                    Err(e) => {
                        // session state unknown after failure/timeout: drop
                        // the session so the next R reconnects fresh
                        self.account_mut().connected = false;
                        let why = e.message();
                        let mut status = "error: ".to_owned();
                        status.append(why.as_str());
                        self.status = status;
                    },
                }
                None
            },
            TaskDone::Unsub { stack_idxs, ok_idxs, failed, last } => {
                self.on_unsubscribed(stack_idxs, &ok_idxs, failed, last, at)
            },
            TaskDone::Swept { acct_idx, connected, password, kind, sweep, result } => {
                self.on_swept(acct_idx, connected, password, kind, sweep, result);
                None
            },
            TaskDone::FannedOut { action, found, partial, error } => {
                self.on_fanned_out(action, found, partial, error);
                None
            },
        }
    }
}

/// Is this a key that neither mutates nor reorders stacks?
fn is_harmless(key: KeyEvent) -> (r: bool)
    ensures
        r == AppV::harmless(key),
{
    match key.code {
        KeyCode::Char('j') | KeyCode::Char('k') | KeyCode::Char('G') | KeyCode::Char('?') => true,
        KeyCode::Down | KeyCode::Up | KeyCode::Home | KeyCode::End | KeyCode::Esc => true,
        _ => is_quit(key),
    }
}

proof fn lemma_offering(stacks: Seq<StackV>, idxs: Seq<int>)
    requires
        below(idxs, stacks.len()),
        rising(idxs),
        sources_readable(stacks, idxs),
    ensures
        below(offering(stacks, idxs), stacks.len()),
        rising(offering(stacks, idxs)),
        sources_readable(stacks, offering(stacks, idxs)),
        forall|k: int|
            0 <= k < offering(stacks, idxs).len() ==> idxs.contains(
                #[trigger] offering(stacks, idxs)[k],
            ),
    decreases idxs.len(),
{
    if idxs.len() > 0 {
        let front = idxs.drop_last();
        let kept = offering(stacks, front);
        let all = offering(stacks, idxs);
        let n = idxs.len() - 1;
        assert(below(front, stacks.len())) by {
            assert forall|k: int| 0 <= k < front.len() implies 0 <= #[trigger] front[k]
                < stacks.len() by {
                assert(front[k] == idxs[k]);
            }
        }
        assert(rising(front)) by {
            assert forall|j: int, k: int| 0 <= j < k < front.len() implies #[trigger] front[j]
                < #[trigger] front[k] by {
                assert(front[j] == idxs[j] && front[k] == idxs[k]);
            }
        }
        assert(sources_readable(stacks, front)) by {
            assert forall|k: int| 0 <= k < front.len() implies source_readable(
                stacks[#[trigger] front[k]],
            ) by {
                assert(front[k] == idxs[k]);
            }
        }
        lemma_offering(stacks, front);
        assert(source_readable(stacks[idxs[n]]));
        assert forall|k: int| 0 <= k < all.len() implies idxs.contains(#[trigger] all[k]) by {
            if k < kept.len() {
                assert(all[k] == kept[k]);
                assert(front.contains(kept[k]));
                let j = choose|j: int| 0 <= j < front.len() && front[j] == kept[k];
                assert(idxs[j] == all[k]);
            } else {
                assert(idxs[n] == all[k]);
            }
        }
        assert forall|j: int, k: int| 0 <= j < k < all.len() implies #[trigger] all[j]
            < #[trigger] all[k] by {
            if k == kept.len() {
                assert(all[j] == kept[j]);
                assert(front.contains(kept[j]));
                let q = choose|q: int| 0 <= q < front.len() && front[q] == kept[j];
                assert(idxs[q] < idxs[n]);
            }
        }
        assert forall|k: int| 0 <= k < all.len() implies source_readable(
            stacks[#[trigger] all[k]],
        ) by {
            assert(idxs.contains(all[k]));
            let j = choose|j: int| 0 <= j < idxs.len() && idxs[j] == all[k];
            assert(source_readable(stacks[idxs[j]]));
        }
    }
}

fn partial_message(beyond: usize) -> (r: String)
    ensures
        r@ == partial_note(beyond as nat),
{
    if beyond == 0 {
        "search refused, only the mail in view".to_owned()
    } else {
        "search cut short, only part of the mail".to_owned()
    }
}

fn done_message(kind: ImapKind, n: usize, label: &str, beyond: usize, partial: bool) -> (r: String)
    ensures
        r@ == done_line(kind, n as nat, label@, beyond as nat, partial),
{
    let count = number(n);
    let mut out = match kind {
        ImapKind::Trash => {
            let mut out = text3("trashed ", count.as_str(), " messages from ");
            out.append(label);
            out
        },
        ImapKind::Archive => {
            let mut out = text3("archived ", count.as_str(), " messages from ");
            out.append(label);
            out
        },
        ImapKind::Read => {
            let mut out = text3("marked ", count.as_str(), " messages read (");
            out.append(label);
            out.append(")");
            out
        },
    };
    if partial {
        let note = partial_message(beyond);
        out.append(" — ");
        out.append(note.as_str());
    }
    out
}

fn unsub_message(stacks: usize, ok: usize, failed: usize, last: String) -> (r: String)
    requires
        ok + failed <= usize::MAX,
    ensures
        r@ == unsub_line(stacks as nat, ok as nat, failed as nat, last@),
{
    if stacks == 1 {
        last
    } else if failed == 0 {
        let n = number(ok);
        text3("unsubscribed from ", n.as_str(), " stacks")
    } else {
        let n = number(ok);
        let total = number(ok + failed);
        let mut out = text3("unsubscribed ", n.as_str(), "/");
        out.append(total.as_str());
        out.append(" stacks (last: ");
        out.append(last.as_str());
        out.append(")");
        out
    }
}

fn stopped_message(swept: usize, bound: usize) -> (r: String)
    ensures
        r@ == "stopped at "@ + grouped(swept as nat) + " of "@ + grouped(bound as nat),
{
    let a = commas(swept);
    let b = commas(bound);
    let mut out = text3("stopped at ", a.as_str(), " of ");
    out.append(b.as_str());
    out
}

/// The numbers that are not in `held`.
fn leave_out(s: &Vec<u32>, held: &Vec<u32>) -> (r: Vec<u32>)
    ensures
        r@ == not_in(s@, held@),
{
    broadcast use vstd::std_specs::hash::group_hash_axioms;

    let mut set: HashSet<u32> = HashSet::new();
    let mut i: usize = 0;
    while i < held.len()
        invariant
            i <= held@.len(),
            forall|u: u32| set@.contains(u) <==> held@.take(i as int).contains(u),
        decreases held@.len() - i,
    {
        set.insert(held[i]);
        let ghost was = held@.take(i as int);
        let ghost is = held@.take(i + 1);
        assert(is =~= was.push(held@[i as int]));
        assert forall|u: u32| is.contains(u) <==> was.contains(u) || u == held@[i as int] by {
            if was.contains(u) {
                let k = choose|k: int| 0 <= k < was.len() && was[k] == u;
                assert(is[k] == u);
            }
            assert(is[i as int] == held@[i as int]);
        }
        i += 1;
    }
    assert(held@.take(i as int) =~= held@);
    let mut out: Vec<u32> = Vec::new();
    let mut k: usize = 0;
    assert(s@.take(0) =~= Seq::<u32>::empty());
    while k < s.len()
        invariant
            k <= s@.len(),
            forall|u: u32| set@.contains(u) <==> held@.contains(u),
            out@ == not_in(s@.take(k as int), held@),
        decreases s@.len() - k,
    {
        assert(s@.take(k + 1).drop_last() =~= s@.take(k as int));
        assert(s@.take(k + 1).last() == s@[k as int]);
        if !set.contains(&s[k]) {
            out.push(s[k]);
        }
        k += 1;
    }
    assert(s@.take(k as int) =~= s@);
    out
}

proof fn lemma_not_in_len(s: Seq<u32>, held: Seq<u32>)
    ensures
        not_in(s, held).len() <= s.len(),
    decreases s.len(),
{
    if s.len() > 0 {
        lemma_not_in_len(s.drop_last(), held);
    }
}

proof fn lemma_ascending_len(s: Seq<u32>)
    ensures
        ascending(s).len() <= s.len(),
{
    sorting_orders_and_permutes::<u32, Ascending>(s);
    lemma_each_once_len(sorted::<u32, Ascending>(s));
}

proof fn lemma_each_once_len(s: Seq<u32>)
    ensures
        each_once(s).len() <= s.len(),
    decreases s.len(),
{
    if s.len() > 0 {
        lemma_each_once_len(s.drop_last());
    }
}

} // verus!
