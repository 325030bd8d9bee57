//! What each key does, and what becomes of a finished job.
use crate::action_log::{Action, ActionLogV};
use crate::clock::Timestamp;
use crate::config::AccountConfigV;
use crate::imap_client::{MailError, SweepV};
use crate::stacks::{
    all_messages, opt_text, sorting_stacks_keeps_messages, stacks_from, stacks_hold_every_message,
    stacks_sorted, unsubscribe_at, GroupBy, MsgV, SortBy, StackV,
};
use crate::text::{
    begins, decimal, grouped, occurs, to_begin_is_to_go_on, to_occur_is_to_stand_somewhere,
};
use crate::ui::account::{lemma_targets, saw_all, snapshots_at, uids_at, without, AccountV};
use crate::ui::app::{
    all_in, app_started, done_line, kind_verb, offering, partial_note, row_keys, stopped_at,
    summary, unsub_line, AlertV, AppV, ModeV, ReachV,
};
use crate::ui::jobs::{
    source_readable, stack_method, ImapKind, JobV, Load, PendingV, TaskDone,
};
use crate::ui::keys::{Event, KeyCode, KeyEvent, KeyEventKind, KeyModifiers};
use crate::ui::laws::a_marks_or_unmarks_everything_in_view;
use crate::unsubscribe::a_plain_header_can_be_read;
use vstd::prelude::*;
use vstd::utf8::is_ascii_chars;

verus! {

/// The app is in the list, and nothing is in flight.
pub open spec fn at_rest(app: AppV) -> bool {
    app.wf() && !app.busy
}

// ---------------------------------------------------------------------------
// moving about
// ---------------------------------------------------------------------------

/// `j` and Down go one row down, `k` and Up one row up, Home to the first and
/// End and `G` to the last; nothing else changes and nothing is started.
pub proof fn keys_move_the_cursor(app: AppV, key: KeyEvent)
    requires
        app.wf(),
        app.acct().stacks.len() <= usize::MAX,
        app.acct().visible(app.filter).len() <= app.acct().stacks.len(),
        app.acct().selected < app.acct().visible(app.filter).len(),
    ensures
        ({
            let (after, job) = app.normal(key);
            let rows = app.acct().visible(app.filter).len();
            let (was, got) = (app.acct().selected, after.acct().selected);
            let down = key.code == KeyCode::Char('j') || key.code == KeyCode::Down;
            let up = key.code == KeyCode::Char('k') || key.code == KeyCode::Up;
            let last = key.code == KeyCode::End || key.code == KeyCode::Char('G');
            &&& down && was + 1 < rows ==> got == was + 1
            &&& down && was + 1 == rows ==> got == was
            &&& up && was > 0 ==> got == was - 1
            &&& up && was == 0 ==> got == 0
            &&& key.code == KeyCode::Home ==> got == 0
            &&& last ==> got == rows - 1
            &&& down || up || last || key.code == KeyCode::Home ==> {
                &&& job is None
                &&& after == app.with_acct(AccountV { selected: got, ..app.acct() })
            }
        }),
{
}

/// Space marks the row under the cursor, or takes its mark off, and goes on to
/// the next row; no other mark changes.
pub proof fn space_marks_one_row(app: AppV, key: KeyEvent)
    requires
        at_rest(app),
        key.code == KeyCode::Char(' '),
        app.acct().selected < app.acct().visible(app.filter).len(),
    ensures
        ({
            let (after, job) = app.normal(key);
            let rows = app.acct().visible(app.filter);
            let own = app.acct().stacks[rows[app.acct().selected as int]].key;
            &&& job is None
            &&& forall|k: Seq<char>| #[trigger]
                after.acct().marked.contains(k) <==> (if k == own {
                    !app.acct().marked.contains(k)
                } else {
                    app.acct().marked.contains(k)
                })
            &&& app.acct().selected + 1 < rows.len() ==> after.acct().selected
                == app.acct().selected + 1
            &&& after.acct().stacks == app.acct().stacks
        }),
{
}

/// The keys of rows are those of the stacks they show.
pub proof fn rows_have_the_keys_of_their_stacks(stacks: Seq<StackV>, rows: Seq<int>, i: int)
    requires
        0 <= i < rows.len(),
    ensures
        row_keys(stacks, rows).len() == rows.len(),
        row_keys(stacks, rows)[i] == stacks[rows[i]].key,
{
}

/// Esc takes the marks off first, then the filter; with neither it does
/// nothing.
pub proof fn esc_takes_the_marks_off_first(app: AppV, key: KeyEvent)
    requires
        app.wf(),
        key.code == KeyCode::Esc,
    ensures
        ({
            let (after, job) = app.normal(key);
            let marked = exists|k: Seq<char>| app.acct().marked.contains(k);
            &&& job is None
            &&& marked ==> after.filter == app.filter && forall|k: Seq<char>|
                !after.acct().marked.contains(k)
            &&& !marked && app.filter.len() > 0 ==> after.filter.len() == 0
                && after.acct().selected == 0
            &&& !marked && app.filter.len() == 0 ==> after == app
            &&& after.acct().stacks == app.acct().stacks
        }),
{
    if exists|k: Seq<char>| app.acct().marked.contains(k) {
        let k = choose|k: Seq<char>| app.acct().marked.contains(k);
        assert(!app.acct().marked.is_empty());
    } else {
        assert(app.acct().marked =~= Set::empty());
    }
}

/// `/` opens an empty filter and `?` the help; what is typed into the filter
/// is appended, Backspace takes the last character off, Enter keeps the filter
/// and Esc drops it.
pub proof fn the_filter_is_what_was_typed(app: AppV, key: KeyEvent)
    requires
        at_rest(app),
    ensures
        key.code == KeyCode::Char('/') ==> app.normal(key).0.mode is Filter && app.normal(
            key,
        ).0.filter.len() == 0 && app.normal(key).1 is None,
        key.code == KeyCode::Char('?') ==> app.normal(key).0.mode is Help && app.normal(
            key,
        ).0.filter == app.filter && app.normal(key).1 is None,
        key.code matches KeyCode::Char(c) ==> app.filtering(key).filter == app.filter.push(c)
            && app.filtering(key).mode == app.mode && app.filtering(key).acct().selected == 0,
        key.code == KeyCode::Backspace && app.filter.len() > 0 ==> app.filtering(key).filter
            == app.filter.take(app.filter.len() - 1) && app.filtering(key).mode == app.mode,
        key.code == KeyCode::Enter ==> app.filtering(key).filter == app.filter && app.filtering(
            key,
        ).mode is Normal,
        key.code == KeyCode::Esc ==> app.filtering(key).filter.len() == 0 && app.filtering(
            key,
        ).mode is Normal,
{
    if app.filter.len() > 0 {
        assert(app.filter.drop_last() =~= app.filter.take(app.filter.len() - 1));
    }
}

// ---------------------------------------------------------------------------
// acting
// ---------------------------------------------------------------------------

/// `d` is about trashing the targets, `e` about archiving them, and where no
/// search comes first each asks; without a target neither does anything.
pub proof fn d_trashes_and_e_archives(app: AppV, key: KeyEvent)
    requires
        at_rest(app),
        key.code == KeyCode::Char('d') || key.code == KeyCode::Char('e'),
    ensures
        ({
            let (after, job) = app.normal(key);
            let targets = app.acct().targets(app.filter);
            let action = if key.code == KeyCode::Char('d') {
                PendingV::Trash(targets)
            } else {
                PendingV::Archive(targets)
            };
            let search = app.acct().connected && app.group_by == GroupBy::Sender;
            &&& targets.len() == 0 ==> after == app && job is None
            &&& targets.len() > 0 && !search ==> after.mode == ModeV::Confirm(action) && job is None
                && after.reach.beyond.len() == 0 && !after.reach.partial
            &&& targets.len() > 0 && search ==> {
                &&& job matches Some(JobV::FanOut { action: a, senders }) && a == action
                    && senders.len() == targets.len() && forall|k: int|
                    0 <= k < targets.len() ==> #[trigger] senders[k]
                        == app.acct().stacks[targets[k]].msgs[0].sender_email
                &&& after.busy && after.in_flight && after.searching
                &&& !after.acct().connected
            }
        }),
{
}

/// `u` asks about those of the targets that offer a way to unsubscribe, in
/// their order; where none does it says so.
pub proof fn u_asks_about_what_can_be_left(app: AppV, key: KeyEvent)
    requires
        at_rest(app),
        key.code == KeyCode::Char('u'),
    ensures
        ({
            let (after, job) = app.normal(key);
            let stacks = app.acct().stacks;
            let offered = app.acct().targets(app.filter).filter(
                |i: int| stack_method(stacks[i]) is Some,
            );
            &&& job is None
            &&& offered.len() > 0 ==> after.mode == ModeV::Confirm(PendingV::Unsubscribe(offered))
            &&& offered.len() == 0 ==> after.mode == app.mode && after.status
                == "no List-Unsubscribe header in selection"@
        }),
{
    lemma_offering(app.acct().stacks, app.acct().targets(app.filter));
}

proof fn lemma_offering(stacks: Seq<StackV>, idxs: Seq<int>)
    ensures
        offering(stacks, idxs) == idxs.filter(|i: int| stack_method(stacks[i]) is Some),
    decreases idxs.len(),
{
    reveal(Seq::filter);
    if idxs.len() > 0 {
        lemma_offering(stacks, idxs.drop_last());
    }
}

/// `y` to unsubscribing hands out, for every stack that was asked about, its
/// name and its way to unsubscribe, with the account and its password.
pub proof fn unsubscribing_goes_to_every_stack(app: AppV, key: KeyEvent, idxs: Seq<int>)
    requires
        app.wf(),
        app.mode == ModeV::Confirm(PendingV::Unsubscribe(idxs)),
        key.code == KeyCode::Char('y') || key.code == KeyCode::Char('Y'),
    ensures
        app.confirm(key).1 matches Some(JobV::Unsub { account, password, jobs, idxs: about }) && {
            &&& account == app.acct().cfg
            &&& app.acct().password matches Some(p) ==> password == p
            &&& about == idxs
            &&& jobs.len() == idxs.len()
            &&& forall|k: int|
                0 <= k < idxs.len() ==> (#[trigger] jobs[k]).idx == idxs[k] && jobs[k].name
                    == app.acct().stacks[idxs[k]].display_name && jobs[k].method == stack_method(
                    app.acct().stacks[idxs[k]],
                )
        },
        app.confirm(key).0.busy && app.confirm(key).0.in_flight,
{
}

/// A question that is not answered with `y` or `Y` is dropped, and with it the
/// action: nothing is started, no stack changes and the session stays.
pub proof fn anything_but_yes_is_no(app: AppV, key: KeyEvent)
    requires
        app.wf(),
        app.mode is Confirm,
        key.code != KeyCode::Char('y'),
        key.code != KeyCode::Char('Y'),
    ensures
        app.confirm(key).1 is None,
        app.confirm(key).0.mode is Normal,
        app.confirm(key).0.accounts == app.accounts,
        app.confirm(key).0.log == app.log,
        app.confirm(key).0.stats == app.stats,
        app.confirm(key).0.status == "cancelled"@,
{
}

/// An action without a session is not started: the user is told to reconnect.
pub proof fn nothing_moves_without_a_session(app: AppV, key: KeyEvent, action: PendingV)
    requires
        app.wf(),
        app.mode == ModeV::Confirm(action),
        !(action is Unsubscribe),
        !app.acct().connected,
        key.code == KeyCode::Char('y') || key.code == KeyCode::Char('Y'),
    ensures
        app.confirm(key).1 is None,
        app.confirm(key).0.accounts == app.accounts,
        app.confirm(key).0.busy == app.busy,
        app.confirm(key).0.status == "not connected — press R to reconnect"@,
{
}

/// `s` sorts by the other order, in every account, and `g` groups in the other
/// way, in every account that was read; no message is lost or added by either.
pub proof fn sorting_and_grouping_keep_the_mail(app: AppV, key: KeyEvent, i: int)
    requires
        at_rest(app),
        0 <= i < app.accounts.len(),
        key.code == KeyCode::Char('s') || key.code == KeyCode::Char('g'),
    ensures
        ({
            let (after, job) = app.normal(key);
            &&& job is None
            &&& after.accounts.len() == app.accounts.len()
            &&& all_messages(after.accounts[i].stacks).to_multiset() == all_messages(
                app.accounts[i].stacks,
            ).to_multiset()
            &&& key.code == KeyCode::Char('s') ==> after.sort_by != app.sort_by && after.group_by
                == app.group_by && after.accounts[i].stacks.to_multiset()
                == app.accounts[i].stacks.to_multiset()
            &&& key.code == KeyCode::Char('g') ==> after.group_by != app.group_by && after.sort_by
                == app.sort_by
            &&& key.code == KeyCode::Char('s') ==> after.accounts[i].stacks == stacks_sorted(
                app.accounts[i].stacks,
                after.sort_by,
            )
            &&& key.code == KeyCode::Char('g') && app.accounts[i].loaded
                ==> after.accounts[i].stacks == stacks_from(
                all_messages(app.accounts[i].stacks),
                after.group_by,
                after.sort_by,
            )
            &&& key.code == KeyCode::Char('g') && !app.accounts[i].loaded ==> after.accounts[i]
                == app.accounts[i]
            &&& after.accounts[i].acted == app.accounts[i].acted
        }),
{
    let a = app.accounts[i];
    if key.code == KeyCode::Char('s') {
        sorting_stacks_keeps_messages(a.stacks, app.sort_by.other());
    } else {
        stacks_hold_every_message(all_messages(a.stacks), app.group_by.other(), app.sort_by);
    }
}

/// Tab goes to the next account, and from the last to the first; the filter
/// does not go along. An account that was not read yet is read.
pub proof fn tab_goes_round_the_accounts(app: AppV, key: KeyEvent)
    requires
        at_rest(app),
        key.code == KeyCode::Tab,
    ensures
        ({
            let (after, job) = app.normal(key);
            let next = if app.active + 1 < app.accounts.len() {
                app.active + 1
            } else {
                0
            };
            &&& after.active == next
            &&& after.filter.len() == 0
            &&& app.accounts[next].loaded ==> job is None && after.accounts == app.accounts
                && after.status == summary(app.accounts[next])
            &&& !app.accounts[next].loaded ==> (job matches Some(JobV::Sweep { acct, back, kind, .. })
                && acct == next && back == 0 && kind == Load::Reset) && after.loading
        }),
{
    let n = app.accounts.len() as int;
    if app.active + 1 < n {
        assert((app.active + 1) % n == app.active + 1) by (nonlinear_arith)
            requires
                0 <= app.active,
                app.active + 1 < n,
        ;
    } else {
        assert(app.active + 1 == n);
        assert(n % n == 0) by (nonlinear_arith)
            requires
                n > 0,
        ;
    }
}

/// `R` throws the window away and sweeps from the newest message again; `m`
/// keeps it and sweeps behind it, unless it reaches the oldest message already.
/// The sweep is of the active account, with its own session and password.
pub proof fn r_starts_over_and_m_goes_on(app: AppV, key: KeyEvent)
    requires
        at_rest(app),
        key.code == KeyCode::Char('R') || key.code == KeyCode::Char('m'),
    ensures
        ({
            let (after, job) = app.normal(key);
            let (was, got) = (app.acct(), after.acct());
            let over = key.code == KeyCode::Char('m') && was.loaded && was.reached_end;
            let fresh = key.code == KeyCode::Char('R') || !was.loaded;
            &&& over ==> job is None && after.accounts == app.accounts && !after.busy
            &&& !over ==> {
                &&& job matches Some(
                    JobV::Sweep { acct, account, password, connected, back, kind },
                ) && acct == app.active && account == was.cfg && password == was.password
                    && connected == was.connected && (fresh ==> back == 0 && kind == Load::Reset)
                    && (!fresh ==> back == was.back && kind == Load::More)
                &&& after.busy && after.loading && after.in_flight
                &&& after.alert matches Some(AlertV::Sweeping { .. })
                &&& fresh ==> got.stacks.len() == 0 && got.back == 0 && !got.loaded && got.seen
                    == was.seen && got.acted == was.acted && got.password == was.password
                &&& !fresh ==> got == (AccountV { connected: false, ..was })
                &&& !got.connected
            }
        }),
{
}

/// A key that acts while a job is in flight is refused, and said to be.
pub proof fn a_busy_app_says_so(app: AppV, key: KeyEvent)
    requires
        app.wf(),
        app.busy,
        key.code == KeyCode::Char('d') || key.code == KeyCode::Char('e') || key.code
            == KeyCode::Char('r') || key.code == KeyCode::Char('u') || key.code == KeyCode::Char('s')
            || key.code == KeyCode::Char('g') || key.code == KeyCode::Char('m') || key.code
            == KeyCode::Char('R') || key.code == KeyCode::Char(' ') || key.code == KeyCode::Char('a')
            || key.code == KeyCode::Char('/') || key.code == KeyCode::Tab,
    ensures
        app.normal(key).1 is None,
        app.normal(key).0 == (AppV {
            status: "busy — wait for the current action to finish"@,
            ..app
        }),
{
}

// ---------------------------------------------------------------------------
// finished jobs
// ---------------------------------------------------------------------------

/// A change that worked is counted, with the number that moved, under what it
/// was and nothing else; its stacks are logged as decided on, and their
/// messages will not be kept. Trashed and archived stacks leave the list, read
/// ones stay; the session is free again.
pub proof fn a_change_that_worked_is_counted(
    app: AppV,
    kind: ImapKind,
    idxs: Seq<int>,
    n: nat,
    label: Seq<char>,
    beyond: nat,
    partial: bool,
    now: Timestamp,
)
    requires
        app.wf(),
    ensures
        ({
            let after = app.changed(kind, idxs, n, label, beyond, partial, now);
            let (was, got) = (app.acct(), after.acct());
            let action = match kind {
                ImapKind::Trash => Action::Trash,
                ImapKind::Archive => Action::Archive,
                ImapKind::Read => Action::Read,
            };
            &&& after.stats.trashed - app.stats.trashed == (if kind == ImapKind::Trash {
                n as int
            } else {
                0
            })
            &&& after.stats.archived - app.stats.archived == (if kind == ImapKind::Archive {
                n as int
            } else {
                0
            })
            &&& after.stats.marked_read - app.stats.marked_read == (if kind == ImapKind::Read {
                n as int
            } else {
                0
            })
            &&& after.stats.unsubscribed == app.stats.unsubscribed
            &&& got.connected
            &&& forall|k: Seq<char>| !got.marked.contains(k)
            &&& forall|u: u32| #[trigger]
                got.acted.contains(u) <==> was.acted.contains(u) || uids_at(
                    was.stacks,
                    idxs,
                ).contains(u)
            &&& after.log == app.log.logged(
                was.cfg.email,
                action,
                snapshots_at(was.stacks, idxs, now),
            )
            &&& kind != ImapKind::Read ==> got.stacks == without(was.stacks, idxs)
            &&& kind == ImapKind::Read ==> got.stacks.len() == was.stacks.len() && got.total
                == was.total && got.back == was.back
        }),
{
    let held = uids_at(app.acct().stacks, idxs);
    let after = app.changed(kind, idxs, n, label, beyond, partial, now);
    assert forall|u: u32| #[trigger] after.acct().acted.contains(u) <==> app.acct().acted.contains(u)
        || held.contains(u) by {
        assert(held.to_set().contains(u) <==> held.contains(u));
    }
}

/// A change that failed changes nothing but the session, which is gone: no
/// stack leaves the list and nothing is counted or logged. The error is told.
pub proof fn a_change_that_failed_is_told(app: AppV, done: TaskDone, now: Timestamp)
    requires
        app.wf(),
        done matches TaskDone::Imap { result, .. } && result is Err,
    ensures
        ({
            let (after, job) = app.finished(done, now);
            &&& job is None
            &&& !after.acct().connected
            &&& after.acct() == (AccountV { connected: false, ..app.acct() })
            &&& after.stats == app.stats
            &&& after.log == app.log
            &&& !after.busy
            &&& done matches TaskDone::Imap { result: Err(e), .. } && after.status == "error: "@
                + e.text()
        }),
{
}

/// Unsubscribing counts and logs the stacks that worked, and only those. Where
/// one did, the question whether to trash what was asked about comes next.
pub proof fn unsubscribing_counts_what_worked(
    app: AppV,
    idxs: Seq<int>,
    ok: Seq<int>,
    failed: nat,
    last: Seq<char>,
    now: Timestamp,
)
    requires
        app.wf(),
    ensures
        ({
            let (after, job) = app.unsubscribed(idxs, ok, failed, last, now);
            let was = app.acct();
            &&& after.stats.unsubscribed == app.stats.unsubscribed + ok.len()
            &&& after.stats.trashed == app.stats.trashed && after.stats.archived
                == app.stats.archived
            &&& after.log == app.log.logged(
                was.cfg.email,
                Action::Unsub,
                snapshots_at(was.stacks, ok, now),
            )
            &&& after.acct().stacks == was.stacks
            &&& forall|u: u32| #[trigger]
                after.acct().acted.contains(u) <==> was.acted.contains(u) || uids_at(
                    was.stacks,
                    ok,
                ).contains(u)
            &&& ok.len() == 0 ==> job is None && after.mode == app.mode
            &&& ok.len() > 0 && job is None ==> after.mode == ModeV::Confirm(
                PendingV::TrashAfterUnsub(idxs),
            )
            &&& ok.len() > 0 && job is Some ==> (job matches Some(JobV::FanOut { action, .. })
                && action == PendingV::TrashAfterUnsub(idxs))
        }),
{
    let held = uids_at(app.acct().stacks, ok);
    let (after, job) = app.unsubscribed(idxs, ok, failed, last, now);
    assert forall|u: u32| #[trigger] after.acct().acted.contains(u) <==> app.acct().acted.contains(u)
        || held.contains(u) by {
        assert(held.to_set().contains(u) <==> held.contains(u));
    }
}

/// The keeps of every account are logged under its own address, account after
/// account.
pub proof fn keeps_are_logged_account_by_account(app: AppV, n: int)
    requires
        0 <= n < app.accounts.len(),
    ensures
        app.keeps_logged(0) == app.log,
        app.keeps_logged(n + 1) == app.keeps_logged(n).logged(
            app.accounts[n].cfg.email,
            Action::Keep,
            app.accounts[n].keeps(),
        ),
{
}

/// Once a job is off the books, nothing waits for it: no alert, no spinner.
pub proof fn an_idle_app_waits_for_nothing(app: AppV)
    ensures
        ({
            let after = app.idle();
            &&& !after.busy && !after.loading && !after.in_flight && !after.searching
            &&& after.alert is None
            &&& after.accounts == app.accounts && after.mode == app.mode && after.status
                == app.status && after.stats == app.stats && after.log == app.log
        }),
{
}

// ---------------------------------------------------------------------------
// what is said
// ---------------------------------------------------------------------------

/// The summary of an account names it, and states how many messages are in
/// view, how many there are and in how many stacks.
pub proof fn a_summary_states_the_counts(a: AccountV)
    ensures
        begins(
            summary(a),
            a.cfg.email + ": "@ + grouped(all_messages(a.stacks).len()) + " of "@ + grouped(a.total)
                + " messages in "@ + decimal(a.stacks.len()),
        ),
{
    let p = a.cfg.email + ": "@ + grouped(all_messages(a.stacks).len()) + " of "@ + grouped(a.total)
        + " messages in "@ + decimal(a.stacks.len());
    to_begin_is_to_go_on(summary(a), p);
}

/// What was done is said with the number that moved and whose it was; where the
/// search was refused that is said too, and only there.
pub proof fn what_was_done_is_said(
    kind: ImapKind,
    n: nat,
    label: Seq<char>,
    beyond: nat,
    partial: bool,
)
    ensures
        ({
            let line = done_line(kind, n, label, beyond, partial);
            let whole = done_line(kind, n, label, beyond, false);
            &&& kind == ImapKind::Trash ==> whole == "trashed "@ + decimal(n) + " messages from "@
                + label
            &&& kind == ImapKind::Archive ==> whole == "archived "@ + decimal(n)
                + " messages from "@ + label
            &&& kind == ImapKind::Read ==> begins(
                whole,
                "marked "@ + decimal(n) + " messages read ("@ + label,
            )
            &&& begins(line, whole)
            &&& partial ==> occurs(line, partial_note(beyond))
            &&& !partial ==> line == whole
        }),
        partial_note(0) == "search refused, only the mail in view"@,
        beyond > 0 ==> partial_note(beyond) == "search cut short, only part of the mail"@,
{
    let line = done_line(kind, n, label, beyond, partial);
    let whole = done_line(kind, n, label, beyond, false);
    let none = Seq::<char>::empty();
    to_begin_is_to_go_on(whole, "marked "@ + decimal(n) + " messages read ("@ + label);
    to_begin_is_to_go_on(line, whole);
    if partial {
        assert(line =~= whole + (" — "@ + partial_note(beyond)));
        assert(line =~= whole + " — "@ + partial_note(beyond) + none);
        to_occur_is_to_stand_somewhere(line, partial_note(beyond));
    } else {
        assert(line =~= whole + none);
    }
}

/// Of one stack the user is told what came of it; of several, how many worked,
/// out of how many where some did not.
pub proof fn an_unsubscribe_is_told_by_its_counts(
    stacks: nat,
    ok: nat,
    failed: nat,
    last: Seq<char>,
)
    ensures
        stacks == 1 ==> unsub_line(stacks, ok, failed, last) == last,
        stacks != 1 && failed == 0 ==> begins(
            unsub_line(stacks, ok, failed, last),
            "unsubscribed from "@ + decimal(ok),
        ),
        stacks != 1 && failed > 0 ==> begins(
            unsub_line(stacks, ok, failed, last),
            "unsubscribed "@ + decimal(ok) + "/"@ + decimal(ok + failed),
        ) && occurs(unsub_line(stacks, ok, failed, last), last),
{
    let line = unsub_line(stacks, ok, failed, last);
    to_begin_is_to_go_on(line, "unsubscribed from "@ + decimal(ok));
    let p = "unsubscribed "@ + decimal(ok) + "/"@ + decimal(ok + failed);
    to_begin_is_to_go_on(line, p);
    to_occur_is_to_stand_somewhere(line, last);
    if stacks != 1 && failed > 0 {
        assert(line =~= p + (" stacks (last: "@ + last + ")"@));
    }
}

/// A sweep that stopped short says how far it got, out of how much, in the
/// alert as in the status, and there why; one that never began says why.
pub proof fn a_stopped_sweep_says_how_far_it_got(app: AppV, i: int, sweep: SweepV, e: MailError)
    requires
        0 <= i < app.accounts.len(),
    ensures
        stopped_at(sweep) == "stopped at "@ + grouped(sweep.swept) + " of "@ + grouped(sweep.bound),
        ({
            let after = app.sweep_reported(i, sweep, Err(e));
            &&& after.accounts == app.accounts
            &&& sweep.anchored && sweep.swept < sweep.bound ==> after.alert == Some(
                AlertV::Failed(stopped_at(sweep)),
            ) && occurs(after.status, stopped_at(sweep)) && occurs(after.status, e.text())
            &&& !(sweep.anchored && sweep.swept < sweep.bound) ==> after.alert == Some(
                AlertV::Failed(e.text()),
            ) && occurs(after.status, e.text())
        }),
        app.sweep_reported(i, sweep, Ok(())).status == summary(app.accounts[i]),
        app.sweep_reported(i, sweep, Ok(())).alert == app.alert,
{
    let after = app.sweep_reported(i, sweep, Err(e));
    let none = Seq::<char>::empty();
    let s = stopped_at(sweep);
    to_occur_is_to_stand_somewhere(after.status, s);
    to_occur_is_to_stand_somewhere(after.status, e.text());
    if sweep.anchored && sweep.swept < sweep.bound {
        assert(after.status =~= "sweep "@ + s + (" — press m to retry ("@ + e.text() + ")"@));
    } else {
        assert(after.status =~= "error: "@ + e.text() + none);
    }
}

// ---------------------------------------------------------------------------
// events
// ---------------------------------------------------------------------------

/// A key that is pressed goes to what is on screen: the list, the question, the
/// filter or the help. A key that is let go and anything that is no key do
/// nothing.
pub proof fn a_key_goes_to_what_is_on_screen(app: AppV, key: KeyEvent)
    ensures
        app.event(Event::Other) == (app, None::<JobV>),
        key.kind != KeyEventKind::Press ==> app.event(Event::Key(key)) == (app, None::<JobV>),
        key.kind == KeyEventKind::Press && !app.loading && !app.failed_alert() ==> {
            &&& app.mode is Normal ==> app.event(Event::Key(key)) == app.normal(key)
            &&& app.mode is Confirm ==> app.event(Event::Key(key)) == app.confirm(key)
            &&& app.mode is Filter ==> app.event(Event::Key(key)) == (
                app.filtering(key),
                None::<JobV>,
            )
            &&& app.mode is Help ==> app.event(Event::Key(key)) == (
                AppV { mode: ModeV::Normal, ..app },
                None::<JobV>,
            )
        },
{
}

/// `q` and Ctrl-C quit from the list, busy or not, and change nothing else.
pub proof fn the_quit_keys_quit(app: AppV, key: KeyEvent)
    requires
        key.code == KeyCode::Char('q') || (key.code == KeyCode::Char('c') && key.modifiers
            == KeyModifiers::Control),
    ensures
        app.normal(key) == (AppV { should_quit: true, ..app }, None::<JobV>),
{
}

/// `a` marks what is in view and not yet marked, unless all of it is marked:
/// then it takes those marks off. Marks on rows out of view stay.
pub proof fn a_marks_what_is_in_view(app: AppV, key: KeyEvent)
    requires
        at_rest(app),
        key.code == KeyCode::Char('a'),
    ensures
        ({
            let (after, job) = app.normal(key);
            let (rows, stacks) = (app.acct().visible(app.filter), app.acct().stacks);
            let (was, got) = (app.acct().marked, after.acct().marked);
            let all = forall|i: int|
                0 <= i < rows.len() ==> was.contains(stacks[#[trigger] rows[i]].key);
            &&& job is None
            &&& forall|i: int|
                0 <= i < rows.len() ==> (got.contains(stacks[#[trigger] rows[i]].key) <==> !all)
            &&& forall|k: Seq<char>|
                (forall|i: int| 0 <= i < rows.len() ==> stacks[#[trigger] rows[i]].key != k)
                    ==> (#[trigger] got.contains(k) <==> was.contains(k))
            &&& after.acct().stacks == stacks && after.acct().selected == app.acct().selected
        }),
{
    let (rows, stacks) = (app.acct().visible(app.filter), app.acct().stacks);
    let keys = row_keys(stacks, rows);
    let was = app.acct().marked;
    let got = app.normal(key).0.acct().marked;
    a_marks_or_unmarks_everything_in_view(app);
    let all = forall|i: int| 0 <= i < rows.len() ==> was.contains(stacks[#[trigger] rows[i]].key);
    assert(all_in(keys, was) == all) by {
        if all_in(keys, was) {
            assert forall|i: int| 0 <= i < rows.len() implies was.contains(
                stacks[#[trigger] rows[i]].key,
            ) by {
                assert(was.contains(keys[i]));
            }
        }
        if all {
            assert forall|i: int| 0 <= i < keys.len() implies was.contains(#[trigger] keys[i]) by {
                assert(was.contains(stacks[rows[i]].key));
            }
        }
    }
    assert forall|i: int| 0 <= i < rows.len() implies (got.contains(
        stacks[#[trigger] rows[i]].key,
    ) <==> !all) by {
        assert(keys[i] == stacks[rows[i]].key);
        assert(keys.contains(keys[i]));
    }
    assert forall|k: Seq<char>|
        (forall|i: int| 0 <= i < rows.len() ==> stacks[#[trigger] rows[i]].key != k) implies (
    #[trigger] got.contains(k) <==> was.contains(k)) by {
        if keys.contains(k) {
            let i = choose|i: int| 0 <= i < keys.len() && keys[i] == k;
            assert(stacks[rows[i]].key == k);
        }
    }
}

/// A sweep that came back is folded into the account it was started for, in the
/// order and the grouping of now, and into no other.
pub proof fn a_finished_sweep_lands_in_its_account(app: AppV, done: TaskDone, now: Timestamp, j: int)
    requires
        done matches TaskDone::Swept { acct_idx, .. } && acct_idx < app.accounts.len(),
        0 <= j < app.accounts.len(),
    ensures
        ({
            let (after, job) = app.finished(done, now);
            &&& job is None
            &&& !after.busy && !after.loading
            &&& after.mode == app.mode && after.active == app.active && after.filter == app.filter
            &&& done matches TaskDone::Swept { acct_idx, connected, password, kind, sweep, result }
                && after.accounts[j] == (if j == acct_idx {
                app.accounts[j].swept(
                    app.filter,
                    app.group_by,
                    app.sort_by,
                    connected,
                    opt_text(password),
                    kind,
                    sweep@,
                )
            } else {
                app.accounts[j]
            }) && (result is Ok ==> after.alert is None && after.status == summary(
                after.accounts[acct_idx as int],
            )) && (result is Err ==> after.alert matches Some(AlertV::Failed(_)))
        }),
{
}

/// While mail is being moved, the status says what is done and to how many
/// messages.
pub proof fn a_running_change_is_told(app: AppV, kind: ImapKind, idxs: Seq<int>, reach: ReachV)
    requires
        app.wf(),
        app.acct().connected,
    ensures
        ({
            let (after, job) = app.changing(kind, idxs, reach);
            let n = uids_at(app.acct().stacks, idxs).len() + reach.beyond.len();
            let verb = match kind {
                ImapKind::Trash => "trashing"@,
                ImapKind::Archive => "archiving"@,
                ImapKind::Read => "marking read"@,
            };
            &&& begins(after.status, verb + " "@ + decimal(n))
            &&& job matches Some(JobV::Imap { kind: k, uids, .. }) && k == kind && uids.len() == n
            &&& after.busy && after.in_flight && !after.acct().connected
            &&& after.acct() == (AccountV { connected: false, ..app.acct() })
        }),
{
    let (after, job) = app.changing(kind, idxs, reach);
    let n = uids_at(app.acct().stacks, idxs).len() + reach.beyond.len();
    to_begin_is_to_go_on(after.status, kind_verb(kind) + " "@ + decimal(n));
}

/// Mail whose List-Unsubscribe headers are ASCII can always be acted on: there
/// is no key that such a list refuses. Other mail is only ever in the way of
/// `u`.
pub proof fn plain_mail_refuses_no_key(app: AppV, key: KeyEvent)
    requires
        app.wf(),
        key.code != KeyCode::Char('u') || forall|i: int, a: int|
            0 <= i < app.acct().stacks.len() && 0 <= a < app.acct().stacks[i].msgs.len() ==> ((
            #[trigger] app.acct().stacks[i].msgs[a]).list_unsubscribe matches Some(header)
                ==> is_ascii_chars(header)),
    ensures
        app.event_fits(Event::Key(key)),
        app.event_fits(Event::Other),
{
    let stacks = app.acct().stacks;
    let targets = app.acct().targets(app.filter);
    if key.code == KeyCode::Char('u') {
        lemma_targets(app.acct(), app.filter);
        assert forall|k: int| 0 <= k < targets.len() implies source_readable(
            stacks[#[trigger] targets[k]],
        ) by {
            let s = stacks[targets[k]];
            let p = unsubscribe_at(s.msgs);
            lemma_source_found(s.msgs);
            if p < s.msgs.len() {
                let m = stacks[targets[k]].msgs[p];
                if let Some(header) = m.list_unsubscribe {
                    assert(is_ascii_chars(header));
                    a_plain_header_can_be_read(header);
                }
            }
        }
    }
}

proof fn lemma_source_found(ms: Seq<MsgV>)
    ensures
        0 <= unsubscribe_at(ms) <= ms.len(),
    decreases ms.len(),
{
    if ms.len() > 0 && ms[0].list_unsubscribe is None {
        lemma_source_found(ms.skip(1));
    }
}

/// What is on screen is remembered for the active account, and nothing else
/// changes by being looked at.
pub proof fn looking_changes_only_what_was_seen(app: AppV, idxs: Seq<int>, at: Timestamp)
    requires
        app.wf(),
    ensures
        ({
            let after = app.sighted(idxs, at);
            &&& after.acct() == (AccountV { seen: after.acct().seen, ..app.acct() })
            &&& after.acct().seen == saw_all(app.acct().seen, app.acct().stacks, idxs, at)
            &&& forall|i: int|
                0 <= i < app.accounts.len() && i != app.active ==> #[trigger] after.accounts[i]
                    == app.accounts[i]
            &&& after.log == app.log && after.stats == app.stats && after.status == app.status
                && after.mode == app.mode
        }),
{
}

/// A session begins with the first account, grouped by sender and sorted by
/// count, with nothing filtered, counted, seen or acted on.
pub proof fn a_session_begins_with_nothing_done(
    accounts: Seq<AccountConfigV>,
    log: ActionLogV,
    no_color: bool,
    i: int,
)
    requires
        0 <= i < accounts.len(),
    ensures
        ({
            let app = app_started(accounts, log, no_color);
            let a = app.accounts[i];
            &&& app.accounts.len() == accounts.len() && app.active == 0
            &&& a.cfg == accounts[i]
            &&& a.stacks.len() == 0 && !a.loaded && !a.connected && a.seen.len() == 0
            &&& forall|u: u32| !a.acted.contains(u)
            &&& forall|k: Seq<char>| !a.marked.contains(k)
            &&& app.group_by == GroupBy::Sender && app.sort_by == SortBy::Count
            &&& app.filter.len() == 0 && app.mode is Normal && app.alert is None
            &&& app.stats.trashed + app.stats.archived + app.stats.marked_read
                + app.stats.unsubscribed == 0
            &&& !app.busy && !app.loading && !app.in_flight && !app.searching && !app.should_quit
            &&& app.log == log && app.no_color == no_color
        }),
{
}

/// A search before a trash or an archive that came back whole leaves the
/// account's summary as the status; one that failed tells why, asks nothing and
/// leaves no session.
pub proof fn a_search_is_reported(app: AppV, action: PendingV, found: Seq<u32>, e: MailError)
    requires
        app.wf(),
    ensures
        !(action is TrashAfterUnsub) ==> app.fanned_out(action, found, false, None).status
            == summary(app.acct()),
        ({
            let after = app.fanned_out(action, found, false, Some(e));
            &&& exists|head: Seq<char>| after.status == #[trigger] (head + e.text())
            &&& !(action is TrashAfterUnsub) ==> after.status == "error: "@ + e.text()
            &&& after.mode == app.mode
            &&& after.acct() == (AccountV { connected: false, ..app.acct() })
            &&& after.stats == app.stats && after.log == app.log
        }),
{
}

} // verus!
