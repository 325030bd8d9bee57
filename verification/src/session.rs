//! The course of a session: what messages from background jobs do, how it
//! ends, and what is said at its end.
use crate::clock::{now, Timestamp};
use crate::config::AccountConfig;
use crate::sort::views;
use crate::stacks::{Stack, StackV};
use crate::text::{
    begins, decimal, number, occurs, right_align, right_aligned, to_begin_is_to_go_on,
    to_occur_is_to_stand_somewhere,
};
use crate::ui::app::{App, AppV, ReachV, SessionStats, StatsV};
use crate::ui::jobs::{opt_job, ImapKind, Job, JobV, Load, PendingV, TaskMsg};
use vstd::prelude::*;
use vstd::string::*;

verus! {

/// Which kind of background job a message came from.
#[derive(Debug, Clone, Copy, PartialEq, Eq, Structural)]
pub enum Source {
    Load,
    Action,
}

/// What a message does: the state after it, whether the job that sent it is
/// still running, and what there is to do next.
pub open spec fn applied(app: AppV, msg: TaskMsg, from: Source, at: Timestamp) -> (
    AppV,
    bool,
    Option<JobV>,
) {
    match msg {
        // an action is the thing the user is waiting on, so a load's progress
        // line does not talk over it
        TaskMsg::Status(s) => (
            if from == Source::Action || !app.busy {
                AppV { status: s@, ..app }
            } else {
                app
            },
            true,
            None,
        ),
        TaskMsg::Sweeping(p) => (app.progressed(p), true, None),
        TaskMsg::Done(done) => {
            let (after, job) = app.finished(done, at);
            (after, false, job)
        },
    }
}

/// Apply one message from a background job. Returns whether that job is still
/// running — `false` means it is done — and what there is to do next.
pub fn apply(app: &mut App, msg: TaskMsg, from: Source) -> (r: (bool, Option<Job>))
    requires
        old(app)@.wf(),
        msg matches TaskMsg::Done(done) ==> old(app)@.done_fits(done),
    ensures
        exists|at: Timestamp|
            (final(app)@, r.0, opt_job(r.1)) == #[trigger] applied(old(app)@, msg, from, at),
        final(app)@.wf(),
        old(app)@.targets_valid() && !(msg is Done && old(app)@.mode is Confirm)
            ==> final(app)@.targets_valid(),
{
    let at = now();
    apply_at(app, msg, from, at)
}

/// The same, at a given time.
pub fn apply_at(app: &mut App, msg: TaskMsg, from: Source, at: Timestamp) -> (r: (
    bool,
    Option<Job>,
))
    requires
        old(app)@.wf(),
        msg matches TaskMsg::Done(done) ==> old(app)@.done_fits(done),
    ensures
        (final(app)@, r.0, opt_job(r.1)) == applied(old(app)@, msg, from, at),
        final(app)@.wf(),
        old(app)@.targets_valid() && !(msg is Done && old(app)@.mode is Confirm)
            ==> final(app)@.targets_valid(),
{
    match msg {
        TaskMsg::Status(s) => {
            if from == Source::Action || !app.busy {
                app.status = s;
            }
            (true, None)
        },
        TaskMsg::Sweeping(p) => {
            app.on_sweep_progress(p);
            (true, None)
        },
        TaskMsg::Done(done) => {
            let job = app.on_task_done_at(done, at);
            (false, job)
        },
    }
}

/// A background job died without reporting (a bug): the UI recovers.
pub fn on_job_lost(app: &mut App, from: Source)
    ensures
        final(app)@ == (AppV {
            status: match from {
                Source::Load => "error: load task exited unexpectedly"@,
                Source::Action => "error: action task exited unexpectedly"@,
            },
            outcome: None,
            ..old(app)@.idle()
        }),
{
    app.busy = false;
    app.loading = false;
    app.in_flight = false;
    app.searching = false;
    app.outcome = None;
    app.alert = None;
    app.status = match from {
        Source::Load => "error: load task exited unexpectedly".to_owned(),
        Source::Action => "error: action task exited unexpectedly".to_owned(),
    };
}

/// What is left to do once the user has quit.
#[derive(Debug, Clone, Copy, PartialEq, Eq, Structural)]
pub enum QuitStep {
    /// leave at once
    Leave,
    /// wait for the job in flight, then leave
    Finish,
}

/// What is left to do once the user has quit.
pub open spec fn quit_step(app: AppV) -> QuitStep {
    if app.in_flight && !app.loading && !app.searching {
        QuitStep::Finish
    } else {
        QuitStep::Leave
    }
}

/// The user has quit. An in-flight action must land first: its outcome is what
/// gets logged, and quitting before it would both abandon the move mid-flight
/// and mislabel the stack as "keep". A load or a search is read-only: nothing
/// to log, nothing left half-done, so it is abandoned rather than waited out.
pub fn quit(app: &mut App) -> (r: QuitStep)
    ensures
        r == quit_step(old(app)@),
        r == (if old(app)@.in_flight && !old(app)@.loading && !old(app)@.searching {
            QuitStep::Finish
        } else {
            QuitStep::Leave
        }),
        final(app)@ == (if r == QuitStep::Finish {
            AppV { status: "finishing action before exit…"@, ..old(app)@ }
        } else {
            old(app)@
        }),
{
    if app.in_flight && !app.loading && !app.searching {
        app.status = "finishing action before exit…".to_owned();
        QuitStep::Finish
    } else {
        QuitStep::Leave
    }
}

// ---------------------------------------------------------------------------
// at the end
// ---------------------------------------------------------------------------

/// What is said of a session, line by line; nothing where nothing was done.
pub open spec fn session_lines(s: StatsV) -> Seq<Seq<char>> {
    let cleaned = s.trashed + s.archived;
    if cleaned + s.marked_read + s.unsubscribed == 0 {
        Seq::empty()
    } else {
        seq!["this session:"@] + (if cleaned > 0 {
            seq![
                "  cleaned "@ + decimal(cleaned) + " emails ("@ + decimal(s.trashed)
                    + " trashed, "@ + decimal(s.archived) + " archived)"@,
            ]
        } else {
            Seq::empty()
        }) + (if s.marked_read > 0 {
            seq!["  marked "@ + decimal(s.marked_read) + " read"@]
        } else {
            Seq::empty()
        }) + (if s.unsubscribed > 0 {
            seq!["  unsubscribed from "@ + decimal(s.unsubscribed) + " senders"@]
        } else {
            Seq::empty()
        })
    }
}

fn push_line(out: &mut Vec<String>, line: String)
    ensures
        views(final(out)@) == views(old(out)@).push(line@),
{
    let ghost had = out@;
    let ghost v = line@;
    out.push(line);
    assert(views(out@) =~= views(had).push(v));
}

fn around(a: &str, n: usize, b: &str) -> (r: String)
    ensures
        r@ == a@ + decimal(n as nat) + b@,
{
    let count = number(n);
    let mut out = a.to_owned();
    out.append(count.as_str());
    out.append(b);
    out
}

/// What is said of a session.
pub fn session_report(s: &SessionStats) -> (r: Vec<String>)
    requires
        s@.trashed + s@.archived <= usize::MAX,
    ensures
        views(r@) == session_lines(s@),
{
    let cleaned: usize = s.trashed + s.archived;
    let mut out: Vec<String> = Vec::new();
    assert(views(out@) =~= Seq::<Seq<char>>::empty());
    if cleaned == 0 && s.marked_read == 0 && s.unsubscribed == 0 {
        return out;
    }
    push_line(&mut out, "this session:".to_owned());
    if cleaned > 0 {
        let mut line = around("  cleaned ", cleaned, " emails (");
        let trashed = number(s.trashed);
        let archived = number(s.archived);
        line.append(trashed.as_str());
        line.append(" trashed, ");
        line.append(archived.as_str());
        line.append(" archived)");
        push_line(&mut out, line);
    }
    if s.marked_read > 0 {
        push_line(&mut out, around("  marked ", s.marked_read, " read"));
    }
    if s.unsubscribed > 0 {
        push_line(&mut out, around("  unsubscribed from ", s.unsubscribed, " senders"));
    }
    assert(views(out@) =~= session_lines(s@));
    out
}

// ---------------------------------------------------------------------------
// without the TUI
// ---------------------------------------------------------------------------

/// The heading of an account in the headless dump.
pub fn account_heading(account: &AccountConfig) -> (r: String)
    ensures
        r@ == "== "@ + account@.name + " ("@ + account@.email + ") =="@,
{
    let mut out = "== ".to_owned();
    out.append(account.name.as_str());
    out.append(" (");
    out.append(account.email.as_str());
    out.append(") ==");
    out
}

/// The counts of an account in the headless dump.
pub fn account_counts(read: usize, total: usize, stacks: usize) -> (r: String)
    ensures
        r@ == decimal(read as nat) + " of "@ + decimal(total as nat) + " messages, "@ + decimal(
            stacks as nat,
        ) + " stacks"@,
{
    let mut out = number(read);
    let b = number(total);
    let c = number(stacks);
    out.append(" of ");
    out.append(b.as_str());
    out.append(" messages, ");
    out.append(c.as_str());
    out.append(" stacks");
    out
}

/// A stack's row in the headless dump.
pub open spec fn stack_line_text(s: StackV) -> Seq<char> {
    right_aligned(decimal(s.msgs.len()), 5) + "  "@ + (if s.can_unsubscribe {
        "U"@
    } else {
        " "@
    }) + "  "@ + s.display_name + " <"@ + s.key + ">  — "@ + s.msgs[0].subject
}

/// A stack's row in the headless dump.
pub fn stack_line(s: &Stack) -> (r: String)
    requires
        s@.msgs.len() > 0,
    ensures
        r@ == stack_line_text(s@),
{
    let n = number(s.msgs.len());
    let mut out = right_align(n.as_str(), 5);
    out.append("  ");
    out.append(
        if s.can_unsubscribe {
            "U"
        } else {
            " "
        },
    );
    out.append("  ");
    out.append(s.display_name.as_str());
    out.append(" <");
    out.append(s.key.as_str());
    out.append(">  — ");
    out.append(s.latest().subject.as_str());
    out
}

/// A progress line of a load does not talk over an action the user waits for;
/// any other progress line is shown. A job runs until it reports that it is
/// done, and until then nothing but the status and the alert change.
pub proof fn a_job_runs_until_it_is_done(app: AppV, msg: TaskMsg, from: Source, at: Timestamp)
    ensures
        ({
            let (after, running, job) = applied(app, msg, from, at);
            &&& running <==> !(msg is Done)
            &&& msg matches TaskMsg::Status(s) ==> {
                &&& from == Source::Load && app.busy ==> after == app
                &&& from == Source::Action || !app.busy ==> after.status == s@
            }
            &&& running ==> job is None && after == (AppV {
                status: after.status,
                alert: after.alert,
                ..app
            })
        }),
{
}

/// A session in which nothing was done is passed over in silence; of any other,
/// each count that is not zero gets a line of its own, under one heading.
pub proof fn every_count_gets_a_line(s: StatsV)
    ensures
        ({
            let lines = session_lines(s);
            let cleaned = s.trashed + s.archived;
            let one = |n: nat|
                if n > 0 {
                    1int
                } else {
                    0int
                };
            &&& lines.len() == 0 <==> cleaned == 0 && s.marked_read == 0 && s.unsubscribed == 0
            &&& lines.len() > 0 ==> lines[0] == "this session:"@ && lines.len() == 1 + one(cleaned)
                + one(s.marked_read) + one(s.unsubscribed)
            &&& cleaned > 0 ==> lines[1] == "  cleaned "@ + decimal(cleaned) + " emails ("@
                + decimal(s.trashed) + " trashed, "@ + decimal(s.archived) + " archived)"@
            &&& s.marked_read > 0 ==> lines.contains(
                "  marked "@ + decimal(s.marked_read) + " read"@,
            )
            &&& s.unsubscribed > 0 ==> lines.last() == "  unsubscribed from "@ + decimal(
                s.unsubscribed,
            ) + " senders"@
        }),
{
    let lines = session_lines(s);
    let line = "  marked "@ + decimal(s.marked_read) + " read"@;
    if s.marked_read > 0 {
        let k = if s.trashed + s.archived > 0 {
            2int
        } else {
            1int
        };
        assert(lines[k] == line);
    }
}

/// A row of the dump begins with the number of its messages, names the sender
/// and the key, and ends with the newest subject.
pub proof fn a_dumped_row_names_its_stack(s: StackV)
    requires
        s.msgs.len() > 0,
    ensures
        ({
            let line = stack_line_text(s);
            &&& begins(line, right_aligned(decimal(s.msgs.len()), 5))
            &&& occurs(line, s.display_name + " <"@ + s.key + ">  — "@)
            &&& exists|head: Seq<char>| line == #[trigger] (head + s.msgs[0].subject)
        }),
{
    let line = stack_line_text(s);
    let n = right_aligned(decimal(s.msgs.len()), 5);
    let flag = if s.can_unsubscribe {
        "U"@
    } else {
        " "@
    };
    let head = n + "  "@ + flag + "  "@;
    let who = s.display_name + " <"@ + s.key + ">  — "@;
    lemma_row_parts(head, s.display_name, " <"@, s.key, ">  — "@, s.msgs[0].subject);
    to_occur_is_to_stand_somewhere(line, who);
    assert(line == head + who + s.msgs[0].subject);
    to_begin_is_to_go_on(line, n);
    assert(head =~= n + ("  "@ + flag + "  "@));
    assert(line =~= n + (("  "@ + flag + "  "@) + who + s.msgs[0].subject));
}

proof fn lemma_row_parts(
    h: Seq<char>,
    a: Seq<char>,
    b: Seq<char>,
    c: Seq<char>,
    d: Seq<char>,
    e: Seq<char>,
)
    ensures
        h + a + b + c + d + e == h + (a + b + c + d) + e,
{
    assert(h + a + b =~= h + (a + b));
    assert(h + (a + b) + c =~= h + (a + b + c));
    assert(h + (a + b + c) + d =~= h + (a + b + c + d));
}

/// Quitting waits for a mailbox change or an unsubscribe that was handed out,
/// and for nothing else: a search or a sweep is left behind, and so is a
/// question that nobody answered.
pub proof fn quitting_waits_for_what_changes_mail(
    app: AppV,
    kind: ImapKind,
    idxs: Seq<int>,
    reach: ReachV,
    load: Load,
    action: PendingV,
)
    requires
        app.wf(),
        !app.in_flight,
        !app.loading,
        !app.searching,
    ensures
        quit_step(app) == QuitStep::Leave,
        app.changing(kind, idxs, reach).1 is Some ==> quit_step(app.changing(kind, idxs, reach).0)
            == QuitStep::Finish,
        app.changing(kind, idxs, reach).1 is None ==> quit_step(app.changing(kind, idxs, reach).0)
            == QuitStep::Leave,
        quit_step(app.unsubscribing(idxs).0) == QuitStep::Finish,
        quit_step(app.sweeping(load).0) == QuitStep::Leave,
        quit_step(app.asking(action).0) == QuitStep::Leave,
        quit_step(app.idle()) == QuitStep::Leave,
{
}

} // verus!
