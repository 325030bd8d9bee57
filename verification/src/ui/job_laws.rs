//! What the questions and the background jobs promise.
use crate::imap_client::{
    a_fan_out_is_one_senders_mail, a_quoted_text_is_read_back_whole, escaped, from_exactly,
    read_quoted, MailError,
};
use crate::stacks::{uids_of, unsubscribe_at, MsgV, StackV};
use crate::text::{
    begins, decimal, grouped, occurs, same_ignoring_case, to_begin_is_to_go_on,
    to_occur_is_to_stand_somewhere,
};
use crate::ui::account::count_at;
use crate::ui::jobs::{
    mail_text, query_text, source_readable, stack_method, via_text, whose, AskV, GatherV,
    LoadAskV, LoadRunV, PendingV, PhaseV, UnsubRunV,
};
use crate::unsubscribe::{method_of, readable, MethodV};
use vstd::prelude::*;

verus! {

// ---------------------------------------------------------------------------
// questions
// ---------------------------------------------------------------------------

proof fn lemma_unsubscribe_place(ms: Seq<MsgV>, i: int)
    requires
        0 <= i <= ms.len(),
        forall|j: int| 0 <= j < i ==> (#[trigger] ms[j]).list_unsubscribe is None,
        i < ms.len() ==> ms[i].list_unsubscribe is Some,
    ensures
        unsubscribe_at(ms) == i,
    decreases i,
{
    if i > 0 {
        assert(ms[0].list_unsubscribe is None);
        let rest = ms.skip(1);
        assert forall|j: int| 0 <= j < i - 1 implies (
            #[trigger] rest[j]).list_unsubscribe is None by {
            assert(rest[j] == ms[j + 1]);
        }
        lemma_unsubscribe_place(rest, i - 1);
    }
}

/// A stack is unsubscribed from in the way that its newest message with a
/// List-Unsubscribe header offers, and in no way where no message has one.
pub proof fn the_newest_header_is_looked_at(s: StackV, i: int)
    requires
        0 <= i <= s.msgs.len(),
        forall|j: int| 0 <= j < i ==> (#[trigger] s.msgs[j]).list_unsubscribe is None,
        i < s.msgs.len() ==> s.msgs[i].list_unsubscribe is Some,
    ensures
        i < s.msgs.len() ==> stack_method(s) == method_of(s.msgs[i]),
        i < s.msgs.len() ==> source_readable(s) == readable(s.msgs[i]),
        i == s.msgs.len() ==> stack_method(s) is None && source_readable(s),
{
    lemma_unsubscribe_place(s.msgs, i);
}

/// One stack is called by its name, several by how many they are.
pub proof fn stacks_are_called_by_name_or_number(stacks: Seq<StackV>, idxs: Seq<int>)
    ensures
        idxs.len() == 1 ==> whose(stacks, idxs) == stacks[idxs[0]].display_name,
        idxs.len() != 1 ==> whose(stacks, idxs) == decimal(idxs.len()) + " stacks"@,
{
}

/// The words of a question about mail, around the number it states.
pub open spec fn asks_about(q: Seq<char>, verb: Seq<char>, n: nat, who: Seq<char>) -> bool {
    let plural = if n == 1 {
        ""@
    } else {
        "s"@
    };
    begins(q, verb + grouped(n) + " message"@ + plural + " from "@ + who)
}

proof fn lemma_regrouped(
    v: Seq<char>,
    a: Seq<char>,
    b: Seq<char>,
    c: Seq<char>,
    d: Seq<char>,
    e: Seq<char>,
    t: Seq<char>,
    z: Seq<char>,
)
    ensures
        v + (a + b + c + d + e + t) + z == (v + a + b + c + d + e) + t + z,
{
    assert(v + (a + b) =~= v + a + b);
    assert(v + (a + b + c) =~= v + (a + b) + c);
    assert(v + (a + b + c + d) =~= v + (a + b + c) + d);
    assert(v + (a + b + c + d + e) =~= v + (a + b + c + d) + e);
    assert(v + (a + b + c + d + e + t) =~= v + (a + b + c + d + e) + t);
}

proof fn lemma_asks(verb: Seq<char>, stacks: Seq<StackV>, idxs: Seq<int>, beyond: nat)
    ensures
        ({
            let q = verb + mail_text(stacks, idxs, beyond) + "?"@;
            let held = count_at(stacks, idxs);
            &&& asks_about(q, verb, held + beyond, whose(stacks, idxs))
            &&& beyond > 0 ==> occurs(q, " ("@ + grouped(held) + " in view)"@)
            &&& q.last() == '?'
        }),
{
    let q = verb + mail_text(stacks, idxs, beyond) + "?"@;
    let held = count_at(stacks, idxs);
    let n = held + beyond;
    let plural = if n == 1 {
        ""@
    } else {
        "s"@
    };
    let tail = if beyond > 0 {
        " ("@ + grouped(held) + " in view)"@
    } else {
        ""@
    };
    let who = whose(stacks, idxs);
    let p = verb + grouped(n) + " message"@ + plural + " from "@ + who;
    lemma_regrouped(verb, grouped(n), " message"@, plural, " from "@, who, tail, "?"@);
    assert(q == p + tail + "?"@);
    assert(p + tail + "?"@ =~= p + (tail + "?"@));
    to_begin_is_to_go_on(q, p);
    to_occur_is_to_stand_somewhere(q, tail);
    assert(q.last() == '?') by {
        reveal_strlit("?");
    }
}

/// A question about trashing or archiving states the number of messages that
/// will move, in view and beyond, and whose they are; where more than the mail
/// in view moves, it states that number too.
pub proof fn the_question_states_the_number(
    action: PendingV,
    stacks: Seq<StackV>,
    beyond: nat,
)
    requires
        !(action is Unsubscribe),
    ensures
        ({
            let q = action.question(stacks, beyond);
            let held = count_at(stacks, action.idxs());
            let verb = match action {
                PendingV::Trash(_) => "trash "@,
                PendingV::Archive(_) => "archive "@,
                _ => "unsubscribed — also trash "@,
            };
            &&& asks_about(q, verb, held + beyond, whose(stacks, action.idxs()))
            &&& beyond > 0 ==> occurs(q, " ("@ + grouped(held) + " in view)"@)
            &&& q.last() == '?'
        }),
{
    match action {
        PendingV::Trash(idxs) => lemma_asks("trash "@, stacks, idxs, beyond),
        PendingV::Archive(idxs) => lemma_asks("archive "@, stacks, idxs, beyond),
        PendingV::TrashAfterUnsub(idxs) => lemma_asks(
            "unsubscribed — also trash "@,
            stacks,
            idxs,
            beyond,
        ),
        PendingV::Unsubscribe(_) => {},
    }
}

/// A question about unsubscribing names the stack and the way it would be done,
/// or states how many stacks it is about; it counts no mail.
pub proof fn unsubscribing_is_asked_by_sender(
    idxs: Seq<int>,
    stacks: Seq<StackV>,
    beyond: nat,
)
    ensures
        ({
            let q = PendingV::Unsubscribe(idxs).question(stacks, beyond);
            &&& begins(q, "unsubscribe from "@ + whose(stacks, idxs))
            &&& q == PendingV::Unsubscribe(idxs).question(stacks, 0)
            &&& idxs.len() == 1 ==> match stack_method(stacks[idxs[0]]) {
                Some(m) => occurs(q, " via "@ + way(m) + "?"@),
                None => true,
            }
        }),
{
    let q = PendingV::Unsubscribe(idxs).question(stacks, beyond);
    let p = "unsubscribe from "@ + whose(stacks, idxs);
    assert(q.take(p.len() as int) =~= p);
    if idxs.len() == 1 {
        let via = " via "@ + via_text(stacks[idxs[0]]) + "?"@;
        assert(q =~= p + via + Seq::<char>::empty());
        to_occur_is_to_stand_somewhere(q, via);
    }
}

/// A way to unsubscribe, in words.
pub open spec fn way(m: MethodV) -> Seq<char> {
    match m {
        MethodV::OneClick(_) => "one-click POST"@,
        MethodV::Mailto { .. } => "unsubscribe email"@,
        MethodV::Browser(_) => "open in browser"@,
    }
}

// ---------------------------------------------------------------------------
// loading
// ---------------------------------------------------------------------------

/// A load asks for the password of its own account, opens the session with that
/// account and password, and reads what its sweep asks for. After an error it
/// asks for nothing more.
pub proof fn a_load_asks_for_its_own_account(run: LoadRunV)
    ensures
        match run.ask() {
            Some(LoadAskV::Password(email)) => run.phase is Password && email == run.account.email,
            Some(LoadAskV::Connect { account, password }) => run.phase is Connect && account
                == run.account && password == run.password->0,
            Some(LoadAskV::Count) => run.phase is Count,
            Some(LoadAskV::Fetch(lo, hi)) => run.phase matches PhaseV::Fetch(sweep) && sweep.next()
                == Some((lo, hi)),
            None => run.phase is Over || (run.phase matches PhaseV::Fetch(sweep)
                && sweep.next() is None),
        },
        run.error() is Some ==> run.ask() is None,
{
}

/// After a timeout no session is left; after a refusal the one that was
/// reached is, and so it is where nothing failed. What a load read it keeps,
/// however it ended.
pub proof fn only_a_timeout_loses_a_session(run: LoadRunV, reached: bool, e: MailError)
    ensures
        ({
            let over = run.ended(reached, e);
            &&& over.error() == Some(e)
            &&& e.cause is TimedOut ==> !over.session_lives()
            &&& !(e.cause is TimedOut) ==> over.session_lives() == reached
            &&& !over.read().anchored && over.read().swept == 0 && over.read().msgs.len() == 0
            &&& over.password == run.password && over.kind == run.kind && over.acct == run.acct
        }),
        run.phase matches PhaseV::Fetch(sweep) ==> run.session_lives() && run.read() == sweep.window
            && run.error() is None,
        run.phase matches PhaseV::Over { sweep, reached, error } ==> run.read() == sweep
            && run.error() == Some(error) && (run.session_lives() <==> reached
            && !(error.cause is TimedOut)),
{
}

// ---------------------------------------------------------------------------
// unsubscribing
// ---------------------------------------------------------------------------

/// Only stacks that offer no way to unsubscribe are passed over, each as a
/// failure; the next one that offers a way is where it goes on.
pub proof fn only_stacks_without_a_way_are_passed_over(run: UnsubRunV)
    requires
        run.at <= run.jobs.len(),
    ensures
        ({
            let after = run.skipping();
            &&& run.at <= after.at <= run.jobs.len()
            &&& forall|k: int| run.at <= k < after.at ==> (#[trigger] run.jobs[k]).method is None
            &&& after.at < run.jobs.len() ==> run.jobs[after.at as int].method is Some
            &&& after.failed - run.failed == after.at - run.at
            &&& after.jobs == run.jobs && after.ok == run.ok && after.last == run.last
        }),
    decreases run.jobs.len() - run.at,
{
    if run.at < run.jobs.len() && run.jobs[run.at as int].method is None {
        only_stacks_without_a_way_are_passed_over(
            UnsubRunV { at: run.at + 1, failed: run.failed + 1, ..run },
        );
    }
}

/// An attempt that worked adds its stack to those that did, one that failed
/// counts as a failure, and of either the user is told by name what came of
/// it.
pub proof fn an_attempt_counts_for_what_it_came_to(run: UnsubRunV, result: Result<String, String>)
    requires
        run.at < run.jobs.len(),
    ensures
        ({
            let after = run.settled(result);
            let job = run.jobs[run.at as int];
            let told = match result {
                Ok(s) => s@,
                Err(s) => s@,
            };
            &&& after.jobs == run.jobs
            &&& after.at == run.at + 1
            &&& result is Ok ==> after.ok == run.ok.push(job.idx) && after.failed == run.failed
            &&& result is Err ==> after.ok == run.ok && after.failed == run.failed + 1
            &&& after.last == job.name + seq![':', ' '] + told
        }),
{
    reveal_strlit(": ");
    assert(": "@ =~= seq![':', ' ']);
}

/// The status bar tells which stack of how many is being unsubscribed from, and
/// by what name.
pub proof fn progress_names_the_stack(run: UnsubRunV)
    requires
        run.at < run.jobs.len(),
    ensures
        begins(
            run.progress(),
            "unsubscribing "@ + decimal(run.at + 1) + "/"@ + decimal(run.jobs.len()) + ": "@
                + run.jobs[run.at as int].name,
        ),
{
    let p = "unsubscribing "@ + decimal(run.at + 1) + "/"@ + decimal(run.jobs.len()) + ": "@
        + run.jobs[run.at as int].name;
    assert(run.progress().take(p.len() as int) =~= p);
}

// ---------------------------------------------------------------------------
// searching for senders
// ---------------------------------------------------------------------------

/// A search is for the sender whose turn it is, and for all of the address: a
/// server that reads the query reads `FROM` and that very text.
pub proof fn a_search_is_for_the_senders_address(g: GatherV)
    requires
        g.walk is None,
        g.error is None,
        g.at < g.senders.len(),
    ensures
        g.ask() matches Some(AskV::Search(q)) && begins(q, seq!['F', 'R', 'O', 'M', ' ', '"'])
            && read_quoted(q.skip(6)) == Some((g.senders[g.at as int], Seq::<char>::empty())),
{
    let addr = g.senders[g.at as int];
    let q = query_text(addr);
    reveal_strlit("FROM ");
    assert(q.take(6) =~= seq!['F', 'R', 'O', 'M', ' ', '"']);
    assert(q.skip(6) =~= escaped(addr) + seq!['"'] + Seq::<char>::empty());
    a_quoted_text_is_read_back_whole(addr, Seq::empty());
}

/// A search that came back is walked from its first UID to its last, for the
/// sender that was searched for.
pub proof fn what_a_search_found_is_walked(g: GatherV, uids: Seq<u32>)
    requires
        g.at < g.senders.len(),
    ensures
        g.searched(uids).walk matches Some(w) && w.addr == g.senders[g.at as int] && w.uids == uids
            && w.asked == 0 && w.msgs.len() == 0 && w.complete,
        g.searched(uids).found == g.found,
        g.searched(uids).at == g.at,
        g.searched(uids).senders == g.senders,
        g.searched(uids).partial == g.partial,
{
}

/// Once a sender's walk is over, what is added to the find is the UIDs of the
/// messages that are from the address itself, all of them and no other. A walk
/// that was cut short makes the find a partial one; nothing makes it whole
/// again.
pub proof fn a_finished_walk_adds_the_senders_mail(g: GatherV)
    requires
        g.walk matches Some(w) && w.next() is None,
    ensures
        ({
            let w = g.walk->0;
            let after = g.tidied();
            &&& after.at == g.at + 1
            &&& after.walk is None
            &&& after.partial == (g.partial || !w.complete)
            &&& after.found.take(g.found.len() as int) == g.found
            &&& forall|u: u32| #[trigger]
                after.found.contains(u) <==> g.found.contains(u) || exists|a: int|
                    0 <= a < w.msgs.len() && (#[trigger] w.msgs[a]).uid == u && same_ignoring_case(
                        w.msgs[a].sender_email,
                        w.addr,
                    )
        }),
{
    let w = g.walk->0;
    let after = g.tidied();
    let own = from_exactly(w.msgs, w.addr);
    let new = uids_of(own);
    a_fan_out_is_one_senders_mail(w.msgs, w.addr);
    assert(after.found == g.found + new);
    assert(after.found.take(g.found.len() as int) =~= g.found);
    assert forall|u: u32| #[trigger] after.found.contains(u) <==> g.found.contains(u) || exists|
        a: int,
    |
        0 <= a < w.msgs.len() && (#[trigger] w.msgs[a]).uid == u && same_ignoring_case(
            w.msgs[a].sender_email,
            w.addr,
        ) by {
        if after.found.contains(u) {
            let p = choose|p: int| 0 <= p < after.found.len() && after.found[p] == u;
            if p < g.found.len() {
                assert(g.found[p] == u);
            } else {
                let m = own[p - g.found.len()];
                assert(m.uid == u);
                assert(w.msgs.contains(m));
                let a = choose|a: int| 0 <= a < w.msgs.len() && w.msgs[a] == m;
                assert(w.msgs[a].uid == u);
            }
        }
        if g.found.contains(u) {
            let p = choose|p: int| 0 <= p < g.found.len() && g.found[p] == u;
            assert(after.found[p] == u);
        }
        if exists|a: int|
            0 <= a < w.msgs.len() && (#[trigger] w.msgs[a]).uid == u && same_ignoring_case(
                w.msgs[a].sender_email,
                w.addr,
            ) {
            let a = choose|a: int|
                0 <= a < w.msgs.len() && (#[trigger] w.msgs[a]).uid == u && same_ignoring_case(
                    w.msgs[a].sender_email,
                    w.addr,
                );
            assert(own.contains(w.msgs[a]));
            let p = choose|p: int| 0 <= p < own.len() && own[p] == w.msgs[a];
            assert(new[p] == u);
            assert(after.found[g.found.len() + p] == u);
        }
    }
}

/// A timeout ends the search for good and is reported; a refusal is not an
/// error: it ends the one sender's search or walk, makes the find a partial one
/// and lets the others go on.
pub proof fn a_refusal_costs_one_sender(g: GatherV, e: MailError)
    requires
        g.error is None,
        g.at < g.senders.len(),
    ensures
        e.cause is TimedOut ==> g.failing(e).error == Some(e) && g.failing(e).ask() is None,
        !(e.cause is TimedOut) ==> {
            let after = g.failing(e).tidied();
            &&& after.error is None
            &&& after.partial
            &&& after.at == g.at + 1
            &&& after.walk is None
            &&& g.walk is None ==> after.found == g.found
        },
        g.failing(e).found == g.found,
{
}

} // verus!
