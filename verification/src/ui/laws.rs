//! What the application promises, whatever the mailbox holds and whatever is
//! pressed.
use crate::action_log::{BySender, SnapV};
use crate::clock::Timestamp;
use crate::imap_client::{
    ascending, increasing, lemma_ascending, MailError, SweepProgress, SweepV,
};
use crate::sort::sorting_orders_and_permutes;
use crate::stacks::{
    all_messages, stacks_from, stacks_hold_every_message, uids_of, GroupBy, MsgV, SortBy, StackV,
};
use crate::text::begins;
use crate::ui::account::{
    count_at, first_of_each, lemma_count_is_len, row_of, saw, seen_at, touched, uids_at, untouched,
    AccountV, SeenV,
};
use crate::ui::app::{
    all_in, not_in, partial_note, row_keys, unsub_line, with_all, without_all, AlertV, AppV, ModeV,
    ReachV,
};
use crate::ui::jobs::{GatherV, ImapKind, JobV, Load, PendingV, TaskDone, UnsubRunV};
use crate::ui::keys::{Event, KeyCode, KeyEvent, KeyEventKind};
use vstd::prelude::*;

verus! {

// ---------------------------------------------------------------------------
// keys
// ---------------------------------------------------------------------------

/// The event is a key being pressed that leaves.
pub open spec fn leaves(ev: Event) -> bool {
    ev matches Event::Key(key) && key.kind == KeyEventKind::Press && key.quits()
}

/// The TUI is inert for a sweep's whole length: whatever happens, nothing
/// changes and nothing is started, except that the two quit keys quit.
pub proof fn a_sweep_makes_the_keyboard_inert(app: AppV, ev: Event)
    requires
        app.loading,
    ensures
        app.event(ev) == (AppV { should_quit: app.should_quit || leaves(ev), ..app }, None::<JobV>),
{
}

/// The quit keys are live in the list, during a sweep and under a failed
/// alert; only a question, the filter and the help overlay take them as
/// ordinary keys.
pub proof fn the_quit_keys_stay_live(app: AppV, ev: Event)
    requires
        leaves(ev),
        app.loading || app.failed_alert() || app.mode is Normal,
    ensures
        app.event(ev).0.should_quit,
        app.event(ev).1 is None,
{
}

/// Any key takes a failed alert down and is spent doing it: unless it quits or
/// retries, nothing else changes.
pub proof fn a_failed_alert_swallows_the_key(app: AppV, key: KeyEvent)
    requires
        app.failed_alert(),
        !app.loading,
        key.kind == KeyEventKind::Press,
        !key.quits(),
        key.code != KeyCode::Char('m'),
    ensures
        app.event(Event::Key(key)) == (AppV { alert: None, ..app }, None::<JobV>),
{
}

/// `m` on a failed alert sweeps again, from where the window ends.
pub proof fn m_on_a_failed_alert_retries(app: AppV, key: KeyEvent)
    requires
        app.wf(),
        app.failed_alert(),
        !app.loading,
        key.kind == KeyEventKind::Press,
        key.code == KeyCode::Char('m'),
        !(app.acct().loaded && app.acct().reached_end),
    ensures
        ({
            let (after, job) = app.event(Event::Key(key));
            &&& after.loading
            &&& after.alert matches Some(AlertV::Sweeping { .. })
            &&& job matches Some(JobV::Sweep { back, kind, .. }) && (app.acct().loaded ==> back
                == app.acct().back && kind == Load::More)
        }),
{
}

/// The two states hold the same stacks, sorted and grouped alike, and look at
/// the same account: an index into one is an index into the other.
pub open spec fn same_lists(a: AppV, b: AppV) -> bool {
    &&& a.active == b.active
    &&& a.group_by == b.group_by
    &&& a.sort_by == b.sort_by
    &&& a.accounts.len() == b.accounts.len()
    &&& forall|i: int|
        0 <= i < a.accounts.len() ==> (#[trigger] a.accounts[i]).stacks == b.accounts[i].stacks
}

/// While a job is in flight no key moves, regroups or removes a stack, and
/// none starts a second job: the indices that the job captured stay valid.
pub proof fn a_busy_app_keeps_its_stacks(app: AppV, ev: Event)
    requires
        app.wf(),
        app.busy,
        !app.failed_alert(),
        !(app.mode is Confirm),
    ensures
        same_lists(app, app.event(ev).0),
        app.event(ev).1 is None,
        app.event(ev).0.busy,
{
}

/// A question is answered by `y` or refused by any other key; either way it
/// is gone. A refusal starts nothing.
pub proof fn a_question_is_answered_by_one_key(app: AppV, key: KeyEvent)
    requires
        app.wf(),
        app.mode is Confirm,
        !app.loading,
        !app.failed_alert(),
        key.kind == KeyEventKind::Press,
    ensures
        app.event(Event::Key(key)).0.mode is Normal,
        key.code != KeyCode::Char('y') && key.code != KeyCode::Char('Y') ==> app.event(
            Event::Key(key),
        ).1 is None && same_lists(app, app.event(Event::Key(key)).0),
{
}

/// `a` marks everything in view, or, where all of it is marked, unmarks it.
pub proof fn a_marks_or_unmarks_everything_in_view(app: AppV)
    requires
        app.wf(),
    ensures
        ({
            let keys = row_keys(app.acct().stacks, app.acct().visible(app.filter));
            let before = app.acct().marked;
            let after = app.toggled_all().acct().marked;
            forall|k: Seq<char>|
                after.contains(k) <==> (if all_in(keys, before) {
                    before.contains(k) && !keys.contains(k)
                } else {
                    before.contains(k) || keys.contains(k)
                })
        }),
{
    let keys = row_keys(app.acct().stacks, app.acct().visible(app.filter));
    let before = app.acct().marked;
    lemma_with_all(before, keys);
    lemma_without_all(before, keys);
}

proof fn lemma_with_all(set: Set<Seq<char>>, keys: Seq<Seq<char>>)
    ensures
        forall|k: Seq<char>|
            with_all(set, keys).contains(k) <==> set.contains(k) || keys.contains(k),
    decreases keys.len(),
{
    if keys.len() > 0 {
        let front = keys.drop_last();
        lemma_with_all(set, front);
        assert forall|k: Seq<char>|
            with_all(set, keys).contains(k) <==> set.contains(k) || keys.contains(k) by {
            lemma_contains_last(keys, k);
        }
    }
}

proof fn lemma_without_all(set: Set<Seq<char>>, keys: Seq<Seq<char>>)
    ensures
        forall|k: Seq<char>|
            without_all(set, keys).contains(k) <==> set.contains(k) && !keys.contains(k),
    decreases keys.len(),
{
    if keys.len() > 0 {
        let front = keys.drop_last();
        lemma_without_all(set, front);
        assert forall|k: Seq<char>|
            without_all(set, keys).contains(k) <==> set.contains(k) && !keys.contains(k) by {
            lemma_contains_last(keys, k);
        }
    }
}

proof fn lemma_contains_last<A>(s: Seq<A>, x: A)
    requires
        s.len() > 0,
    ensures
        s.contains(x) <==> s.drop_last().contains(x) || s.last() == x,
{
    if s.contains(x) {
        let i = choose|i: int| 0 <= i < s.len() && s[i] == x;
        if i < s.len() - 1 {
            assert(s.drop_last()[i] == x);
        }
    }
    if s.drop_last().contains(x) {
        let i = choose|i: int| 0 <= i < s.len() - 1 && s.drop_last()[i] == x;
        assert(s[i] == x);
    }
    if s.last() == x {
        assert(s[s.len() - 1] == x);
    }
}

// ---------------------------------------------------------------------------
// the number that is confirmed is the number that moves
// ---------------------------------------------------------------------------

/// What a trash or an archive moves is exactly what the question counted: the
/// messages in view and those found beyond them. `y` hands out just these.
pub proof fn the_number_confirmed_is_the_number_that_moves(app: AppV, key: KeyEvent, action: PendingV)
    requires
        app.wf(),
        app.mode == ModeV::Confirm(action),
        !(action is Unsubscribe),
        app.acct().connected,
        key.code == KeyCode::Char('y') || key.code == KeyCode::Char('Y'),
    ensures
        app.confirm(key).1 matches Some(JobV::Imap { kind, uids, idxs, beyond, partial, .. }) && {
            &&& uids.len() == count_at(app.acct().stacks, action.idxs()) + app.reach.beyond.len()
            &&& uids == uids_at(app.acct().stacks, action.idxs()) + app.reach.beyond
            &&& idxs == action.idxs()
            &&& beyond == app.reach.beyond.len()
            &&& partial == app.reach.partial
            &&& kind == (if action is Archive {
                ImapKind::Archive
            } else {
                ImapKind::Trash
            })
        },
{
    lemma_count_is_len(app.acct().stacks, action.idxs());
}

/// Under a grouping by sender, on an open session, trashing and archiving
/// search the whole mailbox for the senders first; in any other case the
/// question is asked at once, about the mail in view.
pub proof fn trash_and_archive_search_the_senders_first(app: AppV, action: PendingV)
    requires
        app.wf(),
    ensures
        app.acct().connected && app.group_by == GroupBy::Sender ==> {
            &&& app.asking(action).1 matches Some(JobV::FanOut { action: a, .. }) && a == action
            &&& app.asking(action).0.mode == app.mode
        },
        !(app.acct().connected && app.group_by == GroupBy::Sender) ==> {
            &&& app.asking(action).1 is None
            &&& app.asking(action).0.mode == ModeV::Confirm(action)
            &&& app.asking(action).0.reach == ReachV::in_view()
        },
{
}

/// Marking read stays on the window's mail: it asks nothing and reaches
/// nothing beyond the stacks.
pub proof fn mark_read_stays_in_the_window(app: AppV, key: KeyEvent)
    requires
        app.wf(),
        !app.busy,
        key.code == KeyCode::Char('r'),
        app.acct().targets(app.filter).len() > 0,
        app.acct().connected,
    ensures
        app.normal(key).1 matches Some(JobV::Imap { kind, uids, beyond, .. }) && kind
            == ImapKind::Read && beyond == 0 && uids == uids_at(
            app.acct().stacks,
            app.acct().targets(app.filter),
        ),
        app.normal(key).0.mode == app.mode,
{
    let held = uids_at(app.acct().stacks, app.acct().targets(app.filter));
    assert(held + Seq::<u32>::empty() =~= held);
}

proof fn lemma_not_in(s: Seq<u32>, held: Seq<u32>)
    ensures
        forall|u: u32| not_in(s, held).contains(u) <==> s.contains(u) && !held.contains(u),
    decreases s.len(),
{
    if s.len() > 0 {
        let front = s.drop_last();
        lemma_not_in(front, held);
        assert forall|u: u32|
            not_in(s, held).contains(u) <==> s.contains(u) && !held.contains(u) by {
            lemma_contains_last(s, u);
            if !held.contains(s.last()) {
                let all = not_in(s, held);
                assert(all.drop_last() =~= not_in(front, held));
                lemma_contains_last(all, u);
            }
        }
    }
}

/// A search that came back leads to the question. It counts what the search
/// found and the stacks do not hold, and nothing twice; where the server
/// refused, the question is asked all the same and the status says how far the
/// action reaches.
pub proof fn a_search_leads_to_the_question(
    app: AppV,
    action: PendingV,
    found: Seq<u32>,
    partial: bool,
)
    requires
        app.wf(),
    ensures
        ({
            let after = app.fanned_out(action, found, partial, None);
            let held = uids_at(app.acct().stacks, action.idxs());
            &&& after.mode == ModeV::Confirm(action)
            &&& forall|u: u32|
                after.reach.beyond.contains(u) <==> found.contains(u) && !held.contains(u)
            &&& after.reach.beyond.no_duplicates()
            &&& partial ==> after.status == (if action is TrashAfterUnsub {
                app.told() + " — "@ + partial_note(after.reach.beyond.len())
            } else {
                partial_note(after.reach.beyond.len())
            })
            &&& after.reach.partial == partial
            &&& after.acct().connected
        }),
{
    let held = uids_at(app.acct().stacks, action.idxs());
    lemma_ascending(found);
    lemma_not_in(ascending(found), held);
    lemma_not_in_increasing(ascending(found), held);
}

/// After a search, an action reaches all of the senders' mail: `y` moves the
/// messages in view and everything that was found, and nothing else.
pub proof fn an_action_reaches_everything_that_was_found(
    app: AppV,
    key: KeyEvent,
    action: PendingV,
    found: Seq<u32>,
    partial: bool,
)
    requires
        app.wf(),
        !(action is Unsubscribe),
        key.code == KeyCode::Char('y') || key.code == KeyCode::Char('Y'),
    ensures
        ({
            let held = uids_at(app.acct().stacks, action.idxs());
            app.fanned_out(action, found, partial, None).confirm(key).1 matches Some(
                JobV::Imap { uids, .. },
            ) && forall|u: u32| uids.contains(u) <==> held.contains(u) || found.contains(u)
        }),
{
    let asked = app.fanned_out(action, found, partial, None);
    let held = uids_at(app.acct().stacks, action.idxs());
    let beyond = asked.reach.beyond;
    a_search_leads_to_the_question(app, action, found, partial);
    the_number_confirmed_is_the_number_that_moves(asked, key, action);
    assert(asked.acct().stacks == app.acct().stacks);
    let all = held + beyond;
    assert forall|u: u32| all.contains(u) <==> held.contains(u) || found.contains(u) by {
        if held.contains(u) {
            let i = choose|i: int| 0 <= i < held.len() && held[i] == u;
            assert(all[i] == u);
        }
        if beyond.contains(u) {
            let i = choose|i: int| 0 <= i < beyond.len() && beyond[i] == u;
            assert(all[held.len() + i] == u);
        }
        if all.contains(u) {
            let i = choose|i: int| 0 <= i < all.len() && all[i] == u;
            if i < held.len() {
                assert(held[i] == u);
            } else {
                assert(beyond[i - held.len()] == u);
            }
        }
    }
}

/// A search for several senders ends only once every one of them was asked
/// about, unless the session died over it. A refusal never goes unsaid.
pub proof fn a_search_asks_about_every_sender(g: GatherV)
    requires
        g.wf(),
        g.error is None,
        g.tidied().ask() is None,
    ensures
        g.tidied().at == g.senders.len(),
        g.walk matches Some(w) ==> !w.complete ==> g.tidied().partial,
{
}

proof fn lemma_not_in_increasing(s: Seq<u32>, held: Seq<u32>)
    requires
        increasing(s),
    ensures
        not_in(s, held).no_duplicates(),
        forall|k: int|
            0 <= k < not_in(s, held).len() ==> s.contains(#[trigger] not_in(s, held)[k]),
    decreases s.len(),
{
    if s.len() > 0 {
        let front = s.drop_last();
        let kept = not_in(front, held);
        let all = not_in(s, held);
        assert forall|i: int, j: int| 0 <= i < j < front.len() implies #[trigger] front[i]
            < #[trigger] front[j] by {
            assert(front[i] == s[i] && front[j] == s[j]);
        }
        lemma_not_in_increasing(front, held);
        assert forall|k: int| 0 <= k < all.len() implies s.contains(#[trigger] all[k]) by {
            if k < kept.len() {
                assert(all[k] == kept[k]);
                assert(front.contains(kept[k]));
                let i = choose|i: int| 0 <= i < front.len() && front[i] == kept[k];
                assert(s[i] == all[k]);
            } else {
                assert(s[s.len() - 1] == all[k]);
            }
        }
        assert forall|i: int, j: int| 0 <= i < all.len() && 0 <= j < all.len() && i != j implies all[i]
            != all[j] by {
            let (a, b) = if i < j {
                (i, j)
            } else {
                (j, i)
            };
            if b < kept.len() {
                assert(kept[a] != kept[b]);
            } else {
                assert(all[a] == kept[a]);
                assert(front.contains(kept[a]));
                let q = choose|q: int| 0 <= q < front.len() && front[q] == kept[a];
                assert(s[q] < s[s.len() - 1]);
            }
        }
    }
}

// ---------------------------------------------------------------------------
// windows
// ---------------------------------------------------------------------------

/// A sweep that never reached the mailbox knows nothing about it: stacks,
/// counts and cursor are what they were.
pub proof fn an_unanchored_sweep_changes_no_window(
    a: AccountV,
    filter: Seq<char>,
    by: GroupBy,
    order: SortBy,
    connected: bool,
    password: Option<Seq<char>>,
    kind: Load,
    sweep: SweepV,
)
    requires
        !sweep.anchored,
    ensures
        ({
            let after = a.swept(filter, by, order, connected, password, kind, sweep);
            &&& after.stacks == a.stacks
            &&& after.total == a.total
            &&& after.back == a.back
            &&& after.reached_end == a.reached_end
            &&& after.loaded == a.loaded
            &&& after.selected == a.selected
            &&& after.marked == a.marked
        }),
{
}

/// A sweep that reached the mailbox moves the window by what it actually swept
/// — not by what it set out to sweep — so that the next one fills the hole
/// before it advances. Whether or not it failed, what it read is kept.
pub proof fn a_window_moves_by_what_was_swept(
    a: AccountV,
    filter: Seq<char>,
    by: GroupBy,
    order: SortBy,
    connected: bool,
    password: Option<Seq<char>>,
    kind: Load,
    sweep: SweepV,
)
    requires
        sweep.anchored,
    ensures
        ({
            let after = a.swept(filter, by, order, connected, password, kind, sweep);
            &&& after.back == a.back + sweep.swept
            &&& after.total == sweep.total
            &&& after.reached_end == sweep.reached_end
            &&& after.loaded
            &&& sweep.swept > 0 ==> after.stacks == stacks_from(
                first_of_each(all_messages(a.stacks) + sweep.msgs),
                by,
                order,
            )
            &&& sweep.swept == 0 ==> after.stacks == a.stacks
            &&& kind == Load::Reset ==> after.selected == 0
        }),
{
}

proof fn lemma_first_of_each(ms: Seq<MsgV>)
    ensures
        uids_of(first_of_each(ms)).no_duplicates(),
        forall|u: u32| uids_of(first_of_each(ms)).contains(u) <==> uids_of(ms).contains(u),
        forall|k: int|
            0 <= k < first_of_each(ms).len() ==> ms.contains(#[trigger] first_of_each(ms)[k]),
    decreases ms.len(),
{
    if ms.len() > 0 {
        let front = ms.drop_last();
        let kept = first_of_each(front);
        let all = first_of_each(ms);
        let last = ms.last();
        lemma_first_of_each(front);
        assert(uids_of(ms).drop_last() =~= uids_of(front));
        assert forall|u: u32| uids_of(all).contains(u) <==> uids_of(ms).contains(u) by {
            lemma_contains_last(uids_of(ms), u);
            if !uids_of(front).contains(last.uid) {
                assert(uids_of(all).drop_last() =~= uids_of(kept));
                lemma_contains_last(uids_of(all), u);
            }
        }
        assert forall|k: int| 0 <= k < all.len() implies ms.contains(#[trigger] all[k]) by {
            if k < kept.len() {
                assert(all[k] == kept[k]);
                assert(front.contains(kept[k]));
                let i = choose|i: int| 0 <= i < front.len() && front[i] == kept[k];
                assert(ms[i] == all[k]);
            } else {
                assert(ms[ms.len() - 1] == all[k]);
            }
        }
        if !uids_of(front).contains(last.uid) {
            let us = uids_of(all);
            assert(us =~= uids_of(kept).push(last.uid));
            assert(!uids_of(kept).contains(last.uid));
            assert forall|i: int, j: int| 0 <= i < us.len() && 0 <= j < us.len() && i != j implies us[i]
                != us[j] by {
                if i < kept.len() && j < kept.len() {
                    assert(uids_of(kept)[i] != uids_of(kept)[j]);
                } else if i < kept.len() {
                    assert(uids_of(kept).contains(uids_of(kept)[i]));
                } else {
                    assert(uids_of(kept).contains(uids_of(kept)[j]));
                }
            }
        }
    }
}

proof fn lemma_first_wins(ms: Seq<MsgV>, n: int)
    requires
        0 <= n <= ms.len(),
        uids_of(ms.take(n)).no_duplicates(),
    ensures
        first_of_each(ms).len() >= n,
        first_of_each(ms).take(n) == ms.take(n),
    decreases ms.len(),
{
    if ms.len() == 0 {
        assert(first_of_each(ms).take(n) =~= ms.take(n));
    } else if n < ms.len() {
        let front = ms.drop_last();
        assert(front.take(n) =~= ms.take(n));
        lemma_first_wins(front, n);
        assert(first_of_each(ms).take(n) =~= first_of_each(front).take(n));
    } else {
        let front = ms.drop_last();
        let last = ms.len() - 1;
        assert(ms.take(n) =~= ms);
        let us = uids_of(ms);
        assert(uids_of(front.take(n - 1)).no_duplicates()) by {
            assert(front.take(n - 1) =~= front);
            assert forall|i: int, j: int|
                0 <= i < front.len() && 0 <= j < front.len() && i != j implies uids_of(front)[i]
                != uids_of(front)[j] by {
                assert(us[i] != us[j]);
            }
        }
        lemma_first_wins(front, n - 1);
        assert(front.take(n - 1) =~= front);
        if uids_of(front).contains(ms.last().uid) {
            let i = choose|i: int| 0 <= i < front.len() && uids_of(front)[i] == ms.last().uid;
            assert(us[i] == us[last]);
        }
        lemma_first_shorter(front);
        assert(first_of_each(front).take(n - 1) =~= first_of_each(front));
        assert(first_of_each(ms) =~= ms);
        assert(first_of_each(ms).take(n) =~= ms.take(n));
    }
}

proof fn lemma_first_shorter(ms: Seq<MsgV>)
    ensures
        first_of_each(ms).len() <= ms.len(),
    decreases ms.len(),
{
    if ms.len() > 0 {
        lemma_first_shorter(ms.drop_last());
    }
}

/// A message swept twice lands once: after a window is folded in, no two
/// messages share a UID, every UID of the old stacks and of the window is
/// there, and a message already held wins over the repeat.
pub proof fn a_message_swept_twice_lands_once(
    a: AccountV,
    ms: Seq<MsgV>,
    by: GroupBy,
    order: SortBy,
)
    ensures
        ({
            let held = all_messages(a.stacks);
            let after = all_messages(a.absorbed(ms, by, order).stacks);
            &&& forall|m: MsgV, n: MsgV|
                #![trigger after.contains(m), after.contains(n)]
                after.contains(m) && after.contains(n) && m.uid == n.uid ==> m == n
            &&& after.len() == first_of_each(held + ms).len()
            &&& uids_of(first_of_each(held + ms)).no_duplicates()
            &&& forall|u: u32|
                uids_of(first_of_each(held + ms)).contains(u) <==> uids_of(held).contains(u)
                    || uids_of(ms).contains(u)
            &&& uids_of(held).no_duplicates() ==> forall|m: MsgV|
                held.contains(m) ==> #[trigger] after.contains(m)
        }),
{
    broadcast use vstd::seq_lib::group_to_multiset_ensures;

    let held = all_messages(a.stacks);
    let all = held + ms;
    let kept = first_of_each(all);
    let after = all_messages(a.absorbed(ms, by, order).stacks);
    lemma_first_of_each(all);
    stacks_hold_every_message(kept, by, order);
    assert(uids_of(all) =~= uids_of(held) + uids_of(ms));
    assert forall|u: u32|
        uids_of(kept).contains(u) <==> uids_of(held).contains(u) || uids_of(ms).contains(u) by {
        if uids_of(held).contains(u) {
            let i = choose|i: int| 0 <= i < held.len() && uids_of(held)[i] == u;
            assert(uids_of(all)[i] == u);
        }
        if uids_of(ms).contains(u) {
            let i = choose|i: int| 0 <= i < ms.len() && uids_of(ms)[i] == u;
            assert(uids_of(all)[held.len() + i] == u);
        }
        if uids_of(all).contains(u) {
            let i = choose|i: int| 0 <= i < all.len() && uids_of(all)[i] == u;
            if i < held.len() {
                assert(uids_of(held)[i] == u);
            } else {
                assert(uids_of(ms)[i - held.len()] == u);
            }
        }
    }
    assert forall|m: MsgV| after.contains(m) <==> kept.contains(m) by {
        assert(after.contains(m) <==> after.to_multiset().count(m) > 0);
        assert(kept.contains(m) <==> kept.to_multiset().count(m) > 0);
    }
    assert forall|m: MsgV, n: MsgV|
        #![trigger after.contains(m), after.contains(n)]
        after.contains(m) && after.contains(n) && m.uid == n.uid implies m == n by {
        assert(kept.contains(m) && kept.contains(n));
        let i = choose|i: int| 0 <= i < kept.len() && kept[i] == m;
        let j = choose|j: int| 0 <= j < kept.len() && kept[j] == n;
        assert(uids_of(kept)[i] == uids_of(kept)[j]);
    }
    if uids_of(held).no_duplicates() {
        assert(all.take(held.len() as int) =~= held);
        lemma_first_wins(all, held.len() as int);
        assert forall|m: MsgV| held.contains(m) implies #[trigger] after.contains(m) by {
            let i = choose|i: int| 0 <= i < held.len() && held[i] == m;
            assert(kept.take(held.len() as int)[i] == m);
            assert(kept[i] == m);
            assert(kept.contains(m));
        }
    }
}

/// Regrouping moves messages between stacks and does nothing else to them; it
/// forgets what was seen, so that nothing is kept twice, and remembers what was
/// acted on.
pub proof fn regrouping_keeps_the_messages(a: AccountV, by: GroupBy, order: SortBy)
    ensures
        all_messages(a.regrouped(by, order).stacks).to_multiset() == all_messages(
            a.stacks,
        ).to_multiset(),
        a.regrouped(by, order).seen.len() == 0,
        a.regrouped(by, order).keeps().len() == 0,
        a.regrouped(by, order).acted == a.acted,
        a.regrouped(by, order).total == a.total,
        a.regrouped(by, order).back == a.back,
{
    stacks_hold_every_message(all_messages(a.stacks), by, order);
    sorting_orders_and_permutes::<SnapV, BySender>(untouched(Seq::empty(), a.acted));
}

/// Mail that was trashed or archived pulls the window back by as many messages
/// as it takes off the mailbox total; mail beyond the window counts for the
/// total only.
pub proof fn trashing_pulls_the_window_back(a: AccountV, idxs: Seq<int>, beyond: nat)
    ensures
        ({
            let gone = uids_at(a.stacks, idxs).to_set().len();
            let after = a.pruned(idxs, beyond);
            &&& gone + beyond <= a.total ==> after.total == a.total - gone - beyond
            &&& gone <= a.back ==> after.back == a.back - gone
            &&& beyond == 0 && gone <= a.back <= a.total ==> after.total - after.back == a.total
                - a.back
        }),
{
}

/// Nothing renders while a sweep runs: a chunk moves the alert, and nothing
/// else.
pub proof fn a_chunk_moves_only_the_alert(app: AppV, p: SweepProgress)
    ensures
        app.progressed(p) == (AppV { alert: app.progressed(p).alert, ..app }),
        app.alert matches Some(AlertV::Sweeping { starting, .. }) ==> app.progressed(p).alert
            == Some(AlertV::Sweeping { starting, progress: Some(p) }),
{
}

// ---------------------------------------------------------------------------
// the cursor
// ---------------------------------------------------------------------------

proof fn lemma_row_of_found(stacks: Seq<StackV>, rows: Seq<int>, key: Seq<char>)
    ensures
        0 <= row_of(stacks, rows, key) <= rows.len(),
        row_of(stacks, rows, key) < rows.len() ==> stacks[rows[row_of(
            stacks,
            rows,
            key,
        )]].key == key,
        row_of(stacks, rows, key) == rows.len() ==> forall|j: int|
            0 <= j < rows.len() ==> stacks[#[trigger] rows[j]].key != key,
    decreases rows.len(),
{
    if rows.len() > 0 && stacks[rows[0]].key != key {
        let rest = rows.skip(1);
        lemma_row_of_found(stacks, rest, key);
        if row_of(stacks, rest, key) == rest.len() {
            assert forall|j: int| 0 <= j < rows.len() implies stacks[#[trigger] rows[j]].key
                != key by {
                if j > 0 {
                    assert(rest[j - 1] == rows[j]);
                }
            }
        }
    }
}

/// The cursor follows its stack by key, wherever a rebuild moved it: as long as
/// a visible row has the key, that is the row the cursor is on.
pub proof fn the_cursor_follows_its_stack(a: AccountV, filter: Seq<char>, key: Seq<char>)
    requires
        exists|j: int|
            0 <= j < a.visible(filter).len() && a.stacks[#[trigger] a.visible(filter)[j]].key
                == key,
    ensures
        a.following(filter, Some(key)).selected_key(filter) == Some(key),
{
    lemma_row_of_found(a.stacks, a.visible(filter), key);
    let after = a.following(filter, Some(key));
    assert(after.visible(filter) == a.visible(filter));
}

/// Widening the window keeps the cursor on the stack it was on, as long as
/// that stack can still be seen.
pub proof fn widening_keeps_the_cursor_on_its_stack(
    a: AccountV,
    filter: Seq<char>,
    by: GroupBy,
    order: SortBy,
    connected: bool,
    password: Option<Seq<char>>,
    sweep: SweepV,
    key: Seq<char>,
)
    requires
        sweep.anchored,
        a.selected_key(filter) == Some(key),
        ({
            let after = a.swept(filter, by, order, connected, password, Load::More, sweep);
            exists|j: int|
                0 <= j < after.visible(filter).len()
                    && after.stacks[#[trigger] after.visible(filter)[j]].key == key
        }),
    ensures
        a.swept(filter, by, order, connected, password, Load::More, sweep).selected_key(filter)
            == Some(key),
{
    let folded = a.knowing(connected, password).anchored(sweep).folded(sweep, by, order);
    let after = a.swept(filter, by, order, connected, password, Load::More, sweep);
    assert(after == folded.following(filter, Some(key)));
    assert(after.visible(filter) == folded.visible(filter));
    let j = choose|j: int|
        0 <= j < after.visible(filter).len() && after.stacks[#[trigger] after.visible(filter)[j]].key
            == key;
    assert(folded.stacks[folded.visible(filter)[j]].key == key);
    the_cursor_follows_its_stack(folded, filter, key);
}

/// The cursor stays on a row that exists: after a removal, a move or a follow,
/// it points at a row whenever there is one.
pub proof fn the_cursor_stays_on_a_row(
    a: AccountV,
    filter: Seq<char>,
    key: Option<Seq<char>>,
    idxs: Seq<int>,
    delta: int,
    rows: nat,
)
    ensures
        a.visible(filter).len() > 0 ==> a.following(filter, key).selected < a.visible(
            filter,
        ).len(),
        a.removed(idxs).stacks.len() > 0 ==> a.removed(idxs).selected < a.removed(
            idxs,
        ).stacks.len(),
        rows > 0 ==> a.moved(delta, rows).selected < rows,
        rows > 0 ==> a.jumped(a.selected, rows).selected < rows,
{
    match key {
        Some(k) => lemma_row_of_found(a.stacks, a.visible(filter), k),
        None => {},
    }
}

// ---------------------------------------------------------------------------
// keeps
// ---------------------------------------------------------------------------

/// These features are those of a stack that was seen and not acted on.
pub open spec fn left_alone(seen: Seq<SeenV>, acted: Set<u32>, s: SnapV) -> bool {
    exists|i: int|
        0 <= i < seen.len() && (#[trigger] seen[i]).snap == s && !touched(seen[i], acted)
}

proof fn lemma_untouched(seen: Seq<SeenV>, acted: Set<u32>)
    ensures
        forall|s: SnapV|
            #[trigger] untouched(seen, acted).contains(s) <==> left_alone(seen, acted, s),
    decreases seen.len(),
{
    if seen.len() > 0 {
        let front = seen.drop_last();
        lemma_untouched(front, acted);
        assert forall|s: SnapV|
            #[trigger] untouched(seen, acted).contains(s) <==> left_alone(seen, acted, s) by {
            let n = seen.len() - 1;
            if untouched(seen, acted).contains(s) {
                if touched(seen.last(), acted) {
                    assert(untouched(front, acted).contains(s));
                } else {
                    assert(untouched(seen, acted).drop_last() =~= untouched(front, acted));
                    lemma_contains_last(untouched(seen, acted), s);
                }
                if untouched(front, acted).contains(s) {
                    let i = choose|i: int|
                        0 <= i < front.len() && (#[trigger] front[i]).snap == s && !touched(
                            front[i],
                            acted,
                        );
                    assert(seen[i].snap == s && !touched(seen[i], acted));
                } else {
                    assert(seen[n].snap == s && !touched(seen[n], acted));
                }
            }
            if left_alone(seen, acted, s) {
                let i = choose|i: int|
                    0 <= i < seen.len() && (#[trigger] seen[i]).snap == s && !touched(
                        seen[i],
                        acted,
                    );
                if i < n {
                    assert(front[i].snap == s && !touched(front[i], acted));
                    assert(untouched(front, acted).contains(s));
                }
                if !touched(seen.last(), acted) {
                    assert(untouched(seen, acted).drop_last() =~= untouched(front, acted));
                    lemma_contains_last(untouched(seen, acted), s);
                }
            }
        }
    }
}

/// The keeps are what was seen minus what was acted on: a stack is logged as
/// kept exactly when it was on screen and none of its messages was decided on,
/// under whatever grouping.
pub proof fn keeps_are_seen_minus_acted(a: AccountV)
    ensures
        forall|s: SnapV|
            #[trigger] a.keeps().contains(s) <==> left_alone(a.seen, a.acted, s),
        a.keeps().len() <= a.seen.len(),
{
    broadcast use vstd::seq_lib::group_to_multiset_ensures;

    let u = untouched(a.seen, a.acted);
    sorting_orders_and_permutes::<SnapV, BySender>(u);
    lemma_untouched(a.seen, a.acted);
    lemma_untouched_len(a.seen, a.acted);
    assert forall|s: SnapV| #[trigger] a.keeps().contains(s) <==> left_alone(
        a.seen,
        a.acted,
        s,
    ) by {
        assert(a.keeps().contains(s) <==> a.keeps().to_multiset().count(s) > 0);
        assert(u.contains(s) <==> u.to_multiset().count(s) > 0);
    }
}

proof fn lemma_untouched_len(seen: Seq<SeenV>, acted: Set<u32>)
    ensures
        untouched(seen, acted).len() <= seen.len(),
    decreases seen.len(),
{
    if seen.len() > 0 {
        lemma_untouched_len(seen.drop_last(), acted);
    }
}

/// No two of the stacks that were seen have the same key.
pub open spec fn one_each(seen: Seq<SeenV>) -> bool {
    forall|i: int, j: int|
        0 <= i < j < seen.len() ==> (#[trigger] seen[i]).key != (#[trigger] seen[j]).key
}

proof fn lemma_seen_found(seen: Seq<SeenV>, key: Seq<char>)
    ensures
        0 <= seen_at(seen, key) <= seen.len(),
        seen_at(seen, key) < seen.len() ==> seen[seen_at(seen, key)].key == key,
        seen_at(seen, key) == seen.len() ==> forall|j: int|
            0 <= j < seen.len() ==> (#[trigger] seen[j]).key != key,
    decreases seen.len(),
{
    if seen.len() > 0 && seen[0].key != key {
        let rest = seen.skip(1);
        lemma_seen_found(rest, key);
        if seen_at(rest, key) == rest.len() {
            assert forall|j: int| 0 <= j < seen.len() implies (#[trigger] seen[j]).key != key by {
                if j > 0 {
                    assert(rest[j - 1] == seen[j]);
                }
            }
        }
    }
}

proof fn lemma_seen_first(seen: Seq<SeenV>, key: Seq<char>, p: int)
    requires
        0 <= p < seen.len(),
        seen[p].key == key,
        forall|j: int| 0 <= j < p ==> (#[trigger] seen[j]).key != key,
    ensures
        seen_at(seen, key) == p,
    decreases p,
{
    if p > 0 {
        assert(seen[0].key != key);
        let rest = seen.skip(1);
        assert forall|j: int| 0 <= j < p - 1 implies (#[trigger] rest[j]).key != key by {
            assert(rest[j] == seen[j + 1]);
        }
        lemma_seen_first(rest, key, p - 1);
    }
}

/// A stack is remembered once, however often it is on screen, and its features
/// are those of the first sighting until it has grown.
pub proof fn a_second_sighting_changes_nothing(
    seen: Seq<SeenV>,
    s: StackV,
    first: Timestamp,
    later: Timestamp,
)
    requires
        one_each(seen),
    ensures
        saw(saw(seen, s, first), s, later) == saw(seen, s, first),
        one_each(saw(seen, s, first)),
{
    lemma_seen_found(seen, s.key);
    let p = seen_at(seen, s.key);
    let once = saw(seen, s, first);
    if p == seen.len() {
        lemma_seen_first(once, s.key, p);
    } else {
        assert forall|j: int| 0 <= j < p implies (#[trigger] once[j]).key != s.key by {
            assert(seen[j].key != seen[p].key);
        }
        lemma_seen_first(once, s.key, p);
    }
}

// ---------------------------------------------------------------------------
// unsubscribing
// ---------------------------------------------------------------------------

/// What unsubscribing came to stays on screen. The status tells it when the
/// last attempt is settled, and still begins with it under the question: where
/// that is asked at once, and where a search comes before it, whatever was said
/// while the search ran and however it ended.
pub proof fn the_outcome_of_unsubscribing_stays_on_screen(
    app: AppV,
    done: TaskDone,
    at: Timestamp,
    said: Seq<char>,
    searched: TaskDone,
    later: Timestamp,
)
    requires
        app.wf(),
        app.done_fits(done),
        done is Unsub,
        searched matches TaskDone::FannedOut { action, .. } && action@ is TrashAfterUnsub,
    ensures
        ({
            let (after, job) = app.finished(done, at);
            let line = match done {
                TaskDone::Unsub { stack_idxs, ok_idxs, failed, last } => unsub_line(
                    stack_idxs@.len(),
                    ok_idxs@.len(),
                    failed as nat,
                    last@,
                ),
                _ => Seq::empty(),
            };
            &&& after.status == line
            &&& begins(after.finished(searched, later).0.status, line)
            &&& job is Some ==> begins(
                AppV { status: said, ..after }.finished(searched, later).0.status,
                line,
            )
        }),
{
    let (after, job) = app.finished(done, at);
    let line = after.status;
    assert(begins(line, line)) by {
        assert(line.take(line.len() as int) =~= line);
    }
    if let TaskDone::FannedOut { action, found, partial, error } = searched {
        let told = AppV { status: said, ..after };
        lemma_search_keeps_what_was_told(after.idle(), action@, found@, partial, error);
        lemma_search_keeps_what_was_told(told.idle(), action@, found@, partial, error);
    }
}

proof fn lemma_search_keeps_what_was_told(
    app: AppV,
    action: PendingV,
    found: Seq<u32>,
    partial: bool,
    error: Option<MailError>,
)
    requires
        action is TrashAfterUnsub,
    ensures
        begins(app.fanned_out(action, found, partial, error).status, app.told()),
{
    let line = app.told();
    let after = app.fanned_out(action, found, partial, error).status;
    assert(after.take(line.len() as int) =~= line);
}

/// Unsubscribing accounts for every stack: once all are settled, each one
/// either worked or failed.
pub proof fn every_unsubscribe_is_accounted_for(run: UnsubRunV)
    requires
        run.wf(),
        run.at == run.jobs.len(),
    ensures
        run.ok.len() + run.failed == run.jobs.len(),
{
}

} // verus!
