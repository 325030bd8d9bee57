//! One account: its stacks, its window, its marks, and what was seen of it.
use crate::action_log::{snapshot, BySender, SnapV, StackSnapshot};
use crate::clock::Timestamp;
use crate::config::{AccountConfig, AccountConfigV};
use crate::imap_client::{Sweep, SweepV};
use crate::sort::{lemma_sorted_views, sort, sorted, views};
use crate::stacks::{
    all_messages, any_unsubscribe, build_stacks, opt_text, sort_stacks,
    sorting_stacks_keeps_messages, stacks_are_proper, stacks_from, stacks_hold_every_message,
    stacks_sorted, uids_of, unread_in, GroupBy, MsgMeta, MsgV, SortBy, Stack, StackV,
};
use crate::text::{lowercase, occurs, str_contains, to_lower};
use crate::ui::jobs::Load;
use crate::ui::list_laws::the_filter_looks_at_key_name_and_subject;
use std::collections::HashSet;
use vstd::hash_set::StringHashSet;
use vstd::prelude::*;
use vstd::string::*;

verus! {

/// A stack as it was when first rendered.
pub struct SeenStack {
    pub key: String,
    pub snap: StackSnapshot,
    /// the messages it was made of, for testing against what was acted on
    pub uids: Vec<u32>,
}

/// The value of a `SeenStack`.
pub struct SeenV {
    pub key: Seq<char>,
    pub snap: SnapV,
    pub uids: Seq<u32>,
}

impl View for SeenStack {
    type V = SeenV;

    open spec fn view(&self) -> SeenV {
        SeenV { key: self.key@, snap: self.snap@, uids: self.uids@ }
    }
}

/// What the application knows of one account.
pub struct AccountView {
    pub cfg: AccountConfig,
    pub password: Option<String>,
    /// a session is open and no task has it
    pub connected: bool,
    pub stacks: Vec<Stack>,
    /// the cursor: a row of the visible list
    pub selected: usize,
    pub loaded: bool,
    /// every message in INBOX, from the last sweep's `EXISTS`
    pub total: usize,
    /// How far back from the newest message the window reaches — the count the
    /// next sweep starts behind. Not a UID: sequence numbers are renumbered by
    /// every arrival and every move, so the window is a distance from the top
    /// and is re-anchored off a fresh `EXISTS` each sweep.
    pub back: usize,
    /// the window has reached the oldest message in the mailbox
    pub reached_end: bool,
    /// senders whose fan-out the server refused, so that only part of their
    /// mail is known
    pub partial_senders: StringHashSet,
    /// stack keys marked for bulk actions
    pub marked: StringHashSet,
    /// Stacks rendered on screen under the *current* grouping, features frozen
    /// at first sighting. Cleared when the grouping changes: a stack is a
    /// different object under a different grouping, and keeping both would
    /// emit two "keep" rows for the same messages.
    pub seen: Vec<SeenStack>,
    /// uids acted on this session, excluded from "keep" at quit. Keyed by uid
    /// rather than stack key so the exclusion survives regrouping.
    pub acted: HashSet<u32>,
}

/// The value of an `AccountView`.
pub struct AccountV {
    pub cfg: AccountConfigV,
    pub password: Option<Seq<char>>,
    pub connected: bool,
    pub stacks: Seq<StackV>,
    pub selected: nat,
    pub loaded: bool,
    pub total: nat,
    pub back: nat,
    pub reached_end: bool,
    pub partial_senders: Set<Seq<char>>,
    pub marked: Set<Seq<char>>,
    pub seen: Seq<SeenV>,
    pub acted: Set<u32>,
}

impl View for AccountView {
    type V = AccountV;

    open spec fn view(&self) -> AccountV {
        AccountV {
            cfg: self.cfg@,
            password: opt_text(self.password),
            connected: self.connected,
            stacks: views(self.stacks@),
            selected: self.selected as nat,
            loaded: self.loaded,
            total: self.total as nat,
            back: self.back as nat,
            reached_end: self.reached_end,
            partial_senders: self.partial_senders@,
            marked: self.marked@,
            seen: views(self.seen@),
            acted: self.acted@,
        }
    }
}

/// Indices as integers.
pub open spec fn ints(s: Seq<usize>) -> Seq<int> {
    Seq::new(s.len(), |i: int| s[i] as int)
}

/// Every index is one of `n` things.
pub open spec fn below(idxs: Seq<int>, n: nat) -> bool {
    forall|k: int| 0 <= k < idxs.len() ==> 0 <= #[trigger] idxs[k] < n
}

/// Every index is larger than the one before it.
pub open spec fn rising(idxs: Seq<int>) -> bool {
    forall|j: int, k: int| 0 <= j < k < idxs.len() ==> #[trigger] idxs[j] < #[trigger] idxs[k]
}

/// The stack shows this text: in its key, its name or its subject. `needle` is
/// lowercased.
pub open spec fn shows(s: StackV, needle: Seq<char>) -> bool {
    ||| occurs(s.key, needle)
    ||| occurs(lowercase(s.display_name), needle)
    ||| (s.subject matches Some(subject) && occurs(lowercase(subject), needle))
}

/// The indices of the stacks that show a text.
pub open spec fn showing(stacks: Seq<StackV>, needle: Seq<char>) -> Seq<int>
    decreases stacks.len(),
{
    if stacks.len() == 0 {
        Seq::empty()
    } else if shows(stacks.last(), needle) {
        showing(stacks.drop_last(), needle).push(stacks.len() - 1)
    } else {
        showing(stacks.drop_last(), needle)
    }
}

/// The indices of the marked stacks.
pub open spec fn marked_rows(stacks: Seq<StackV>, marked: Set<Seq<char>>) -> Seq<int>
    decreases stacks.len(),
{
    if stacks.len() == 0 {
        Seq::empty()
    } else if marked.contains(stacks.last().key) {
        marked_rows(stacks.drop_last(), marked).push(stacks.len() - 1)
    } else {
        marked_rows(stacks.drop_last(), marked)
    }
}

/// Where the row of the stack with this key stands among the visible rows;
/// the number of rows when it is not there.
pub open spec fn row_of(stacks: Seq<StackV>, rows: Seq<int>, key: Seq<char>) -> int
    decreases rows.len(),
{
    if rows.len() == 0 || stacks[rows[0]].key == key {
        0
    } else {
        1 + row_of(stacks, rows.skip(1), key)
    }
}

/// Messages with those left out that repeat the UID of an earlier one.
pub open spec fn first_of_each(ms: Seq<MsgV>) -> Seq<MsgV>
    decreases ms.len(),
{
    if ms.len() == 0 {
        ms
    } else if uids_of(ms.drop_last()).contains(ms.last().uid) {
        first_of_each(ms.drop_last())
    } else {
        first_of_each(ms.drop_last()).push(ms.last())
    }
}

/// The UIDs of the stacks at these indices, one after the other.
pub open spec fn uids_at(stacks: Seq<StackV>, idxs: Seq<int>) -> Seq<u32>
    decreases idxs.len(),
{
    if idxs.len() == 0 {
        Seq::empty()
    } else {
        uids_at(stacks, idxs.drop_last()) + uids_of(stacks[idxs.last()].msgs)
    }
}

/// How many messages the stacks at these indices hold.
pub open spec fn count_at(stacks: Seq<StackV>, idxs: Seq<int>) -> nat
    decreases idxs.len(),
{
    if idxs.len() == 0 {
        0
    } else {
        count_at(stacks, idxs.drop_last()) + stacks[idxs.last()].msgs.len()
    }
}

/// The stacks without those at these indices.
pub open spec fn without(stacks: Seq<StackV>, idxs: Seq<int>) -> Seq<StackV>
    decreases stacks.len(),
{
    if stacks.len() == 0 {
        stacks
    } else if idxs.contains(stacks.len() - 1) {
        without(stacks.drop_last(), idxs)
    } else {
        without(stacks.drop_last(), idxs).push(stacks.last())
    }
}

/// The messages, all of them read.
pub open spec fn all_read(ms: Seq<MsgV>) -> Seq<MsgV> {
    Seq::new(ms.len(), |i: int| MsgV { unread: false, ..ms[i] })
}

/// The stack with every message read.
pub open spec fn stack_read(s: StackV) -> StackV {
    StackV { msgs: all_read(s.msgs), unread_count: 0, ..s }
}

/// The stacks with every message read in those at these indices.
pub open spec fn read_at(stacks: Seq<StackV>, idxs: Seq<int>) -> Seq<StackV> {
    Seq::new(
        stacks.len(),
        |i: int|
            if idxs.contains(i) {
                stack_read(stacks[i])
            } else {
                stacks[i]
            },
    )
}

/// Where a key stands among the stacks that were seen; their number when it
/// was not.
pub open spec fn seen_at(seen: Seq<SeenV>, key: Seq<char>) -> int
    decreases seen.len(),
{
    if seen.len() == 0 || seen[0].key == key {
        0
    } else {
        1 + seen_at(seen.skip(1), key)
    }
}

/// What is remembered once a stack was on screen: its features at first
/// sighting, or those of now when it has grown since.
pub open spec fn saw(seen: Seq<SeenV>, s: StackV, now: Timestamp) -> Seq<SeenV> {
    let p = seen_at(seen, s.key);
    let entry = SeenV { key: s.key, snap: snapshot(s, now), uids: uids_of(s.msgs) };
    if p == seen.len() {
        seen.push(entry)
    } else if seen[p].uids.len() < s.msgs.len() {
        seen.update(p, entry)
    } else {
        seen
    }
}

/// What is remembered once the stacks at these indices were on screen.
pub open spec fn saw_all(
    seen: Seq<SeenV>,
    stacks: Seq<StackV>,
    idxs: Seq<int>,
    now: Timestamp,
) -> Seq<SeenV>
    decreases idxs.len(),
{
    if idxs.len() == 0 {
        seen
    } else {
        saw(saw_all(seen, stacks, idxs.drop_last(), now), stacks[idxs.last()], now)
    }
}

/// One of the messages was acted on.
pub open spec fn touched(s: SeenV, acted: Set<u32>) -> bool {
    exists|i: int| 0 <= i < s.uids.len() && acted.contains(#[trigger] s.uids[i])
}

/// The stacks that were seen and not acted on.
pub open spec fn untouched(seen: Seq<SeenV>, acted: Set<u32>) -> Seq<SnapV>
    decreases seen.len(),
{
    if seen.len() == 0 {
        Seq::empty()
    } else if touched(seen.last(), acted) {
        untouched(seen.drop_last(), acted)
    } else {
        untouched(seen.drop_last(), acted).push(seen.last().snap)
    }
}

/// The features of the stacks at these indices.
pub open spec fn snapshots_at(stacks: Seq<StackV>, idxs: Seq<int>, now: Timestamp) -> Seq<SnapV> {
    Seq::new(idxs.len(), |k: int| snapshot(stacks[idxs[k]], now))
}

pub open spec fn minus(a: nat, b: nat) -> nat {
    if a >= b {
        (a - b) as nat
    } else {
        0
    }
}

impl AccountV {
    /// Every stack is well-formed, and the messages can be counted.
    pub open spec fn wf(self) -> bool {
        &&& forall|i: int| 0 <= i < self.stacks.len() ==> (#[trigger] self.stacks[i]).wf()
        &&& all_messages(self.stacks).len() <= usize::MAX
    }

    pub open spec fn fresh(cfg: AccountConfigV) -> AccountV {
        AccountV {
            cfg,
            password: None,
            connected: false,
            stacks: Seq::empty(),
            selected: 0,
            loaded: false,
            total: 0,
            back: 0,
            reached_end: false,
            partial_senders: Set::empty(),
            marked: Set::empty(),
            seen: Seq::empty(),
            acted: Set::empty(),
        }
    }

    /// The rows on screen under a filter, as indices of stacks.
    pub open spec fn visible(self, filter: Seq<char>) -> Seq<int> {
        if filter.len() == 0 {
            Seq::new(self.stacks.len(), |i: int| i)
        } else {
            showing(self.stacks, lowercase(filter))
        }
    }

    /// The stack that the cursor is on.
    pub open spec fn under_cursor(self, filter: Seq<char>) -> Option<int> {
        if self.selected < self.visible(filter).len() {
            Some(self.visible(filter)[self.selected as int])
        } else {
            None
        }
    }

    /// The key of the stack that the cursor is on.
    pub open spec fn selected_key(self, filter: Seq<char>) -> Option<Seq<char>> {
        match self.under_cursor(filter) {
            Some(i) => Some(self.stacks[i].key),
            None => None,
        }
    }

    /// The stacks an action applies to: all marked, else the selected one.
    pub open spec fn targets(self, filter: Seq<char>) -> Seq<int> {
        if self.marked.is_empty() {
            match self.under_cursor(filter) {
                Some(i) => seq![i],
                None => Seq::empty(),
            }
        } else {
            marked_rows(self.stacks, self.marked)
        }
    }

    /// With the cursor on the stack of this key, or else on a row that exists.
    pub open spec fn following(self, filter: Seq<char>, key: Option<Seq<char>>) -> AccountV {
        let rows = self.visible(filter);
        let last = minus(rows.len(), 1);
        let stay = if self.selected <= last {
            self.selected
        } else {
            last
        };
        let selected = match key {
            Some(k) => {
                let row = row_of(self.stacks, rows, k);
                if row < rows.len() {
                    row as nat
                } else {
                    stay
                }
            },
            None => stay,
        };
        AccountV { selected, ..self }
    }

    /// With a window's messages folded in. A message already held wins over
    /// the repeat.
    pub open spec fn absorbed(self, ms: Seq<MsgV>, by: GroupBy, order: SortBy) -> AccountV {
        AccountV {
            stacks: stacks_from(first_of_each(all_messages(self.stacks) + ms), by, order),
            ..self
        }
    }

    /// Grouped in another way, from the messages already held. What was seen
    /// describes stacks that no longer exist; what was acted on is known by
    /// message, and stays.
    pub open spec fn regrouped(self, by: GroupBy, order: SortBy) -> AccountV {
        AccountV {
            stacks: stacks_from(all_messages(self.stacks), by, order),
            selected: 0,
            marked: Set::empty(),
            seen: Seq::empty(),
            ..self
        }
    }

    /// Sorted in another way.
    pub open spec fn resorted(self, order: SortBy) -> AccountV {
        AccountV { stacks: stacks_sorted(self.stacks, order), selected: 0, ..self }
    }

    /// With the cursor on a row that exists.
    pub open spec fn clamped(self) -> AccountV {
        AccountV {
            selected: if self.selected >= self.stacks.len() {
                minus(self.stacks.len(), 1)
            } else {
                self.selected
            },
            ..self
        }
    }

    /// Without the stacks at these indices, and without marks.
    pub open spec fn removed(self, idxs: Seq<int>) -> AccountV {
        AccountV {
            stacks: without(self.stacks, idxs),
            marked: Set::empty(),
            ..self
        }.clamped()
    }

    /// After the messages of these stacks left the mailbox, and `beyond` more
    /// that the window does not hold.
    pub open spec fn pruned(self, idxs: Seq<int>, beyond: nat) -> AccountV {
        let gone = uids_at(self.stacks, idxs).to_set().len();
        AccountV {
            total: minus(minus(self.total, gone), beyond),
            back: minus(self.back, gone),
            ..self
        }
    }

    /// What a sweep learned of the session.
    pub open spec fn knowing(self, connected: bool, password: Option<Seq<char>>) -> AccountV {
        AccountV {
            connected,
            password: if password is Some {
                password
            } else {
                self.password
            },
            ..self
        }
    }

    /// What a sweep learned of the mailbox's size and of the window's reach.
    pub open spec fn anchored(self, sweep: SweepV) -> AccountV {
        AccountV {
            total: sweep.total,
            back: self.back + sweep.swept,
            reached_end: sweep.reached_end,
            loaded: true,
            ..self
        }
    }

    /// With what a sweep read, if it read anything.
    pub open spec fn folded(self, sweep: SweepV, by: GroupBy, order: SortBy) -> AccountV {
        if sweep.swept > 0 {
            self.absorbed(sweep.msgs, by, order)
        } else {
            self
        }
    }

    /// After a sweep: what it learned of the session, and of the mailbox if it
    /// reached it. One that never reached its `EXISTS` knows nothing of the
    /// mailbox.
    pub open spec fn swept(
        self,
        filter: Seq<char>,
        by: GroupBy,
        order: SortBy,
        connected: bool,
        password: Option<Seq<char>>,
        kind: Load,
        sweep: SweepV,
    ) -> AccountV {
        let known = self.knowing(connected, password);
        if !sweep.anchored {
            known
        } else {
            let landed = known.anchored(sweep).folded(sweep, by, order);
            match kind {
                Load::Reset => AccountV { selected: 0, ..landed },
                Load::More => landed.following(filter, self.selected_key(filter)),
            }
        }
    }

    /// With the window thrown away, to be swept again from the top. What was
    /// seen stays: the grouping does, so it still describes the same stacks.
    pub open spec fn reset(self) -> AccountV {
        AccountV {
            stacks: Seq::empty(),
            total: 0,
            back: 0,
            reached_end: false,
            partial_senders: Set::empty(),
            marked: Set::empty(),
            selected: 0,
            loaded: false,
            ..self
        }
    }

    /// With the stacks at these indices read, and without marks.
    pub open spec fn marked_read(self, idxs: Seq<int>) -> AccountV {
        AccountV { stacks: read_at(self.stacks, idxs), marked: Set::empty(), ..self }
    }

    /// With the cursor moved by some rows, as far as there are rows.
    pub open spec fn moved(self, delta: int, rows: nat) -> AccountV {
        let to = self.selected + delta;
        AccountV {
            selected: if rows == 0 {
                self.selected
            } else if to < 0 {
                0
            } else if to >= rows {
                (rows - 1) as nat
            } else {
                to as nat
            },
            ..self
        }
    }

    /// With the cursor on a row, or on the last one.
    pub open spec fn jumped(self, to: nat, rows: nat) -> AccountV {
        let last = minus(rows, 1);
        AccountV {
            selected: if to <= last {
                to
            } else {
                last
            },
            ..self
        }
    }

    /// The decisions not to act, at the end of the session.
    pub open spec fn keeps(self) -> Seq<SnapV> {
        sorted::<SnapV, BySender>(untouched(self.seen, self.acted))
    }
}

// ---------------------------------------------------------------------------
// small facts
// ---------------------------------------------------------------------------

pub proof fn lemma_views_update<A: View>(s: Seq<A>, i: int, a: A)
    requires
        0 <= i < s.len(),
    ensures
        views(s.update(i, a)) == views(s).update(i, a@),
{
    assert(views(s.update(i, a)) =~= views(s).update(i, a@));
}

proof fn lemma_prefix_messages(stacks: Seq<StackV>, i: int)
    requires
        0 <= i <= stacks.len(),
    ensures
        all_messages(stacks.take(i)).len() <= all_messages(stacks).len(),
    decreases stacks.len(),
{
    if i < stacks.len() {
        assert(stacks.drop_last().take(i) =~= stacks.take(i));
        lemma_prefix_messages(stacks.drop_last(), i);
    } else {
        assert(stacks.take(i) =~= stacks);
    }
}

pub proof fn lemma_showing(stacks: Seq<StackV>, needle: Seq<char>)
    ensures
        below(showing(stacks, needle), stacks.len()),
        forall|j: int, k: int|
            0 <= j < k < showing(stacks, needle).len() ==> #[trigger] showing(stacks, needle)[j]
                < #[trigger] showing(stacks, needle)[k],
        showing(stacks, needle).len() <= stacks.len(),
    decreases stacks.len(),
{
    if stacks.len() > 0 {
        lemma_showing(stacks.drop_last(), needle);
    }
}

pub proof fn lemma_marked_rows(stacks: Seq<StackV>, marked: Set<Seq<char>>)
    ensures
        below(marked_rows(stacks, marked), stacks.len()),
        forall|j: int, k: int|
            0 <= j < k < marked_rows(stacks, marked).len() ==> #[trigger] marked_rows(
                stacks,
                marked,
            )[j] < #[trigger] marked_rows(stacks, marked)[k],
    decreases stacks.len(),
{
    if stacks.len() > 0 {
        lemma_marked_rows(stacks.drop_last(), marked);
    }
}

pub proof fn lemma_visible(a: AccountV, filter: Seq<char>)
    ensures
        below(a.visible(filter), a.stacks.len()),
        a.visible(filter).len() <= a.stacks.len(),
        forall|j: int, k: int|
            0 <= j < k < a.visible(filter).len() ==> #[trigger] a.visible(filter)[j]
                < #[trigger] a.visible(filter)[k],
{
    lemma_showing(a.stacks, lowercase(filter));
}

pub proof fn lemma_targets(a: AccountV, filter: Seq<char>)
    ensures
        below(a.targets(filter), a.stacks.len()),
        rising(a.targets(filter)),
        a.wf() ==> count_at(a.stacks, a.targets(filter)) <= usize::MAX,
{
    lemma_visible(a, filter);
    lemma_marked_rows(a.stacks, a.marked);
    lemma_count_bound(a.stacks, a.targets(filter));
}

proof fn lemma_count_same(stacks: Seq<StackV>, idxs: Seq<int>)
    requires
        stacks.len() > 0,
        below(idxs, (stacks.len() - 1) as nat),
    ensures
        count_at(stacks, idxs) == count_at(stacks.drop_last(), idxs),
    decreases idxs.len(),
{
    if idxs.len() > 0 {
        assert(0 <= idxs[idxs.len() - 1] < stacks.len() - 1);
        assert forall|k: int| 0 <= k < idxs.drop_last().len() implies 0 <= #[trigger] idxs.drop_last()[k]
            < stacks.len() - 1 by {
            assert(idxs.drop_last()[k] == idxs[k]);
        }
        lemma_count_same(stacks, idxs.drop_last());
    }
}

/// Stacks that are each named once hold no more messages than there are.
pub proof fn lemma_count_bound(stacks: Seq<StackV>, idxs: Seq<int>)
    requires
        below(idxs, stacks.len()),
        rising(idxs),
    ensures
        count_at(stacks, idxs) <= all_messages(stacks).len(),
    decreases stacks.len(),
{
    if stacks.len() > 0 && idxs.len() > 0 {
        let front = stacks.drop_last();
        let n = idxs.len() - 1;
        if idxs[n] == stacks.len() - 1 {
            let rest = idxs.drop_last();
            assert forall|k: int| 0 <= k < rest.len() implies 0 <= #[trigger] rest[k] < front.len() by {
                assert(rest[k] == idxs[k]);
                assert(idxs[k] < idxs[n]);
            }
            assert(rising(rest)) by {
                assert forall|j: int, k: int| 0 <= j < k < rest.len() implies #[trigger] rest[j]
                    < #[trigger] rest[k] by {
                    assert(rest[j] == idxs[j] && rest[k] == idxs[k]);
                }
            }
            lemma_count_bound(front, rest);
            lemma_count_same(stacks, rest);
        } else {
            assert forall|k: int| 0 <= k < idxs.len() implies 0 <= #[trigger] idxs[k]
                < front.len() by {
                if k < n {
                    assert(idxs[k] < idxs[n]);
                }
            }
            lemma_count_bound(front, idxs);
            lemma_count_same(stacks, idxs);
        }
    }
}

proof fn lemma_row_of(stacks: Seq<StackV>, rows: Seq<int>, key: Seq<char>, i: int)
    requires
        0 <= i <= rows.len(),
        forall|j: int| 0 <= j < i ==> stacks[#[trigger] rows[j]].key != key,
        i < rows.len() ==> stacks[rows[i]].key == key,
    ensures
        row_of(stacks, rows, key) == i,
    decreases i,
{
    if i > 0 {
        assert(stacks[rows[0]].key != key);
        assert forall|j: int| 0 <= j < i - 1 implies stacks[#[trigger] rows.skip(1)[j]].key
            != key by {
            assert(rows.skip(1)[j] == rows[j + 1]);
        }
        lemma_row_of(stacks, rows.skip(1), key, i - 1);
    }
}

proof fn lemma_seen_at(seen: Seq<SeenV>, key: Seq<char>, i: int)
    requires
        0 <= i <= seen.len(),
        forall|j: int| 0 <= j < i ==> (#[trigger] seen[j]).key != key,
        i < seen.len() ==> seen[i].key == key,
    ensures
        seen_at(seen, key) == i,
    decreases i,
{
    if i > 0 {
        assert(seen[0].key != key);
        assert forall|j: int| 0 <= j < i - 1 implies (#[trigger] seen.skip(1)[j]).key != key by {
            assert(seen.skip(1)[j] == seen[j + 1]);
        }
        lemma_seen_at(seen.skip(1), key, i - 1);
    }
}

proof fn lemma_no_unread(ms: Seq<MsgV>)
    ensures
        unread_in(all_read(ms)) == 0,
    decreases ms.len(),
{
    if ms.len() > 0 {
        assert(all_read(ms).drop_last() =~= all_read(ms.drop_last()));
        lemma_no_unread(ms.drop_last());
    }
}

pub proof fn lemma_stack_read(s: StackV)
    requires
        s.wf(),
    ensures
        stack_read(s).wf(),
        stack_read(stack_read(s)) == stack_read(s),
{
    lemma_no_unread(s.msgs);
    let r = all_read(s.msgs);
    assert(all_read(r) =~= r);
    if any_unsubscribe(s.msgs) {
        let i = choose|i: int| 0 <= i < s.msgs.len() && (#[trigger] s.msgs[i]).list_unsubscribe is Some;
        assert(r[i].list_unsubscribe is Some);
    }
    if any_unsubscribe(r) {
        let i = choose|i: int| 0 <= i < r.len() && (#[trigger] r[i]).list_unsubscribe is Some;
        assert(s.msgs[i].list_unsubscribe is Some);
    }
}

proof fn lemma_read_messages(stacks: Seq<StackV>, idxs: Seq<int>)
    ensures
        all_messages(read_at(stacks, idxs)).len() == all_messages(stacks).len(),
    decreases stacks.len(),
{
    if stacks.len() > 0 {
        assert(read_at(stacks, idxs).drop_last() =~= read_at(stacks.drop_last(), idxs));
        lemma_read_messages(stacks.drop_last(), idxs);
    }
}

proof fn lemma_without(stacks: Seq<StackV>, idxs: Seq<int>)
    ensures
        all_messages(without(stacks, idxs)).len() <= all_messages(stacks).len(),
        (forall|i: int| 0 <= i < stacks.len() ==> (#[trigger] stacks[i]).wf()) ==> forall|i: int|
            0 <= i < without(stacks, idxs).len() ==> (#[trigger] without(stacks, idxs)[i]).wf(),
        without(stacks, idxs).len() <= stacks.len(),
    decreases stacks.len(),
{
    if stacks.len() > 0 {
        let front = stacks.drop_last();
        let kept = without(front, idxs);
        lemma_without(front, idxs);
        assert(kept.push(stacks.last()).drop_last() =~= kept);
        if forall|i: int| 0 <= i < stacks.len() ==> (#[trigger] stacks[i]).wf() {
            assert forall|i: int| 0 <= i < front.len() implies (#[trigger] front[i]).wf() by {
                assert(front[i] == stacks[i]);
            }
            assert(stacks[stacks.len() - 1].wf());
        }
    }
}

pub proof fn lemma_count_is_len(stacks: Seq<StackV>, idxs: Seq<int>)
    ensures
        count_at(stacks, idxs) == uids_at(stacks, idxs).len(),
    decreases idxs.len(),
{
    if idxs.len() > 0 {
        lemma_count_is_len(stacks, idxs.drop_last());
    }
}

// ---------------------------------------------------------------------------
// operations
// ---------------------------------------------------------------------------

/// The messages of all stacks, stack after stack.
fn take_messages(stacks: Vec<Stack>) -> (r: Vec<MsgMeta>)
    ensures
        views(r@) == all_messages(views(stacks@)),
{
    let ghost all = views(stacks@);
    let mut out: Vec<MsgMeta> = Vec::new();
    assert(all.take(0) =~= Seq::<StackV>::empty());
    assert(views(out@) =~= all_messages(all.take(0)));
    for s in it: stacks
        invariant
            views(it.seq()) == all,
            views(out@) == all_messages(all.take(it.index() as int)),
    {
        let ghost i = it.index() as int;
        let ghost v = s@;
        let ghost had = out@;
        assert(all.take(i + 1).drop_last() =~= all.take(i));
        assert(all[i] == v);
        let mut ms = s.msgs;
        let ghost given = ms@;
        out.append(&mut ms);
        assert(views(out@) =~= views(had) + views(given));
    }
    assert(all.take(all.len() as int) =~= all);
    out
}

/// Leave out messages that repeat an earlier one's UID.
fn drop_repeats(ms: Vec<MsgMeta>) -> (r: Vec<MsgMeta>)
    ensures
        views(r@) == first_of_each(views(ms@)),
{
    broadcast use vstd::std_specs::hash::group_hash_axioms;

    let ghost all = views(ms@);
    let mut out: Vec<MsgMeta> = Vec::new();
    let mut held: HashSet<u32> = HashSet::new();
    assert(all.take(0) =~= Seq::<MsgV>::empty());
    assert(views(out@) =~= first_of_each(all.take(0)));
    for m in it: ms
        invariant
            views(it.seq()) == all,
            views(out@) == first_of_each(all.take(it.index() as int)),
            forall|u: u32|
                held@.contains(u) <==> uids_of(all.take(it.index() as int)).contains(u),
    {
        let ghost i = it.index() as int;
        let ghost before = uids_of(all.take(i));
        let ghost after = uids_of(all.take(i + 1));
        let ghost v = m@;
        let ghost had = out@;
        let uid: u32 = m.uid;
        assert(all.take(i + 1).drop_last() =~= all.take(i));
        assert(all[i] == v);
        assert(after =~= before.push(uid));
        assert forall|u: u32| after.contains(u) <==> before.contains(u) || u == uid by {
            if before.contains(u) {
                let k = choose|k: int| 0 <= k < before.len() && before[k] == u;
                assert(after[k] == u);
            }
            if u == uid {
                assert(after[i] == u);
            }
        }
        if held.insert(uid) {
            out.push(m);
            assert(views(out@) =~= views(had).push(v));
        }
    }
    assert(all.take(all.len() as int) =~= all);
    out
}

/// Is this index among those?
pub fn has_index(idxs: &[usize], i: usize) -> (r: bool)
    ensures
        r == ints(idxs@).contains(i as int),
{
    let mut k: usize = 0;
    while k < idxs.len()
        invariant
            k <= idxs@.len(),
            forall|j: int| 0 <= j < k ==> idxs@[j] != i,
        decreases idxs@.len() - k,
    {
        if idxs[k] == i {
            assert(ints(idxs@)[k as int] == i as int);
            return true;
        }
        k += 1;
    }
    proof {
        if ints(idxs@).contains(i as int) {
            let j = choose|j: int| 0 <= j < ints(idxs@).len() && ints(idxs@)[j] == i as int;
            assert(idxs@[j] == i);
        }
    }
    false
}

/// Mark every message of a stack as read.
fn mark_stack_read(stack: &mut Stack)
    ensures
        final(stack)@ == stack_read(old(stack)@),
{
    let ghost before = stack@;
    let n: usize = stack.msgs.len();
    let mut i: usize = 0;
    while i < n
        invariant
            i <= n,
            n == stack.msgs@.len(),
            n == before.msgs.len(),
            (StackV { msgs: before.msgs, ..stack@ }) == before,
            forall|j: int| 0 <= j < i ==> stack.msgs@[j]@ == all_read(before.msgs)[j],
            forall|j: int| i <= j < n ==> stack.msgs@[j]@ == before.msgs[j],
        decreases n - i,
    {
        stack.msgs[i].unread = false;
        i += 1;
    }
    stack.unread_count = 0;
    assert(views(stack.msgs@) =~= all_read(before.msgs));
}

impl AccountView {
    pub fn new(cfg: AccountConfig) -> (r: AccountView)
        ensures
            r@ == AccountV::fresh(cfg@),
    {
        broadcast use vstd::std_specs::hash::group_hash_axioms;

        let stacks: Vec<Stack> = Vec::new();
        let seen: Vec<SeenStack> = Vec::new();
        assert(views(stacks@) =~= Seq::<StackV>::empty());
        assert(views(seen@) =~= Seq::<SeenV>::empty());
        AccountView {
            cfg,
            password: None,
            connected: false,
            stacks,
            selected: 0,
            loaded: false,
            total: 0,
            back: 0,
            reached_end: false,
            partial_senders: StringHashSet::new(),
            marked: StringHashSet::new(),
            seen,
            acted: HashSet::new(),
        }
    }

    /// Messages currently in stacks — a recency window over the mailbox.
    pub fn loaded_messages(&self) -> (r: usize)
        requires
            all_messages(self@.stacks).len() <= usize::MAX,
        ensures
            r == all_messages(self@.stacks).len(),
    {
        let ghost all = self@.stacks;
        let mut sum: usize = 0;
        let mut i: usize = 0;
        assert(all.take(0) =~= Seq::<StackV>::empty());
        while i < self.stacks.len()
            invariant
                i <= self.stacks@.len(),
                all == views(self.stacks@),
                all_messages(all).len() <= usize::MAX,
                sum == all_messages(all.take(i as int)).len(),
            decreases self.stacks@.len() - i,
        {
            proof {
                assert(all.take(i + 1).drop_last() =~= all.take(i as int));
                assert(all.take(i + 1).last() == self.stacks@[i as int]@);
                lemma_prefix_messages(all, i + 1);
            }
            sum = sum + self.stacks[i].msgs.len();
            i += 1;
        }
        assert(all.take(i as int) =~= all);
        sum
    }

    /// Every message in INBOX. Falls as mail is trashed, which is the number
    /// this tool exists to move.
    pub fn inbox_total(&self) -> (r: usize)
        ensures
            r == self@.total,
    {
        self.total
    }

    /// How far back the window reaches, in messages — what the next sweep starts
    /// behind. Not `loaded_messages()`, which the title states: trashed mail
    /// leaves dead UIDs that a sweep reads and gets nothing for, so the window
    /// is the wider of the two.
    pub fn window(&self) -> (r: usize)
        ensures
            r == self@.back,
    {
        self.back
    }

    /// The window reaches the oldest message — there is nothing left to sweep.
    pub fn exhausted(&self) -> (r: bool)
        ensures
            r == self@.reached_end,
    {
        self.reached_end
    }

    /// Fold a completed window's messages in and rebuild every stack, so the
    /// list is grouped and sorted once rather than merged chunk by chunk.
    /// Windows can overlap when mail arrived between two sweeps, so a message
    /// already held wins over the repeat.
    pub fn absorb(&mut self, msgs: Vec<MsgMeta>, group_by: GroupBy, sort_by: SortBy)
        ensures
            final(self)@ == old(self)@.absorbed(views(msgs@), group_by, sort_by),
            final(self)@.wf(),
    {
        let ghost before = self@;
        let ghost given = msgs@;
        let mut stacks: Vec<Stack> = Vec::new();
        stacks.append(&mut self.stacks);
        assert(views(stacks@) =~= before.stacks);
        let mut all = take_messages(stacks);
        let ghost held = all@;
        let mut msgs = msgs;
        all.append(&mut msgs);
        assert(views(all@) =~= views(held) + views(given));
        let kept = drop_repeats(all);
        let ghost ms = views(kept@);
        assert(kept.len() <= usize::MAX);
        self.stacks = build_stacks(kept, group_by, sort_by);
        proof {
            stacks_are_proper(ms, group_by, sort_by);
            stacks_hold_every_message(ms, group_by, sort_by);
        }
    }

    /// Rebuild the stacks under another grouping, from the messages already
    /// held.
    pub fn regroup(&mut self, group_by: GroupBy, sort_by: SortBy)
        ensures
            final(self)@ == old(self)@.regrouped(group_by, sort_by),
            final(self)@.wf(),
    {
        let ghost before = self@;
        let mut stacks: Vec<Stack> = Vec::new();
        stacks.append(&mut self.stacks);
        assert(views(stacks@) =~= before.stacks);
        let all = take_messages(stacks);
        let ghost ms = views(all@);
        assert(all.len() <= usize::MAX);
        self.stacks = build_stacks(all, group_by, sort_by);
        self.selected = 0;
        self.marked.clear();
        // snapshots describe stacks that no longer exist; keeping them would
        // log these messages as "keep" twice, once per grouping. `acted` is
        // uid-keyed and survives.
        self.seen.clear();
        proof {
            assert(views(self.seen@) =~= Seq::<SeenV>::empty());
            stacks_are_proper(ms, group_by, sort_by);
            stacks_hold_every_message(ms, group_by, sort_by);
        }
    }

    /// Keep the selection on a row that exists, for the paths with no stack to
    /// follow — a removal takes its row with it.
    pub fn clamp_selection(&mut self)
        ensures
            final(self)@ == old(self)@.clamped(),
    {
        let n: usize = self.stacks.len();
        if self.selected >= n {
            self.selected = if n == 0 {
                0
            } else {
                n - 1
            };
        }
    }

    /// Only part of this stack's sender is known: the server refused to
    /// enumerate it.
    pub fn is_partial(&self, stack: &Stack) -> (r: bool)
        requires
            !self@.partial_senders.is_empty() ==> stack@.msgs.len() > 0,
        ensures
            r == (!self@.partial_senders.is_empty() && self@.partial_senders.contains(
                lowercase(stack@.msgs[0].sender_email),
            )),
    {
        if self.partial_senders.is_empty() {
            return false;
        }
        let sender = to_lower(stack.latest().sender_email.as_str());
        self.partial_senders.contains(sender.as_str())
    }

    /// The rows on screen under a filter, as indices into `stacks`.
    pub fn visible(&self, filter: &str) -> (r: Vec<usize>)
        ensures
            ints(r@) == self@.visible(filter@),
            below(ints(r@), self@.stacks.len()),
            r@.len() <= self@.stacks.len(),
            forall|i: int| #[trigger]
                ints(r@).contains(i) <==> 0 <= i < self@.stacks.len() && (filter@.len() == 0
                    || occurs(self@.stacks[i].key, lowercase(filter@)) || occurs(
                    lowercase(self@.stacks[i].display_name),
                    lowercase(filter@),
                ) || (self@.stacks[i].subject matches Some(subject) && occurs(
                    lowercase(subject),
                    lowercase(filter@),
                ))),
    {
        proof {
            lemma_visible(self@, filter@);
            the_filter_looks_at_key_name_and_subject(self@, filter@);
        }
        let mut out: Vec<usize> = Vec::new();
        let n: usize = self.stacks.len();
        let mut i: usize = 0;
        if filter.unicode_len() == 0 {
            while i < n
                invariant
                    i <= n,
                    n == self.stacks@.len(),
                    ints(out@) == self@.visible(filter@).take(i as int),
                    filter@.len() == 0,
                decreases n - i,
            {
                let ghost had = out@;
                let ghost rows = self@.visible(filter@);
                out.push(i);
                assert(ints(out@) =~= ints(had).push(i as int));
                assert(rows.take(i + 1) =~= rows.take(i as int).push(i as int));
                i += 1;
            }
            assert(self@.visible(filter@).take(i as int) =~= self@.visible(filter@));
            assert(ints(out@) =~= self@.visible(filter@));
            return out;
        }
        let needle = to_lower(filter);
        let ghost all = self@.stacks;
        assert(all.take(0) =~= Seq::<StackV>::empty());
        assert(ints(out@) =~= showing(all.take(0), needle@));
        while i < n
            invariant
                i <= n,
                n == self.stacks@.len(),
                all == views(self.stacks@),
                needle@ == lowercase(filter@),
                ints(out@) == showing(all.take(i as int), needle@),
            decreases n - i,
        {
            let ghost had = out@;
            assert(all.take(i + 1).drop_last() =~= all.take(i as int));
            assert(all.take(i + 1).last() == self.stacks@[i as int]@);
            if shown(&self.stacks[i], needle.as_str()) {
                out.push(i);
                assert(ints(out@) =~= ints(had).push(i as int));
            }
            i += 1;
        }
        assert(all.take(i as int) =~= all);
        out
    }

    /// The stack that the cursor is on.
    pub fn cursor_stack(&self, filter: &str) -> (r: Option<usize>)
        ensures
            match r {
                Some(i) => self@.under_cursor(filter@) == Some(i as int) && i < self@.stacks.len(),
                None => self@.under_cursor(filter@) is None,
            },
    {
        let rows = self.visible(filter);
        if self.selected < rows.len() {
            let i: usize = rows[self.selected];
            assert(ints(rows@)[self.selected as int] == i as int);
            Some(i)
        } else {
            None
        }
    }

    /// Key of the stack the cursor is on, the one thing about the selection
    /// that survives a regroup or a re-sort.
    pub fn selected_key(&self, filter: &str) -> (r: Option<String>)
        ensures
            opt_text(r) == self@.selected_key(filter@),
    {
        match self.cursor_stack(filter) {
            Some(i) => {
                assert(self@.stacks[i as int] == self.stacks@[i as int]@);
                Some(self.stacks[i].key.clone())
            },
            None => None,
        }
    }

    /// Put the cursor back on the stack it was on, wherever the rebuild moved
    /// it. A key can vanish — every one of its messages was acted on — so the
    /// row it left behind is the fallback.
    pub fn follow_selection(&mut self, filter: &str, was_on: Option<String>)
        ensures
            final(self)@ == old(self)@.following(filter@, opt_text(was_on)),
    {
        let rows = self.visible(filter);
        let ghost stacks = self@.stacks;
        let ghost vis = ints(rows@);
        if let Some(key) = was_on {
            let mut i: usize = 0;
            while i < rows.len()
                invariant
                    i <= rows@.len(),
                    *self == *old(self),
                    stacks == views(self.stacks@),
                    vis == ints(rows@),
                    vis == self@.visible(filter@),
                    below(vis, stacks.len()),
                    opt_text(was_on) == Some(key@),
                    forall|j: int| 0 <= j < i ==> stacks[#[trigger] vis[j]].key != key@,
                decreases rows@.len() - i,
            {
                let at: usize = rows[i];
                assert(vis[i as int] == at as int);
                assert(stacks[at as int] == self.stacks@[at as int]@);
                if self.stacks[at].key == key {
                    proof {
                        lemma_row_of(stacks, vis, key@, i as int);
                    }
                    self.selected = i;
                    return;
                }
                i += 1;
            }
            proof {
                lemma_row_of(stacks, vis, key@, i as int);
            }
        }
        let last: usize = if rows.len() == 0 {
            0
        } else {
            rows.len() - 1
        };
        if self.selected > last {
            self.selected = last;
        }
    }

    /// Stacks an action applies to: all marked, else the selected one.
    pub fn targets(&self, filter: &str) -> (r: Vec<usize>)
        ensures
            ints(r@) == self@.targets(filter@),
            below(ints(r@), self@.stacks.len()),
    {
        proof {
            lemma_targets(self@, filter@);
        }
        let mut out: Vec<usize> = Vec::new();
        if self.marked.is_empty() {
            if let Some(i) = self.cursor_stack(filter) {
                out.push(i);
            }
            assert(ints(out@) =~= self@.targets(filter@));
            return out;
        }
        let ghost all = self@.stacks;
        let n: usize = self.stacks.len();
        let mut i: usize = 0;
        assert(all.take(0) =~= Seq::<StackV>::empty());
        assert(ints(out@) =~= marked_rows(all.take(0), self@.marked));
        while i < n
            invariant
                i <= n,
                n == self.stacks@.len(),
                all == views(self.stacks@),
                ints(out@) == marked_rows(all.take(i as int), self@.marked),
            decreases n - i,
        {
            let ghost had = out@;
            assert(all.take(i + 1).drop_last() =~= all.take(i as int));
            assert(all.take(i + 1).last() == self.stacks@[i as int]@);
            if self.marked.contains(self.stacks[i].key.as_str()) {
                out.push(i);
                assert(ints(out@) =~= ints(had).push(i as int));
            }
            i += 1;
        }
        assert(all.take(i as int) =~= all);
        out
    }

    /// Remember the stacks that were on screen.
    pub fn record_seen(&mut self, idxs: &[usize], now: Timestamp)
        requires
            below(ints(idxs@), old(self)@.stacks.len()),
        ensures
            final(self)@ == (AccountV {
                seen: saw_all(old(self)@.seen, old(self)@.stacks, ints(idxs@), now),
                ..old(self)@
            }),
    {
        let ghost before = self@;
        let ghost all = ints(idxs@);
        let mut k: usize = 0;
        assert(all.take(0) =~= Seq::<int>::empty());
        while k < idxs.len()
            invariant
                k <= idxs@.len(),
                all == ints(idxs@),
                below(all, before.stacks.len()),
                (AccountV { seen: before.seen, ..self@ }) == before,
                self@.seen == saw_all(before.seen, before.stacks, all.take(k as int), now),
            decreases idxs@.len() - k,
        {
            assert(all.take(k + 1).drop_last() =~= all.take(k as int));
            assert(all.take(k + 1).last() == all[k as int]);
            assert(0 <= all[k as int] < before.stacks.len());
            self.see(idxs[k], now);
            k += 1;
        }
        assert(all.take(k as int) =~= all);
    }

    fn see(&mut self, i: usize, now: Timestamp)
        requires
            i < old(self)@.stacks.len(),
        ensures
            final(self)@ == (AccountV {
                seen: saw(old(self)@.seen, old(self)@.stacks[i as int], now),
                ..old(self)@
            }),
    {
        let ghost before = self@;
        let ghost stack = before.stacks[i as int];
        assert(stack == self.stacks@[i as int]@);
        let mut p: usize = 0;
        while p < self.seen.len() && self.seen[p].key != self.stacks[i].key
            invariant
                p <= self.seen@.len(),
                *self == *old(self),
                i < self.stacks@.len(),
                before == self@,
                stack == self.stacks@[i as int]@,
                forall|j: int| 0 <= j < p ==> (#[trigger] before.seen[j]).key != stack.key,
            decreases self.seen@.len() - p,
        {
            p += 1;
        }
        proof {
            lemma_seen_at(before.seen, stack.key, p as int);
        }
        if p < self.seen.len() && self.seen[p].uids.len() >= self.stacks[i].msgs.len() {
            return;
        }
        let entry = SeenStack {
            key: self.stacks[i].key.clone(),
            snap: StackSnapshot::of_at(&self.stacks[i], now),
            uids: self.stacks[i].uids(),
        };
        let ghost e = entry@;
        let ghost had = self.seen@;
        if p < self.seen.len() {
            self.seen[p] = entry;
            assert(views(self.seen@) =~= views(had).update(p as int, e));
        } else {
            self.seen.push(entry);
            assert(views(self.seen@) =~= views(had).push(e));
        }
    }

    /// The stacks seen on screen but never acted on, by sender.
    pub fn keeps(&self) -> (r: Vec<StackSnapshot>)
        ensures
            views(r@) == self@.keeps(),
    {
        broadcast use vstd::std_specs::hash::group_hash_axioms;

        let ghost all = self@.seen;
        let mut out: Vec<StackSnapshot> = Vec::new();
        let mut i: usize = 0;
        assert(all.take(0) =~= Seq::<SeenV>::empty());
        assert(views(out@) =~= untouched(all.take(0), self@.acted));
        while i < self.seen.len()
            invariant
                i <= self.seen@.len(),
                all == views(self.seen@),
                views(out@) == untouched(all.take(i as int), self@.acted),
            decreases self.seen@.len() - i,
        {
            let ghost had = out@;
            assert(all.take(i + 1).drop_last() =~= all.take(i as int));
            assert(all.take(i + 1).last() == self.seen@[i as int]@);
            if !self.was_touched(&self.seen[i]) {
                let snap = self.seen[i].snap.copy();
                let ghost v = snap@;
                out.push(snap);
                assert(views(out@) =~= views(had).push(v));
            }
            i += 1;
        }
        assert(all.take(i as int) =~= all);
        proof {
            lemma_sorted_views::<StackSnapshot, BySender>(out@);
        }
        sort::<StackSnapshot, BySender>(out)
    }

    fn was_touched(&self, seen: &SeenStack) -> (r: bool)
        ensures
            r == touched(seen@, self@.acted),
    {
        broadcast use vstd::std_specs::hash::group_hash_axioms;

        let mut i: usize = 0;
        while i < seen.uids.len()
            invariant
                i <= seen.uids@.len(),
                forall|j: int| 0 <= j < i ==> !self.acted@.contains(#[trigger] seen@.uids[j]),
            decreases seen.uids@.len() - i,
        {
            if self.acted.contains(&seen.uids[i]) {
                assert(self.acted@.contains(seen@.uids[i as int]));
                return true;
            }
            i += 1;
        }
        false
    }

    /// The features of these stacks as they are now.
    pub fn snapshots(&self, idxs: &[usize], now: Timestamp) -> (r: Vec<StackSnapshot>)
        requires
            below(ints(idxs@), self@.stacks.len()),
        ensures
            views(r@) == snapshots_at(self@.stacks, ints(idxs@), now),
    {
        let ghost all = snapshots_at(self@.stacks, ints(idxs@), now);
        let mut out: Vec<StackSnapshot> = Vec::new();
        let mut k: usize = 0;
        assert(views(out@) =~= all.take(0));
        while k < idxs.len()
            invariant
                k <= idxs@.len(),
                below(ints(idxs@), self@.stacks.len()),
                all == snapshots_at(self@.stacks, ints(idxs@), now),
                views(out@) == all.take(k as int),
            decreases idxs@.len() - k,
        {
            let ghost had = out@;
            let i: usize = idxs[k];
            assert(ints(idxs@)[k as int] == i as int);
            let snap = StackSnapshot::of_at(&self.stacks[i], now);
            let ghost v = snap@;
            out.push(snap);
            assert(views(out@) =~= views(had).push(v));
            k += 1;
            assert(views(out@) =~= all.take(k as int));
        }
        assert(all.take(k as int) =~= all);
        out
    }

    /// The UIDs of these stacks, one after the other.
    pub fn uids(&self, idxs: &[usize]) -> (r: Vec<u32>)
        requires
            below(ints(idxs@), self@.stacks.len()),
        ensures
            r@ == uids_at(self@.stacks, ints(idxs@)),
    {
        let ghost all = ints(idxs@);
        let mut out: Vec<u32> = Vec::new();
        let mut k: usize = 0;
        assert(all.take(0) =~= Seq::<int>::empty());
        while k < idxs.len()
            invariant
                k <= idxs@.len(),
                all == ints(idxs@),
                below(all, self@.stacks.len()),
                out@ == uids_at(self@.stacks, all.take(k as int)),
            decreases idxs@.len() - k,
        {
            let i: usize = idxs[k];
            assert(all[k as int] == i as int);
            assert(all.take(k + 1).drop_last() =~= all.take(k as int));
            assert(all.take(k + 1).last() == i as int);
            assert(self@.stacks[i as int] == self.stacks@[i as int]@);
            let mut more = self.stacks[i].uids();
            out.append(&mut more);
            k += 1;
        }
        assert(all.take(k as int) =~= all);
        out
    }

    /// These messages were acted on.
    pub fn note_acted(&mut self, uids: &Vec<u32>)
        ensures
            final(self)@ == (AccountV {
                acted: old(self)@.acted.union(uids@.to_set()),
                ..old(self)@
            }),
    {
        broadcast use vstd::std_specs::hash::group_hash_axioms;

        let ghost before = self@;
        let mut i: usize = 0;
        assert(before.acted.union(uids@.take(0).to_set()) =~= before.acted);
        while i < uids.len()
            invariant
                i <= uids@.len(),
                (AccountV { acted: before.acted, ..self@ }) == before,
                self@.acted == before.acted.union(uids@.take(i as int).to_set()),
            decreases uids@.len() - i,
        {
            self.acted.insert(uids[i]);
            let ghost was = uids@.take(i as int);
            let ghost is = uids@.take(i + 1);
            assert(is =~= was.push(uids@[i as int]));
            assert forall|u: u32| is.contains(u) <==> was.contains(u) || u == uids@[i as int] by {
                if was.contains(u) {
                    let k = choose|k: int| 0 <= k < was.len() && was[k] == u;
                    assert(is[k] == u);
                }
                assert(is[i as int] == uids@[i as int]);
            }
            assert(before.acted.union(is.to_set()) =~= before.acted.union(was.to_set()).insert(
                uids@[i as int],
            ));
            i += 1;
        }
        assert(uids@.take(i as int) =~= uids@);
    }

    /// Take these stacks off the list.
    pub fn remove_stacks(&mut self, idxs: &[usize])
        requires
            below(ints(idxs@), old(self)@.stacks.len()),
        ensures
            final(self)@ == old(self)@.removed(ints(idxs@)),
            old(self)@.wf() ==> final(self)@.wf(),
    {
        let ghost before = self@;
        let ghost all = before.stacks;
        let ghost gone = ints(idxs@);
        let mut old_stacks: Vec<Stack> = Vec::new();
        old_stacks.append(&mut self.stacks);
        assert(views(old_stacks@) =~= all);
        let mut kept: Vec<Stack> = Vec::new();
        let mut i: usize = 0;
        let n: usize = old_stacks.len();
        assert(all.take(0) =~= Seq::<StackV>::empty());
        assert(views(kept@) =~= without(all.take(0), gone));
        for s in it: old_stacks
            invariant
                views(it.seq()) == all,
                n == all.len(),
                i == it.index(),
                gone == ints(idxs@),
                views(kept@) == without(all.take(i as int), gone),
        {
            let ghost had = kept@;
            let ghost v = s@;
            assert(all.take(i + 1).drop_last() =~= all.take(i as int));
            assert(all[i as int] == v);
            if !has_index(idxs, i) {
                kept.push(s);
                assert(views(kept@) =~= views(had).push(v));
            }
            i += 1;
        }
        assert(all.take(all.len() as int) =~= all);
        self.stacks = kept;
        self.marked.clear();
        self.clamp_selection();
        proof {
            lemma_without(all, gone);
        }
    }

    /// Account for messages that just left INBOX. Those of these stacks were
    /// inside the window — a stack is made of swept mail — so both the mailbox
    /// total and the window's reach shrink by the same count. Without the
    /// second, the next `m` would start that many messages too deep and leave
    /// a hole where the trashed mail used to sit. The `beyond` others lay
    /// outside the window: they count for the total only.
    pub fn prune_window(&mut self, idxs: &[usize], beyond: usize)
        requires
            below(ints(idxs@), old(self)@.stacks.len()),
        ensures
            final(self)@ == old(self)@.pruned(ints(idxs@), beyond as nat),
    {
        broadcast use vstd::std_specs::hash::group_hash_axioms;

        let uids = self.uids(idxs);
        let mut gone: HashSet<u32> = HashSet::new();
        let mut i: usize = 0;
        assert(uids@.take(0).to_set() =~= Set::<u32>::empty());
        while i < uids.len()
            invariant
                i <= uids@.len(),
                gone@ == uids@.take(i as int).to_set(),
            decreases uids@.len() - i,
        {
            gone.insert(uids[i]);
            let ghost was = uids@.take(i as int);
            let ghost is = uids@.take(i + 1);
            assert(is =~= was.push(uids@[i as int]));
            assert forall|u: u32| is.contains(u) <==> was.contains(u) || u == uids@[i as int] by {
                if was.contains(u) {
                    let k = choose|k: int| 0 <= k < was.len() && was[k] == u;
                    assert(is[k] == u);
                }
                assert(is[i as int] == uids@[i as int]);
            }
            assert(is.to_set() =~= was.to_set().insert(uids@[i as int]));
            i += 1;
        }
        assert(uids@.take(i as int) =~= uids@);
        let n: usize = gone.len();
        self.total = self.total.saturating_sub(n).saturating_sub(beyond);
        self.back = self.back.saturating_sub(n);
    }

    /// Take these stacks off the list, their mail having left the mailbox
    /// together with `beyond` other messages.
    pub fn depart(&mut self, idxs: &[usize], beyond: usize)
        requires
            old(self)@.wf(),
            below(ints(idxs@), old(self)@.stacks.len()),
        ensures
            final(self)@ == old(self)@.pruned(ints(idxs@), beyond as nat).removed(ints(idxs@)),
            final(self)@.wf(),
    {
        self.prune_window(idxs, beyond);
        self.remove_stacks(idxs);
    }

    fn learn(&mut self, connected: bool, password: Option<String>)
        ensures
            final(self)@ == old(self)@.knowing(connected, opt_text(password)),
    {
        self.connected = connected;
        if password.is_some() {
            self.password = password;
        }
    }

    /// The window lands either way: a failure does not un-read the chunks that
    /// arrived, and dropping them would make the next `m` re-read them. A short
    /// window is one the sweep stopped inside, so `back` moves by what was
    /// actually swept, not by the bound.
    fn land(&mut self, sweep: Sweep, group_by: GroupBy, sort_by: SortBy)
        requires
            old(self)@.wf(),
            old(self)@.back + sweep@.swept <= usize::MAX,
        ensures
            final(self)@ == old(self)@.anchored(sweep@).folded(sweep@, group_by, sort_by),
            final(self)@.wf(),
    {
        let ghost before = self@;
        self.total = sweep.total;
        self.back = self.back + sweep.swept;
        self.reached_end = sweep.reached_end;
        self.loaded = true;
        assert(self@ == before.anchored(sweep@));
        if sweep.swept > 0 {
            self.absorb(sweep.msgs, group_by, sort_by);
        }
    }

    /// A sweep came to its end.
    #[verifier::spinoff_prover]
    pub fn on_swept(
        &mut self,
        filter: &str,
        group_by: GroupBy,
        sort_by: SortBy,
        connected: bool,
        password: Option<String>,
        kind: Load,
        sweep: Sweep,
    )
        requires
            old(self)@.wf(),
            old(self)@.back + sweep@.swept <= usize::MAX,
        ensures
            final(self)@ == old(self)@.swept(
                filter@,
                group_by,
                sort_by,
                connected,
                opt_text(password),
                kind,
                sweep@,
            ),
            final(self)@.wf(),
    {
        // The user pressed `m` with a stack in mind, and the completion sort
        // can move it anywhere. Held as a row index it would retarget the
        // cursor silently, which matters the moment the next key is `d`.
        let was_on = self.selected_key(filter);
        self.learn(connected, password);
        // A sweep that never reached its `EXISTS` — a failed connect or
        // keychain read — knows nothing about the mailbox, and must not
        // overwrite what the last one learned with zeroes.
        if !sweep.anchored {
            return;
        }
        self.land(sweep, group_by, sort_by);
        match kind {
            // a reset discards the window, so there is no stack left to
            // follow — the cursor goes home
            Load::Reset => {
                self.selected = 0;
            },
            Load::More => {
                self.follow_selection(filter, was_on);
            },
        }
    }

    /// Throw the window away.
    pub fn reset(&mut self)
        ensures
            final(self)@ == old(self)@.reset(),
            final(self)@.wf(),
    {
        self.stacks.clear();
        self.total = 0;
        self.back = 0;
        self.reached_end = false;
        self.partial_senders.clear();
        self.marked.clear();
        self.selected = 0;
        self.loaded = false;
        assert(views(self.stacks@) =~= Seq::<StackV>::empty());
    }

    /// Sort the stacks.
    pub fn resort(&mut self, sort_by: SortBy)
        ensures
            final(self)@ == old(self)@.resorted(sort_by),
            old(self)@.wf() ==> final(self)@.wf(),
    {
        broadcast use vstd::seq_lib::group_to_multiset_ensures;

        let ghost before = self@;
        sort_stacks(&mut self.stacks, sort_by);
        self.selected = 0;
        proof {
            let after = self@.stacks;
            sorting_stacks_keeps_messages(before.stacks, sort_by);
            assert(all_messages(after).to_multiset().len() == all_messages(after).len());
            assert(all_messages(before.stacks).to_multiset().len() == all_messages(
                before.stacks,
            ).len());
            if before.wf() {
                assert forall|i: int| 0 <= i < after.len() implies (#[trigger] after[i]).wf() by {
                    assert(after.contains(after[i]));
                    assert(before.stacks.to_multiset().count(after[i]) > 0);
                    assert(before.stacks.contains(after[i]));
                    let j = choose|j: int|
                        0 <= j < before.stacks.len() && before.stacks[j] == after[i];
                    assert(before.stacks[j].wf());
                }
            }
        }
    }

    /// Mark every message of these stacks as read.
    pub fn mark_read(&mut self, idxs: &[usize])
        requires
            old(self)@.wf(),
            below(ints(idxs@), old(self)@.stacks.len()),
        ensures
            final(self)@ == old(self)@.marked_read(ints(idxs@)),
            final(self)@.wf(),
    {
        let ghost before = self@;
        let ghost all = ints(idxs@);
        let mut k: usize = 0;
        assert(read_at(before.stacks, all.take(0)) =~= before.stacks);
        while k < idxs.len()
            invariant
                k <= idxs@.len(),
                before.wf(),
                all == ints(idxs@),
                below(all, before.stacks.len()),
                (AccountV { stacks: before.stacks, ..self@ }) == before,
                self@.stacks == read_at(before.stacks, all.take(k as int)),
            decreases idxs@.len() - k,
        {
            let i: usize = idxs[k];
            assert(all[k as int] == i as int);
            let ghost had = self.stacks@;
            let ghost was = all.take(k as int);
            let ghost is = all.take(k + 1);
            assert(views(had).len() == before.stacks.len());
            assert(0 <= all[k as int] < before.stacks.len());
            assert(views(had)[i as int] == had[i as int]@);
            mark_stack_read(&mut self.stacks[i]);
            proof {
                lemma_views_update(had, i as int, self.stacks@[i as int]);
                assert(self.stacks@ =~= had.update(i as int, self.stacks@[i as int]));
                lemma_stack_read(before.stacks[i as int]);
                assert(is =~= was.push(i as int));
                assert forall|j: int| is.contains(j) <==> was.contains(j) || j == i by {
                    if was.contains(j) {
                        let q = choose|q: int| 0 <= q < was.len() && was[q] == j;
                        assert(is[q] == j);
                    }
                    assert(is[k as int] == i as int);
                }
                assert(self@.stacks =~= read_at(before.stacks, is));
            }
            k += 1;
        }
        assert(all.take(k as int) =~= all);
        self.marked.clear();
        proof {
            lemma_read_messages(before.stacks, all);
            assert forall|i: int| 0 <= i < self@.stacks.len() implies (
            #[trigger] self@.stacks[i]).wf() by {
                assert(before.stacks[i].wf());
                lemma_stack_read(before.stacks[i]);
            }
        }
    }

    /// Move the cursor by some rows.
    pub fn move_sel(&mut self, delta: i64, rows: usize)
        ensures
            final(self)@ == old(self)@.moved(delta as int, rows as nat),
    {
        if rows > 0 {
            let cur: i128 = self.selected as i128 + delta as i128;
            self.selected = if cur < 0 {
                0
            } else if cur >= rows as i128 {
                rows - 1
            } else {
                cur as usize
            };
        }
    }

    /// Put the cursor on a row, or on the last one.
    pub fn jump_sel(&mut self, pos: usize, rows: usize)
        ensures
            final(self)@ == old(self)@.jumped(pos as nat, rows as nat),
    {
        let last: usize = if rows == 0 {
            0
        } else {
            rows - 1
        };
        self.selected = if pos <= last {
            pos
        } else {
            last
        };
    }
}

/// Does the stack show this text?
fn shown(s: &Stack, needle: &str) -> (r: bool)
    ensures
        r == shows(s@, needle@),
{
    if str_contains(s.key.as_str(), needle) {
        return true;
    }
    let name = to_lower(s.display_name.as_str());
    if str_contains(name.as_str(), needle) {
        return true;
    }
    match &s.subject {
        Some(subject) => {
            let low = to_lower(subject.as_str());
            str_contains(low.as_str(), needle)
        },
        None => false,
    }
}

} // verus!
