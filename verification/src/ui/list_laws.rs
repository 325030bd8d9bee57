//! What the list of stacks promises: which rows are shown, which stacks an
//! action is about, and what becomes of them.
use crate::action_log::{snapshot, BySender, SnapV};
use crate::clock::Timestamp;
use crate::imap_client::SweepV;
use crate::sort::{sorting_orders_and_permutes, Order};
use crate::stacks::{
    all_messages, sorting_stacks_keeps_messages, stacks_from, uids_of, GroupBy, MsgV, SortBy,
    StackV,
};
use crate::text::{lemma_text_total, lowercase, occurs, text_up_to};
use crate::ui::account::{
    count_at, first_of_each, marked_rows, read_at, row_of, saw, saw_all, seen_at, showing,
    snapshots_at, touched, uids_at, untouched, without, AccountV, SeenV,
};
use crate::ui::jobs::Load;
use vstd::prelude::*;

verus! {

// ---------------------------------------------------------------------------
// rows
// ---------------------------------------------------------------------------

/// The text stands, in whatever case, in one of the three things that a row
/// shows of its stack.
pub open spec fn found_in(s: StackV, filter: Seq<char>) -> bool {
    ||| occurs(s.key, lowercase(filter))
    ||| occurs(lowercase(s.display_name), lowercase(filter))
    ||| (s.subject matches Some(subject) && occurs(lowercase(subject), lowercase(filter)))
}

proof fn lemma_showing_found(stacks: Seq<StackV>, filter: Seq<char>)
    ensures
        ({
            let rows = showing(stacks, lowercase(filter));
            &&& forall|j: int, k: int|
                0 <= j < k < rows.len() ==> #[trigger] rows[j] < #[trigger] rows[k]
            &&& forall|i: int| #[trigger]
                rows.contains(i) <==> 0 <= i < stacks.len() && found_in(stacks[i], filter)
        }),
    decreases stacks.len(),
{
    if stacks.len() > 0 {
        let front = stacks.drop_last();
        let before = showing(front, lowercase(filter));
        let rows = showing(stacks, lowercase(filter));
        let n = stacks.len() - 1;
        lemma_showing_found(front, filter);
        if found_in(stacks[n], filter) {
            assert(rows == before.push(n));
        } else {
            assert(rows == before);
        }
        assert forall|i: int| #[trigger] rows.contains(i) <==> 0 <= i < stacks.len() && found_in(
            stacks[i],
            filter,
        ) by {
            if before.contains(i) {
                let k = choose|k: int| 0 <= k < before.len() && before[k] == i;
                assert(rows[k] == i);
                assert(front[i] == stacks[i]);
            }
            if rows.contains(i) && !before.contains(i) {
                let k = choose|k: int| 0 <= k < rows.len() && rows[k] == i;
                if k < before.len() {
                    assert(before[k] == i);
                }
                assert(i == n);
            }
            if 0 <= i < stacks.len() && found_in(stacks[i], filter) {
                if i < n {
                    assert(front[i] == stacks[i]);
                    assert(before.contains(i));
                } else {
                    assert(rows[rows.len() - 1] == i);
                }
            }
        }
        assert forall|j: int, k: int| 0 <= j < k < rows.len() implies #[trigger] rows[j]
            < #[trigger] rows[k] by {
            if k < before.len() {
                assert(before[j] < before[k]);
            } else {
                assert(before.contains(before[j]));
            }
        }
    }
}

/// A stack is on screen exactly when the filter stands, anywhere and in
/// whatever case, in its key, its name or its subject; without a filter every
/// stack is. Rows come in the order of the stacks, each once.
pub proof fn the_filter_looks_at_key_name_and_subject(a: AccountV, filter: Seq<char>)
    ensures
        ({
            let rows = a.visible(filter);
            &&& forall|i: int| #[trigger]
                rows.contains(i) <==> 0 <= i < a.stacks.len() && (filter.len() == 0 || occurs(
                    a.stacks[i].key,
                    lowercase(filter),
                ) || occurs(lowercase(a.stacks[i].display_name), lowercase(filter)) || (
                a.stacks[i].subject matches Some(subject) && occurs(
                    lowercase(subject),
                    lowercase(filter),
                )))
            &&& forall|j: int, k: int|
                0 <= j < k < rows.len() ==> #[trigger] rows[j] < #[trigger] rows[k]
        }),
{
    let rows = a.visible(filter);
    lemma_showing_found(a.stacks, filter);
    if filter.len() == 0 {
        assert forall|i: int| 0 <= i < a.stacks.len() implies #[trigger] rows.contains(i) by {
            assert(rows[i] == i);
        }
    }
}

proof fn lemma_marked(stacks: Seq<StackV>, marked: Set<Seq<char>>)
    ensures
        ({
            let rows = marked_rows(stacks, marked);
            &&& forall|j: int, k: int|
                0 <= j < k < rows.len() ==> #[trigger] rows[j] < #[trigger] rows[k]
            &&& forall|i: int| #[trigger]
                rows.contains(i) <==> 0 <= i < stacks.len() && marked.contains(stacks[i].key)
        }),
    decreases stacks.len(),
{
    if stacks.len() > 0 {
        let front = stacks.drop_last();
        let before = marked_rows(front, marked);
        let rows = marked_rows(stacks, marked);
        let n = stacks.len() - 1;
        lemma_marked(front, marked);
        assert forall|i: int| #[trigger] rows.contains(i) <==> 0 <= i < stacks.len()
            && marked.contains(stacks[i].key) by {
            if before.contains(i) {
                let k = choose|k: int| 0 <= k < before.len() && before[k] == i;
                assert(rows[k] == i);
                assert(front[i] == stacks[i]);
            }
            if rows.contains(i) && !before.contains(i) {
                let k = choose|k: int| 0 <= k < rows.len() && rows[k] == i;
                if k < before.len() {
                    assert(before[k] == i);
                }
                assert(i == n);
            }
            if 0 <= i < stacks.len() && marked.contains(stacks[i].key) {
                if i < n {
                    assert(front[i] == stacks[i]);
                    assert(before.contains(i));
                } else {
                    assert(rows[rows.len() - 1] == i);
                }
            }
        }
        assert forall|j: int, k: int| 0 <= j < k < rows.len() implies #[trigger] rows[j]
            < #[trigger] rows[k] by {
            if k < before.len() {
                assert(before[j] < before[k]);
            } else {
                assert(before.contains(before[j]));
            }
        }
    }
}

/// An action is about every marked stack and no other, on screen or not; where
/// nothing is marked, about the one row that the cursor is on.
pub proof fn an_action_is_about_the_marked_stacks(a: AccountV, filter: Seq<char>)
    ensures
        ({
            let targets = a.targets(filter);
            let rows = a.visible(filter);
            &&& (exists|k: Seq<char>| a.marked.contains(k)) ==> forall|i: int| #[trigger]
                targets.contains(i) <==> 0 <= i < a.stacks.len() && a.marked.contains(
                    a.stacks[i].key,
                )
            &&& (forall|k: Seq<char>| !a.marked.contains(k)) ==> {
                &&& a.selected < rows.len() ==> targets == seq![rows[a.selected as int]]
                &&& a.selected >= rows.len() ==> targets.len() == 0
            }
            &&& forall|j: int, k: int|
                0 <= j < k < targets.len() ==> #[trigger] targets[j] < #[trigger] targets[k]
        }),
{
    lemma_marked(a.stacks, a.marked);
    if forall|k: Seq<char>| !a.marked.contains(k) {
        assert(a.marked =~= Set::empty());
    }
    if exists|k: Seq<char>| a.marked.contains(k) {
        let k = choose|k: Seq<char>| a.marked.contains(k);
        assert(!a.marked.is_empty());
    }
}

/// The cursor moves by as many rows as it is told to and stops at the first
/// and at the last; a jump lands on the row named, or on the last. Nothing but
/// the cursor changes.
pub proof fn the_cursor_moves_row_by_row(a: AccountV, delta: int, to: nat, rows: nat)
    ensures
        ({
            let after = a.moved(delta, rows);
            &&& 0 <= a.selected + delta < rows ==> after.selected == a.selected + delta
            &&& rows > 0 && a.selected + delta < 0 ==> after.selected == 0
            &&& rows > 0 && a.selected + delta >= rows ==> after.selected == rows - 1
            &&& rows == 0 ==> after == a
            &&& after.stacks == a.stacks && after.marked == a.marked
        }),
        ({
            let after = a.jumped(to, rows);
            &&& to < rows ==> after.selected == to
            &&& 0 < rows <= to ==> after.selected == rows - 1
            &&& after.stacks == a.stacks && after.marked == a.marked
        }),
{
}

// ---------------------------------------------------------------------------
// messages of stacks
// ---------------------------------------------------------------------------

/// The messages of a stack are named by their UIDs, every one; those of several
/// stacks are those of the one and then of the other, and as many as there are
/// messages.
pub proof fn every_message_is_named(stacks: Seq<StackV>, i: int, idxs: Seq<int>, more: Seq<int>)
    ensures
        uids_at(stacks, seq![i]) == stacks[i].msgs.map_values(|m: MsgV| m.uid),
        uids_at(stacks, idxs + more) == uids_at(stacks, idxs) + uids_at(stacks, more),
        count_at(stacks, seq![i]) == stacks[i].msgs.len(),
        count_at(stacks, idxs + more) == count_at(stacks, idxs) + count_at(stacks, more),
        uids_at(stacks, Seq::empty()).len() == 0,
        count_at(stacks, Seq::empty()) == 0,
    decreases more.len(),
{
    let one = seq![i];
    assert(one.drop_last() =~= Seq::<int>::empty());
    assert(one.last() == i);
    reveal_with_fuel(uids_at, 2);
    reveal_with_fuel(count_at, 2);
    assert(uids_at(stacks, one) =~= stacks[i].msgs.map_values(|m: MsgV| m.uid));
    if more.len() == 0 {
        assert(idxs + more =~= idxs);
        assert(uids_at(stacks, idxs) + uids_at(stacks, more) =~= uids_at(stacks, idxs));
    } else {
        every_message_is_named(stacks, i, idxs, more.drop_last());
        assert((idxs + more).drop_last() =~= idxs + more.drop_last());
        assert(uids_at(stacks, idxs + more) =~= uids_at(stacks, idxs) + uids_at(stacks, more));
    }
}

/// A UID is named exactly when it is that of a message in one of the stacks.
pub proof fn only_messages_of_the_stacks_are_named(stacks: Seq<StackV>, idxs: Seq<int>)
    ensures
        forall|u: u32| #[trigger]
            uids_at(stacks, idxs).contains(u) <==> exists|k: int, a: int|
                0 <= k < idxs.len() && 0 <= a < stacks[idxs[k]].msgs.len() && (
                #[trigger] stacks[idxs[k]].msgs[a]).uid == u,
    decreases idxs.len(),
{
    if idxs.len() > 0 {
        let front = idxs.drop_last();
        let n = idxs.len() - 1;
        let before = uids_at(stacks, front);
        let own = uids_of(stacks[idxs[n]].msgs);
        let all = uids_at(stacks, idxs);
        only_messages_of_the_stacks_are_named(stacks, front);
        assert forall|u: u32| #[trigger] all.contains(u) <==> exists|k: int, a: int|
            0 <= k < idxs.len() && 0 <= a < stacks[idxs[k]].msgs.len() && (
            #[trigger] stacks[idxs[k]].msgs[a]).uid == u by {
            if all.contains(u) {
                let p = choose|p: int| 0 <= p < all.len() && all[p] == u;
                if p < before.len() {
                    assert(before[p] == u);
                    assert(before.contains(u));
                    let (k, a) = choose|k: int, a: int|
                        0 <= k < front.len() && 0 <= a < stacks[front[k]].msgs.len() && (
                        #[trigger] stacks[front[k]].msgs[a]).uid == u;
                    assert(stacks[idxs[k]].msgs[a].uid == u);
                } else {
                    let a = p - before.len();
                    assert(own[a] == u);
                    assert(stacks[idxs[n]].msgs[a].uid == u);
                }
            }
            if exists|k: int, a: int|
                0 <= k < idxs.len() && 0 <= a < stacks[idxs[k]].msgs.len() && (
                #[trigger] stacks[idxs[k]].msgs[a]).uid == u {
                let (k, a) = choose|k: int, a: int|
                    0 <= k < idxs.len() && 0 <= a < stacks[idxs[k]].msgs.len() && (
                    #[trigger] stacks[idxs[k]].msgs[a]).uid == u;
                if k < n {
                    assert(stacks[front[k]].msgs[a].uid == u);
                    assert(before.contains(u));
                    let p = choose|p: int| 0 <= p < before.len() && before[p] == u;
                    assert(all[p] == u);
                } else {
                    assert(own[a] == u);
                    assert(all[before.len() + a] == u);
                }
            }
        }
    }
}

/// What is taken off the list is what was named: the other stacks stay, as they
/// were and in their order.
pub proof fn only_what_is_named_leaves_the_list(stacks: Seq<StackV>, idxs: Seq<int>)
    ensures
        without(stacks, idxs) == Seq::new(stacks.len(), |i: int| i).filter(
            |i: int| !idxs.contains(i),
        ).map_values(|i: int| stacks[i]),
    decreases stacks.len(),
{
    reveal(Seq::filter);
    let all = Seq::new(stacks.len(), |i: int| i);
    let kept = all.filter(|i: int| !idxs.contains(i));
    if stacks.len() == 0 {
        assert(kept.map_values(|i: int| stacks[i]) =~= stacks);
    } else {
        let front = stacks.drop_last();
        let n = stacks.len() - 1;
        only_what_is_named_leaves_the_list(front, idxs);
        let before = Seq::new(front.len(), |i: int| i).filter(|i: int| !idxs.contains(i));
        assert(all.drop_last() =~= Seq::new(front.len(), |i: int| i));
        assert(all.last() == n);
        lemma_filter_below(front.len(), idxs);
        assert(before.map_values(|i: int| front[i]) =~= before.map_values(|i: int| stacks[i])) by {
            assert forall|k: int| 0 <= k < before.len() implies front[before[k]]
                == stacks[before[k]] by {
                assert(0 <= before[k] < front.len());
            }
        }
        assert(kept.map_values(|i: int| stacks[i]) =~= without(stacks, idxs));
    }
}

proof fn lemma_filter_below(n: nat, idxs: Seq<int>)
    ensures
        ({
            let kept = Seq::new(n, |i: int| i).filter(|i: int| !idxs.contains(i));
            forall|k: int| 0 <= k < kept.len() ==> 0 <= #[trigger] kept[k] < n
        }),
{
    let all = Seq::new(n, |i: int| i);
    let keep = |i: int| !idxs.contains(i);
    let kept = all.filter(keep);
    assert forall|k: int| 0 <= k < kept.len() implies 0 <= #[trigger] kept[k] < n by {
        assert(kept.contains(kept[k]));
        all.lemma_filter_contains_rev(keep, kept[k]);
    }
}

/// Marking stacks read opens every message in them and changes nothing else
/// about it: the same messages, in the same order, none unread. The other
/// stacks stay as they were.
pub proof fn marking_read_changes_only_the_flag(stacks: Seq<StackV>, idxs: Seq<int>, i: int)
    requires
        0 <= i < stacks.len(),
    ensures
        read_at(stacks, idxs).len() == stacks.len(),
        ({
            let (was, got) = (stacks[i], read_at(stacks, idxs)[i]);
            &&& !idxs.contains(i) ==> got == was
            &&& idxs.contains(i) ==> {
                &&& got.unread_count == 0
                &&& got.key == was.key && got.display_name == was.display_name && got.subject
                    == was.subject && got.can_unsubscribe == was.can_unsubscribe
                &&& got.msgs.len() == was.msgs.len()
                &&& forall|a: int|
                    0 <= a < was.msgs.len() ==> !(#[trigger] got.msgs[a]).unread && got.msgs[a] == (
                    MsgV { unread: got.msgs[a].unread, ..was.msgs[a] })
                &&& was.msgs.len() > 0 ==> got.rate() == 100
            }
        }),
{
    let n = stacks[i].msgs.len() as int;
    if n > 0 {
        assert((n - 0) * 100 / n == 100) by (nonlinear_arith)
            requires
                n > 0,
        ;
    }
}

/// A message stays exactly where no earlier one has its UID.
pub proof fn the_first_of_a_uid_stays(ms: Seq<MsgV>, i: int)
    requires
        0 <= i < ms.len(),
    ensures
        (forall|j: int| 0 <= j < i ==> (#[trigger] ms[j]).uid != ms[i].uid) ==> first_of_each(
            ms,
        ).contains(ms[i]),
        forall|k: int|
            0 <= k < first_of_each(ms).len() ==> exists|p: int|
                {
                    &&& 0 <= p < ms.len()
                    &&& #[trigger] ms[p] == #[trigger] first_of_each(ms)[k]
                    &&& forall|j: int| 0 <= j < p ==> (#[trigger] ms[j]).uid != ms[p].uid
                },
    decreases ms.len(),
{
    let front = ms.drop_last();
    let kept = first_of_each(front);
    let all = first_of_each(ms);
    let n = ms.len() - 1;
    let repeated = uids_of(front).contains(ms[n].uid);
    if repeated {
        let q = choose|q: int| 0 <= q < front.len() && uids_of(front)[q] == ms[n].uid;
        assert(ms[q].uid == ms[n].uid);
    } else {
        assert forall|j: int| 0 <= j < n implies (#[trigger] ms[j]).uid != ms[n].uid by {
            assert(uids_of(front)[j] == ms[j].uid);
        }
    }
    if i < n {
        the_first_of_a_uid_stays(front, i);
        assert(front[i] == ms[i]);
        if forall|j: int| 0 <= j < i ==> (#[trigger] ms[j]).uid != ms[i].uid {
            assert forall|j: int| 0 <= j < i implies (#[trigger] front[j]).uid != front[i].uid by {
                assert(front[j] == ms[j]);
            }
            let k = choose|k: int| 0 <= k < kept.len() && kept[k] == front[i];
            assert(all[k] == ms[i]);
        }
    } else if !repeated {
        assert(all[kept.len() as int] == ms[n]);
    }
    assert forall|k: int| 0 <= k < all.len() implies exists|p: int|
        {
            &&& 0 <= p < ms.len()
            &&& #[trigger] ms[p] == #[trigger] all[k]
            &&& forall|j: int| 0 <= j < p ==> (#[trigger] ms[j]).uid != ms[p].uid
        } by {
        if k < kept.len() {
            assert(front.len() > 0);
            the_first_of_a_uid_stays(front, 0);
            assert(kept[k] == all[k]);
            let p = choose|p: int|
                {
                    &&& 0 <= p < front.len()
                    &&& #[trigger] front[p] == kept[k]
                    &&& forall|j: int| 0 <= j < p ==> (#[trigger] front[j]).uid != front[p].uid
                };
            assert(ms[p] == all[k]);
            assert forall|j: int| 0 <= j < p implies (#[trigger] ms[j]).uid != ms[p].uid by {
                assert(front[j].uid != front[p].uid);
            }
        } else {
            assert(ms[n] == all[k]);
        }
    }
}

/// Sorting the list another way moves rows and changes none of them; no stack
/// then stands where the order forbids it, and the cursor is on top.
pub proof fn resorting_only_moves_rows(a: AccountV, order: SortBy)
    ensures
        a.resorted(order).stacks.to_multiset() == a.stacks.to_multiset(),
        a.resorted(order).selected == 0,
        a.resorted(order).marked == a.marked,
{
    sorting_stacks_keeps_messages(a.stacks, order);
}

// ---------------------------------------------------------------------------
// what was seen
// ---------------------------------------------------------------------------

/// A stack that is on screen for the first time is remembered with what it is
/// then, and so is one that has grown since; whatever else is remembered stays
/// as it was.
pub proof fn what_is_on_screen_is_remembered(seen: Seq<SeenV>, s: StackV, now: Timestamp, p: int)
    requires
        0 <= p <= seen.len(),
        forall|j: int| 0 <= j < p ==> (#[trigger] seen[j]).key != s.key,
        p < seen.len() ==> seen[p].key == s.key,
    ensures
        ({
            let after = saw(seen, s, now);
            let grown = p < seen.len() && seen[p].uids.len() < s.msgs.len();
            &&& after.len() == (if p == seen.len() {
                seen.len() + 1
            } else {
                seen.len()
            })
            &&& p == seen.len() || grown ==> after[p].key == s.key && after[p].snap == snapshot(
                s,
                now,
            ) && after[p].uids == s.msgs.map_values(|m: MsgV| m.uid)
            &&& p < seen.len() && !grown ==> after == seen
            &&& forall|j: int| 0 <= j < seen.len() && j != p ==> #[trigger] after[j] == seen[j]
        }),
    decreases p,
{
    lemma_seen_place(seen, s.key, p);
    assert(uids_of(s.msgs) =~= s.msgs.map_values(|m: MsgV| m.uid));
}

proof fn lemma_seen_place(seen: Seq<SeenV>, key: Seq<char>, p: int)
    requires
        0 <= p <= seen.len(),
        forall|j: int| 0 <= j < p ==> (#[trigger] seen[j]).key != key,
        p < seen.len() ==> seen[p].key == key,
    ensures
        seen_at(seen, key) == p,
    decreases p,
{
    if p > 0 {
        assert(seen[0].key != key);
        let rest = seen.skip(1);
        assert forall|j: int| 0 <= j < p - 1 implies (#[trigger] rest[j]).key != key by {
            assert(rest[j] == seen[j + 1]);
        }
        lemma_seen_place(rest, key, p - 1);
    }
}

/// Rows are remembered one after the other.
pub proof fn rows_are_remembered_in_turn(
    seen: Seq<SeenV>,
    stacks: Seq<StackV>,
    idxs: Seq<int>,
    i: int,
    now: Timestamp,
)
    ensures
        saw_all(seen, stacks, Seq::empty(), now) == seen,
        saw_all(seen, stacks, idxs.push(i), now) == saw(
            saw_all(seen, stacks, idxs, now),
            stacks[i],
            now,
        ),
{
    assert(idxs.push(i).drop_last() =~= idxs);
}

/// A stack is kept exactly when it was seen and the user acted on none of the
/// messages it had then; keeps come sorted by sender, then by subject, each as
/// often as it was seen.
pub proof fn a_keep_was_seen_and_left_alone(a: AccountV)
    ensures
        a.keeps().to_multiset() == a.seen.filter(
            |s: SeenV|
                forall|i: int| 0 <= i < s.uids.len() ==> !a.acted.contains(#[trigger] s.uids[i]),
        ).map_values(|s: SeenV| s.snap).to_multiset(),
        forall|i: int, j: int|
            0 <= i < j < a.keeps().len() ==> {
                let (x, y) = (#[trigger] a.keeps()[i], #[trigger] a.keeps()[j]);
                &&& text_up_to(x.sender, y.sender)
                &&& x.sender == y.sender ==> match (x.subject, y.subject) {
                    (Some(p), Some(q)) => text_up_to(p, q),
                    (Some(_), None) => false,
                    (None, _) => true,
                }
            },
{
    let u = untouched(a.seen, a.acted);
    sorting_orders_and_permutes::<SnapV, BySender>(u);
    lemma_untouched_filter(a.seen, a.acted);
    assert forall|i: int, j: int| 0 <= i < j < a.keeps().len() implies {
        let (x, y) = (#[trigger] a.keeps()[i], #[trigger] a.keeps()[j]);
        &&& text_up_to(x.sender, y.sender)
        &&& x.sender == y.sender ==> match (x.subject, y.subject) {
            (Some(p), Some(q)) => text_up_to(p, q),
            (Some(_), None) => false,
            (None, _) => true,
        }
    } by {
        let (x, y) = (a.keeps()[i], a.keeps()[j]);
        assert(<BySender as Order<SnapV>>::le(x, y));
        lemma_text_total(x.sender, x.sender);
    }
}

proof fn lemma_untouched_filter(seen: Seq<SeenV>, acted: Set<u32>)
    ensures
        untouched(seen, acted) == seen.filter(
            |s: SeenV|
                forall|i: int| 0 <= i < s.uids.len() ==> !acted.contains(#[trigger] s.uids[i]),
        ).map_values(|s: SeenV| s.snap),
    decreases seen.len(),
{
    reveal(Seq::filter);
    let f = |s: SeenV|
        forall|i: int| 0 <= i < s.uids.len() ==> !acted.contains(#[trigger] s.uids[i]);
    let kept = seen.filter(f);
    if seen.len() == 0 {
        assert(untouched(seen, acted) =~= kept.map_values(|s: SeenV| s.snap));
    } else {
        let front = seen.drop_last();
        lemma_untouched_filter(front, acted);
        assert(touched(seen.last(), acted) == !f(seen.last()));
        assert(untouched(seen, acted) =~= kept.map_values(|s: SeenV| s.snap));
    }
}

/// A decision is logged with what each of the stacks is at the time.
pub proof fn a_decision_is_logged_stack_by_stack(
    stacks: Seq<StackV>,
    idxs: Seq<int>,
    now: Timestamp,
    k: int,
)
    requires
        0 <= k < idxs.len(),
    ensures
        snapshots_at(stacks, idxs, now).len() == idxs.len(),
        snapshots_at(stacks, idxs, now)[k] == snapshot(stacks[idxs[k]], now),
{
}

/// The messages of stacks are those of the one and then of the other, whole and
/// in their order.
pub proof fn messages_are_taken_stack_by_stack(a: Seq<StackV>, b: Seq<StackV>, s: StackV)
    ensures
        all_messages(seq![s]) == s.msgs,
        all_messages(a + b) == all_messages(a) + all_messages(b),
        all_messages(Seq::empty()).len() == 0,
    decreases b.len(),
{
    let one = seq![s];
    assert(one.drop_last() =~= Seq::<StackV>::empty());
    assert(one.last() == s);
    reveal_with_fuel(all_messages, 2);
    assert(all_messages(one) =~= s.msgs);
    if b.len() == 0 {
        assert(a + b =~= a);
        assert(all_messages(a) + all_messages(b) =~= all_messages(a));
    } else {
        messages_are_taken_stack_by_stack(a, b.drop_last(), s);
        assert((a + b).drop_last() =~= a + b.drop_last());
        assert(all_messages(a + b) =~= all_messages(a) + all_messages(b));
    }
}

/// A removal takes the marks off and leaves the cursor on its row as long as
/// there is such a row, and on the last one otherwise. Nothing else changes but
/// the list.
pub proof fn a_removal_leaves_the_cursor_where_it_can(a: AccountV, idxs: Seq<int>)
    ensures
        ({
            let after = a.removed(idxs);
            &&& after.stacks == without(a.stacks, idxs)
            &&& a.selected < after.stacks.len() ==> after.selected == a.selected
            &&& 0 < after.stacks.len() <= a.selected ==> after.selected == after.stacks.len() - 1
            &&& after.stacks.len() == 0 ==> after.selected == 0
            &&& forall|k: Seq<char>| !after.marked.contains(k)
            &&& after.total == a.total && after.back == a.back && after.acted == a.acted
                && after.seen == a.seen && after.password == a.password && after.connected
                == a.connected
        }),
{
}

/// Where the stack that the cursor was on is gone, the cursor stays on its row,
/// or on the last one where there are fewer.
pub proof fn a_cursor_without_its_stack_stays(
    a: AccountV,
    filter: Seq<char>,
    key: Option<Seq<char>>,
)
    requires
        key matches Some(k) ==> forall|j: int|
            0 <= j < a.visible(filter).len() ==> a.stacks[#[trigger] a.visible(filter)[j]].key != k,
    ensures
        ({
            let rows = a.visible(filter).len();
            let after = a.following(filter, key);
            &&& a.selected < rows ==> after.selected == a.selected
            &&& 0 < rows <= a.selected ==> after.selected == rows - 1
            &&& after.stacks == a.stacks
        }),
{
    if let Some(k) = key {
        lemma_no_row(a.stacks, a.visible(filter), k);
    }
}

proof fn lemma_no_row(stacks: Seq<StackV>, rows: Seq<int>, key: Seq<char>)
    requires
        forall|j: int| 0 <= j < rows.len() ==> stacks[#[trigger] rows[j]].key != key,
    ensures
        row_of(stacks, rows, key) == rows.len(),
    decreases rows.len(),
{
    if rows.len() > 0 {
        assert(stacks[rows[0]].key != key);
        let rest = rows.skip(1);
        assert forall|j: int| 0 <= j < rest.len() implies stacks[#[trigger] rest[j]].key != key by {
            assert(rest[j] == rows[j + 1]);
        }
        lemma_no_row(stacks, rest, key);
    }
}

/// A password that a sweep learned is kept, and one that was known is not
/// forgotten; the session is what the sweep left of it.
pub proof fn a_sweep_brings_the_session_back(
    a: AccountV,
    filter: Seq<char>,
    by: GroupBy,
    order: SortBy,
    connected: bool,
    password: Option<Seq<char>>,
    kind: Load,
    sweep: SweepV,
)
    ensures
        ({
            let after = a.swept(filter, by, order, connected, password, kind, sweep);
            &&& after.connected == connected
            &&& password is Some ==> after.password == password
            &&& password is None ==> after.password == a.password
            &&& after.cfg == a.cfg && after.acted == a.acted && after.seen == a.seen
                && after.marked == a.marked
        }),
{
}

/// Starting over forgets the window and all that belongs to it: stacks, marks,
/// cursor and counts. What was seen and acted on, the account and its password
/// stay.
pub proof fn starting_over_forgets_the_window(a: AccountV)
    ensures
        ({
            let after = a.reset();
            &&& after.stacks.len() == 0 && after.selected == 0
            &&& after.total == 0 && after.back == 0 && !after.reached_end && !after.loaded
            &&& forall|k: Seq<char>| !after.marked.contains(k) && !after.partial_senders.contains(k)
            &&& after.seen == a.seen && after.acted == a.acted && after.cfg == a.cfg
                && after.password == a.password && after.connected == a.connected
        }),
{
}

/// Grouping another way puts the cursor on top and takes the marks off: neither
/// belongs to the stacks that there are now.
pub proof fn regrouping_starts_on_top(a: AccountV, by: GroupBy, order: SortBy)
    ensures
        ({
            let after = a.regrouped(by, order);
            &&& after.stacks == stacks_from(all_messages(a.stacks), by, order)
            &&& after.selected == 0
            &&& forall|k: Seq<char>| !after.marked.contains(k)
            &&& after.password == a.password && after.connected == a.connected && after.loaded
                == a.loaded && after.reached_end == a.reached_end
        }),
{
}

} // verus!
