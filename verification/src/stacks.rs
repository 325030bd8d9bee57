//! Messages, and the stacks they are grouped into.
use crate::clock::{date_not_after, date_up_to, Timestamp};
use crate::sort::{
    in_order, inserted, lemma_sorted_is, lemma_sorted_views, ranked, sort, sorted,
    sorting_is_stable, sorting_orders_and_permutes, sorting_what_is_in_order_changes_nothing,
    tied_with, ties, ties_ranked, views, Compare, Order,
};
use crate::text::{is_empty, lowercase, same_ignoring_case, to_lower};
use vstd::hash_map::StringHashMap;
use vstd::prelude::*;
use vstd::string::*;
use vstd::utf8::is_ascii_chars;

verus! {

// ---------------------------------------------------------------------------
// messages
// ---------------------------------------------------------------------------

/// What is known of one message: headers and flags, never its body.
#[derive(Debug, Clone)]
pub struct MsgMeta {
    pub uid: u32,
    pub sender_email: String,
    pub sender_name: String,
    pub subject: String,
    pub date: Option<Timestamp>,
    pub unread: bool,
    pub list_unsubscribe: Option<String>,
    pub one_click: bool,
}

/// The value of a `MsgMeta`.
pub struct MsgV {
    pub uid: u32,
    pub sender_email: Seq<char>,
    pub sender_name: Seq<char>,
    pub subject: Seq<char>,
    pub date: Option<Timestamp>,
    pub unread: bool,
    pub list_unsubscribe: Option<Seq<char>>,
    pub one_click: bool,
}

/// The text in an optional string.
pub open spec fn opt_text(o: Option<String>) -> Option<Seq<char>> {
    match o {
        Some(s) => Some(s@),
        None => None,
    }
}

/// A copy of an optional string.
pub fn copy_opt(o: &Option<String>) -> (r: Option<String>)
    ensures
        opt_text(r) == opt_text(*o),
{
    match o {
        Some(s) => Some(s.clone()),
        None => None,
    }
}

impl View for MsgMeta {
    type V = MsgV;

    open spec fn view(&self) -> MsgV {
        MsgV {
            uid: self.uid,
            sender_email: self.sender_email@,
            sender_name: self.sender_name@,
            subject: self.subject@,
            date: self.date,
            unread: self.unread,
            list_unsubscribe: opt_text(self.list_unsubscribe),
            one_click: self.one_click,
        }
    }
}

/// Newest message first; messages without a date come last.
pub struct NewestFirst;

impl Order<MsgV> for NewestFirst {
    open spec fn le(a: MsgV, b: MsgV) -> bool {
        date_up_to(b.date, a.date)
    }

    proof fn total(a: MsgV, b: MsgV) {
    }

    proof fn transitive(a: MsgV, b: MsgV, c: MsgV) {
    }
}

impl Order<MsgMeta> for NewestFirst {
    open spec fn le(a: MsgMeta, b: MsgMeta) -> bool {
        <NewestFirst as Order<MsgV>>::le(a@, b@)
    }

    proof fn total(a: MsgMeta, b: MsgMeta) {
    }

    proof fn transitive(a: MsgMeta, b: MsgMeta, c: MsgMeta) {
    }
}

impl Compare<MsgMeta> for NewestFirst {
    fn before(a: &MsgMeta, b: &MsgMeta) -> (r: bool) {
        date_not_after(b.date, a.date)
    }
}

// ---------------------------------------------------------------------------
// grouping
// ---------------------------------------------------------------------------

/// What makes two messages belong to one stack.
#[derive(Debug, Clone, Copy, PartialEq, Eq, Structural)]
pub enum GroupBy {
    /// the same sender
    Sender,
    /// the same sender and the same subject, numbers aside
    SenderSubject,
}

impl GroupBy {
    pub open spec fn name(self) -> Seq<char> {
        match self {
            GroupBy::Sender => "sender"@,
            GroupBy::SenderSubject => "sender+subject"@,
        }
    }

    pub open spec fn other(self) -> GroupBy {
        match self {
            GroupBy::Sender => GroupBy::SenderSubject,
            GroupBy::SenderSubject => GroupBy::Sender,
        }
    }

    pub fn label(self) -> (r: &'static str)
        ensures
            r@ == self.name(),
            self == GroupBy::Sender ==> r@ == "sender"@,
            self == GroupBy::SenderSubject ==> r@ == "sender+subject"@,
    {
        match self {
            GroupBy::Sender => "sender",
            GroupBy::SenderSubject => "sender+subject",
        }
    }

    pub fn toggle(self) -> (r: GroupBy)
        ensures
            r == self.other(),
            r != self,
    {
        match self {
            GroupBy::Sender => GroupBy::SenderSubject,
            GroupBy::SenderSubject => GroupBy::Sender,
        }
    }
}

/// An ASCII digit.
pub open spec fn is_digit(c: char) -> bool {
    '0' <= c <= '9'
}

/// A text with every run of digits written as one `#`.
pub open spec fn numbers_masked(s: Seq<char>) -> Seq<char>
    decreases s.len(),
{
    if s.len() == 0 {
        s
    } else if !is_digit(s.last()) {
        numbers_masked(s.drop_last()).push(s.last())
    } else if s.len() > 1 && is_digit(s[s.len() - 2]) {
        numbers_masked(s.drop_last())
    } else {
        numbers_masked(s.drop_last()).push('#')
    }
}

/// A subject as grouping sees it: lowercased, with every number written as
/// one `#`, so that "Order 12 shipped" and "Order 99 shipped" are one kind of
/// mail.
pub open spec fn normalized(subject: Seq<char>) -> Seq<char> {
    numbers_masked(lowercase(subject))
}

/// What grouping looks at: the lowercased address, and under
/// [`GroupBy::SenderSubject`] a NUL and the normalized subject behind it.
pub open spec fn group_key(m: MsgV, by: GroupBy) -> Seq<char> {
    match by {
        GroupBy::Sender => lowercase(m.sender_email),
        GroupBy::SenderSubject => lowercase(m.sender_email) + seq!['\0'] + normalized(m.subject),
    }
}

/// Write every number in a text as one `#`.
pub fn mask_numbers(text: &str) -> (r: String)
    ensures
        r@ == numbers_masked(text@),
{
    let mut out = String::new();
    let mut in_number = false;
    let ghost all = text@;
    for c in it: text.chars()
        invariant
            it.seq() == all,
            out@ == numbers_masked(all.take(it.index() as int)),
            in_number == (it.index() > 0 && is_digit(all[it.index() - 1])),
    {
        let ghost i = it.index() as int;
        assert(all.take(i + 1).drop_last() =~= all.take(i));
        let digit = '0' <= c && c <= '9';
        if !digit {
            out.push(c);
        } else if !in_number {
            out.push('#');
        }
        in_number = digit;
    }
    assert(all.take(all.len() as int) =~= all);
    out
}

/// Lowercase a subject and write every number in it as one `#`.
pub fn normalize_subject(subject: &str) -> (r: String)
    ensures
        r@ == normalized(subject@),
{
    let low = to_lower(subject);
    mask_numbers(low.as_str())
}

/// The key that a message is grouped under.
pub fn key_of(m: &MsgMeta, by: GroupBy) -> (r: String)
    ensures
        r@ == group_key(m@, by),
        by == GroupBy::Sender ==> r@ == lowercase(m.sender_email@),
        by == GroupBy::SenderSubject ==> r@ == lowercase(m.sender_email@).push('\0')
            + numbers_masked(lowercase(m.subject@)),
{
    proof {
        a_key_is_the_whole_address(m@);
    }
    let mut key = to_lower(m.sender_email.as_str());
    match by {
        GroupBy::Sender => {},
        GroupBy::SenderSubject => {
            key.push('\0');
            let subject = normalize_subject(m.subject.as_str());
            key.append(subject.as_str());
            assert(key@ =~= group_key(m@, by));
        },
    }
    key
}

// ---------------------------------------------------------------------------
// stacks
// ---------------------------------------------------------------------------

/// A group of messages that is decided on as a unit.
#[derive(Debug, Clone)]
pub struct Stack {
    /// the grouping key: the lowercased sender address, and behind a NUL the
    /// normalized subject when the subject counts too
    pub key: String,
    pub display_name: String,
    /// the newest message's subject, when the subject counts
    pub subject: Option<String>,
    /// newest first
    pub msgs: Vec<MsgMeta>,
    pub unread_count: usize,
    pub can_unsubscribe: bool,
}

/// The value of a `Stack`.
pub struct StackV {
    pub key: Seq<char>,
    pub display_name: Seq<char>,
    pub subject: Option<Seq<char>>,
    pub msgs: Seq<MsgV>,
    pub unread_count: nat,
    pub can_unsubscribe: bool,
}

impl View for Stack {
    type V = StackV;

    open spec fn view(&self) -> StackV {
        StackV {
            key: self.key@,
            display_name: self.display_name@,
            subject: opt_text(self.subject),
            msgs: views(self.msgs@),
            unread_count: self.unread_count as nat,
            can_unsubscribe: self.can_unsubscribe,
        }
    }
}

/// How many of the messages are unread.
pub open spec fn unread_in(ms: Seq<MsgV>) -> nat
    decreases ms.len(),
{
    if ms.len() == 0 {
        0
    } else {
        unread_in(ms.drop_last()) + if ms.last().unread {
            1nat
        } else {
            0nat
        }
    }
}

/// Some message carries a List-Unsubscribe header.
pub open spec fn any_unsubscribe(ms: Seq<MsgV>) -> bool {
    exists|i: int| 0 <= i < ms.len() && (#[trigger] ms[i]).list_unsubscribe is Some
}

/// Some message can be unsubscribed from with one click.
pub open spec fn any_one_click(ms: Seq<MsgV>) -> bool {
    exists|i: int| 0 <= i < ms.len() && (#[trigger] ms[i]).one_click
}

/// Where the first message with a List-Unsubscribe header stands; the number
/// of messages when there is none.
pub open spec fn unsubscribe_at(ms: Seq<MsgV>) -> int
    decreases ms.len(),
{
    if ms.len() == 0 || ms[0].list_unsubscribe is Some {
        0
    } else {
        1 + unsubscribe_at(ms.skip(1))
    }
}

proof fn lemma_unsubscribe_at(ms: Seq<MsgV>, i: int)
    requires
        0 <= i <= ms.len(),
        forall|j: int| 0 <= j < i ==> (#[trigger] ms[j]).list_unsubscribe is None,
        i < ms.len() ==> ms[i].list_unsubscribe is Some,
    ensures
        unsubscribe_at(ms) == i,
    decreases i,
{
    if i > 0 {
        assert(ms[0].list_unsubscribe is None);
        assert forall|j: int| 0 <= j < i - 1 implies (
            #[trigger] ms.skip(1)[j]).list_unsubscribe is None by {
            assert(ms.skip(1)[j] == ms[j + 1]);
        }
        lemma_unsubscribe_at(ms.skip(1), i - 1);
    }
}

/// The UIDs of the messages, in their order.
pub open spec fn uids_of(ms: Seq<MsgV>) -> Seq<u32> {
    Seq::new(ms.len(), |i: int| ms[i].uid)
}

/// The share of messages that were opened, in percent, rounded down.
pub open spec fn opened_percent(len: nat, unread: nat) -> int {
    if unread >= len {
        0
    } else {
        (len - unread) * 100 / (len as int)
    }
}

/// The name that a row of messages shows: the first message's sender name, or
/// its address where the name is empty.
pub open spec fn shown_name(m: MsgV) -> Seq<char> {
    if m.sender_name.len() == 0 {
        m.sender_email
    } else {
        m.sender_name
    }
}

impl StackV {
    /// There is a message, and the counts are those of the messages.
    pub open spec fn wf(self) -> bool {
        &&& self.msgs.len() > 0
        &&& self.unread_count == unread_in(self.msgs)
        &&& self.can_unsubscribe == any_unsubscribe(self.msgs)
    }

    pub open spec fn rate(self) -> int {
        opened_percent(self.msgs.len(), self.unread_count)
    }

    pub open spec fn latest_date(self) -> Option<Timestamp> {
        if self.msgs.len() == 0 {
            None
        } else {
            self.msgs[0].date
        }
    }
}

pub proof fn lemma_unread_bound(ms: Seq<MsgV>)
    ensures
        unread_in(ms) <= ms.len(),
    decreases ms.len(),
{
    if ms.len() > 0 {
        lemma_unread_bound(ms.drop_last());
    }
}

impl Stack {
    /// The newest message.
    pub fn latest(&self) -> (r: &MsgMeta)
        requires
            self@.msgs.len() > 0,
        ensures
            r@ == self@.msgs[0],
    {
        &self.msgs[0]
    }

    /// Most recent message carrying a List-Unsubscribe header.
    pub fn unsubscribe_source(&self) -> (r: Option<&MsgMeta>)
        ensures
            match r {
                Some(m) => unsubscribe_at(self@.msgs) < self@.msgs.len() && m@
                    == self@.msgs[unsubscribe_at(self@.msgs)],
                None => unsubscribe_at(self@.msgs) == self@.msgs.len(),
            },
            r is Some == any_unsubscribe(self@.msgs),
            match r {
                Some(m) => exists|i: int|
                    {
                        &&& 0 <= i < self.msgs@.len()
                        &&& *m == #[trigger] self.msgs@[i]
                        &&& m.list_unsubscribe is Some
                        &&& forall|j: int|
                            0 <= j < i ==> (#[trigger] self.msgs@[j]).list_unsubscribe is None
                    },
                None => forall|j: int|
                    0 <= j < self.msgs@.len() ==> (
                    #[trigger] self.msgs@[j]).list_unsubscribe is None,
            },
    {
        let mut i: usize = 0;
        while i < self.msgs.len()
            invariant
                i <= self.msgs@.len(),
                forall|j: int| 0 <= j < i ==> (#[trigger] self@.msgs[j]).list_unsubscribe is None,
                forall|j: int|
                    0 <= j < i ==> (#[trigger] self.msgs@[j]).list_unsubscribe is None,
            decreases self.msgs@.len() - i,
        {
            if self.msgs[i].list_unsubscribe.is_some() {
                assert(self@.msgs[i as int].list_unsubscribe is Some);
                proof {
                    lemma_unsubscribe_at(self@.msgs, i as int);
                }
                return Some(&self.msgs[i]);
            }
            i += 1;
        }
        proof {
            lemma_unsubscribe_at(self@.msgs, i as int);
        }
        None
    }

    /// The UIDs of the messages, newest first.
    pub fn uids(&self) -> (r: Vec<u32>)
        ensures
            r@ == uids_of(self@.msgs),
            r@.len() == self.msgs@.len(),
            forall|i: int| 0 <= i < r@.len() ==> #[trigger] r@[i] == self.msgs@[i].uid,
    {
        let mut out: Vec<u32> = Vec::new();
        let mut i: usize = 0;
        while i < self.msgs.len()
            invariant
                i <= self.msgs@.len(),
                out@ == uids_of(self@.msgs).take(i as int),
            decreases self.msgs@.len() - i,
        {
            out.push(self.msgs[i].uid);
            i += 1;
            assert(out@ =~= uids_of(self@.msgs).take(i as int));
        }
        assert(out@ =~= uids_of(self@.msgs));
        out
    }

    /// The share of the messages that were opened, in percent, rounded down.
    pub fn read_rate(&self) -> (r: u8)
        ensures
            r == self@.rate(),
    {
        let len: u128 = self.msgs.len() as u128;
        let unread: u128 = self.unread_count as u128;
        if unread >= len {
            0
        } else {
            assert((len - unread) * 100 / (len as int) <= 100) by (nonlinear_arith)
                requires
                    0 <= unread < len,
            ;
            ((len - unread) * 100 / len) as u8
        }
    }

    fn latest_date(&self) -> (r: Option<Timestamp>)
        ensures
            r == self@.latest_date(),
    {
        if self.msgs.len() == 0 {
            None
        } else {
            assert(self@.msgs[0] == self.msgs@[0]@);
            self.msgs[0].date
        }
    }
}

// ---------------------------------------------------------------------------
// the order of stacks
// ---------------------------------------------------------------------------

/// What the list of stacks is sorted by.
#[derive(Debug, Clone, Copy, PartialEq, Eq, Structural)]
pub enum SortBy {
    /// most messages first
    Count,
    /// least opened first
    ReadRate,
}

impl SortBy {
    pub open spec fn name(self) -> Seq<char> {
        match self {
            SortBy::Count => "count"@,
            SortBy::ReadRate => "read rate"@,
        }
    }

    pub open spec fn other(self) -> SortBy {
        match self {
            SortBy::Count => SortBy::ReadRate,
            SortBy::ReadRate => SortBy::Count,
        }
    }

    pub fn label(self) -> (r: &'static str)
        ensures
            r@ == self.name(),
            self == SortBy::Count ==> r@ == "count"@,
            self == SortBy::ReadRate ==> r@ == "read rate"@,
    {
        match self {
            SortBy::Count => "count",
            SortBy::ReadRate => "read rate",
        }
    }

    pub fn toggle(self) -> (r: SortBy)
        ensures
            r == self.other(),
            r != self,
    {
        match self {
            SortBy::Count => SortBy::ReadRate,
            SortBy::ReadRate => SortBy::Count,
        }
    }
}

/// Most messages first; of equally large stacks, the one with the newest
/// message.
pub struct LargestFirst;

impl Order<StackV> for LargestFirst {
    open spec fn le(a: StackV, b: StackV) -> bool {
        a.msgs.len() > b.msgs.len() || (a.msgs.len() == b.msgs.len() && date_up_to(
            b.latest_date(),
            a.latest_date(),
        ))
    }

    proof fn total(a: StackV, b: StackV) {
    }

    proof fn transitive(a: StackV, b: StackV, c: StackV) {
    }
}

impl Order<Stack> for LargestFirst {
    open spec fn le(a: Stack, b: Stack) -> bool {
        <LargestFirst as Order<StackV>>::le(a@, b@)
    }

    proof fn total(a: Stack, b: Stack) {
    }

    proof fn transitive(a: Stack, b: Stack, c: Stack) {
    }
}

impl Compare<Stack> for LargestFirst {
    fn before(a: &Stack, b: &Stack) -> (r: bool) {
        a.msgs.len() > b.msgs.len() || (a.msgs.len() == b.msgs.len() && date_not_after(
            b.latest_date(),
            a.latest_date(),
        ))
    }
}

/// Least opened first; of equally opened stacks, the larger one.
pub struct LeastReadFirst;

impl Order<StackV> for LeastReadFirst {
    open spec fn le(a: StackV, b: StackV) -> bool {
        a.rate() < b.rate() || (a.rate() == b.rate() && <LargestFirst as Order<StackV>>::le(a, b))
    }

    proof fn total(a: StackV, b: StackV) {
    }

    proof fn transitive(a: StackV, b: StackV, c: StackV) {
    }
}

impl Order<Stack> for LeastReadFirst {
    open spec fn le(a: Stack, b: Stack) -> bool {
        <LeastReadFirst as Order<StackV>>::le(a@, b@)
    }

    proof fn total(a: Stack, b: Stack) {
    }

    proof fn transitive(a: Stack, b: Stack, c: Stack) {
    }
}

impl Compare<Stack> for LeastReadFirst {
    fn before(a: &Stack, b: &Stack) -> (r: bool) {
        let ra: u8 = a.read_rate();
        let rb: u8 = b.read_rate();
        ra < rb || (ra == rb && <LargestFirst as Compare<Stack>>::before(a, b))
    }
}

/// The stacks in the order that the list shows them in.
pub open spec fn stacks_sorted(s: Seq<StackV>, by: SortBy) -> Seq<StackV> {
    match by {
        SortBy::Count => sorted::<StackV, LargestFirst>(s),
        SortBy::ReadRate => sorted::<StackV, LeastReadFirst>(s),
    }
}

/// Sort stacks; what ties keeps its order.
pub fn sort_stacks(stacks: &mut Vec<Stack>, by: SortBy)
    ensures
        views(final(stacks)@) == stacks_sorted(views(old(stacks)@), by),
{
    let mut all: Vec<Stack> = Vec::new();
    let ghost before = stacks@;
    all.append(stacks);
    assert(all@ =~= before);
    *stacks = match by {
        SortBy::Count => {
            proof {
                lemma_sorted_views::<Stack, LargestFirst>(before);
            }
            sort::<Stack, LargestFirst>(all)
        },
        SortBy::ReadRate => {
            proof {
                lemma_sorted_views::<Stack, LeastReadFirst>(before);
            }
            sort::<Stack, LeastReadFirst>(all)
        },
    };
}

// ---------------------------------------------------------------------------
// building stacks
// ---------------------------------------------------------------------------

/// The messages under one key, in their order.
pub open spec fn with_key(ms: Seq<MsgV>, by: GroupBy, key: Seq<char>) -> Seq<MsgV>
    decreases ms.len(),
{
    if ms.len() == 0 {
        ms
    } else if group_key(ms.last(), by) == key {
        with_key(ms.drop_last(), by, key).push(ms.last())
    } else {
        with_key(ms.drop_last(), by, key)
    }
}

/// The keys of the messages, each once, in the order they first appear.
pub open spec fn keys_in(ms: Seq<MsgV>, by: GroupBy) -> Seq<Seq<char>>
    decreases ms.len(),
{
    if ms.len() == 0 {
        Seq::empty()
    } else {
        let before = keys_in(ms.drop_last(), by);
        let k = group_key(ms.last(), by);
        if before.contains(k) {
            before
        } else {
            before.push(k)
        }
    }
}

/// The stack of these messages under this key.
pub open spec fn stack_of(ms: Seq<MsgV>, by: GroupBy, key: Seq<char>) -> StackV {
    StackV {
        key,
        display_name: shown_name(ms[0]),
        subject: match by {
            GroupBy::Sender => None,
            GroupBy::SenderSubject => Some(ms[0].subject),
        },
        msgs: ms,
        unread_count: unread_in(ms),
        can_unsubscribe: any_unsubscribe(ms),
    }
}

/// One stack for each key, in the order the keys first appear.
pub open spec fn grouped_by(ms: Seq<MsgV>, by: GroupBy) -> Seq<StackV> {
    Seq::new(
        keys_in(ms, by).len(),
        |i: int| stack_of(with_key(ms, by, keys_in(ms, by)[i]), by, keys_in(ms, by)[i]),
    )
}

/// The stacks that a set of messages makes: messages newest first, one stack
/// for each key, stacks sorted.
pub open spec fn stacks_from(ms: Seq<MsgV>, by: GroupBy, order: SortBy) -> Seq<StackV> {
    stacks_sorted(grouped_by(sorted::<MsgV, NewestFirst>(ms), by), order)
}

/// A stack with one more, older message.
spec fn added(s: StackV, m: MsgV) -> StackV {
    StackV {
        msgs: s.msgs.push(m),
        unread_count: s.unread_count + if m.unread {
            1nat
        } else {
            0nat
        },
        can_unsubscribe: s.can_unsubscribe || m.list_unsubscribe is Some,
        ..s
    }
}

proof fn lemma_keys(ms: Seq<MsgV>, by: GroupBy)
    ensures
        keys_in(ms, by).no_duplicates(),
        forall|k: Seq<char>|
            keys_in(ms, by).contains(k) == (#[trigger] with_key(ms, by, k).len() > 0),
    decreases ms.len(),
{
    if ms.len() > 0 {
        let front = ms.drop_last();
        lemma_keys(front, by);
        let before = keys_in(front, by);
        let last = group_key(ms.last(), by);
        assert forall|k: Seq<char>|
            keys_in(ms, by).contains(k) == (#[trigger] with_key(ms, by, k).len() > 0) by {
            assert(before.contains(k) == (with_key(front, by, k).len() > 0));
            if !before.contains(last) {
                assert(before.push(last).contains(k) == (before.contains(k) || k == last)) by {
                    if k == last {
                        assert(before.push(last)[before.len() as int] == k);
                    } else if before.contains(k) {
                        let i = choose|i: int| 0 <= i < before.len() && before[i] == k;
                        assert(before.push(last)[i] == k);
                    }
                }
            }
        }
    }
}

proof fn lemma_any_push(ms: Seq<MsgV>, m: MsgV)
    ensures
        any_unsubscribe(ms.push(m)) == (any_unsubscribe(ms) || m.list_unsubscribe is Some),
{
    let all = ms.push(m);
    if any_unsubscribe(ms) {
        let i = choose|i: int| 0 <= i < ms.len() && (#[trigger] ms[i]).list_unsubscribe is Some;
        assert(all[i].list_unsubscribe is Some);
    }
    if m.list_unsubscribe is Some {
        assert(all[ms.len() as int].list_unsubscribe is Some);
    }
    if any_unsubscribe(all) && m.list_unsubscribe is None {
        let i = choose|i: int| 0 <= i < all.len() && (#[trigger] all[i]).list_unsubscribe is Some;
        assert(ms[i].list_unsubscribe is Some);
    }
}

proof fn lemma_added(ms: Seq<MsgV>, by: GroupBy, key: Seq<char>, m: MsgV)
    requires
        ms.len() > 0,
    ensures
        stack_of(ms.push(m), by, key) == added(stack_of(ms, by, key), m),
{
    assert(ms.push(m).drop_last() =~= ms);
    lemma_any_push(ms, m);
}

proof fn lemma_group_known(ms: Seq<MsgV>, by: GroupBy, m: MsgV, p: int)
    requires
        0 <= p < keys_in(ms, by).len(),
        keys_in(ms, by)[p] == group_key(m, by),
    ensures
        keys_in(ms.push(m), by) == keys_in(ms, by),
        grouped_by(ms.push(m), by) == grouped_by(ms, by).update(
            p,
            added(grouped_by(ms, by)[p], m),
        ),
{
    let all = ms.push(m);
    let keys = keys_in(ms, by);
    assert(all.drop_last() =~= ms);
    assert(keys.contains(group_key(m, by)));
    lemma_keys(ms, by);
    assert forall|i: int| 0 <= i < keys.len() implies grouped_by(all, by)[i] == grouped_by(
        ms,
        by,
    ).update(p, added(grouped_by(ms, by)[p], m))[i] by {
        if i == p {
            assert(keys.contains(keys[p]));
            lemma_added(with_key(ms, by, keys[p]), by, keys[p], m);
        } else {
            assert(keys[i] != keys[p]);
        }
    }
    assert(grouped_by(all, by) =~= grouped_by(ms, by).update(p, added(grouped_by(ms, by)[p], m)));
}

proof fn lemma_group_new(ms: Seq<MsgV>, by: GroupBy, m: MsgV)
    requires
        !keys_in(ms, by).contains(group_key(m, by)),
    ensures
        keys_in(ms.push(m), by) == keys_in(ms, by).push(group_key(m, by)),
        grouped_by(ms.push(m), by) == grouped_by(ms, by).push(
            stack_of(seq![m], by, group_key(m, by)),
        ),
{
    let all = ms.push(m);
    let keys = keys_in(ms, by);
    let key = group_key(m, by);
    assert(all.drop_last() =~= ms);
    lemma_keys(ms, by);
    assert(with_key(ms, by, key).len() == 0);
    assert(with_key(all, by, key) =~= seq![m]);
    assert forall|i: int| 0 <= i <= keys.len() implies grouped_by(all, by)[i] == grouped_by(
        ms,
        by,
    ).push(stack_of(seq![m], by, key))[i] by {
        if i < keys.len() {
            assert(keys.contains(keys[i]));
            assert(keys[i] != key);
        }
    }
    assert(grouped_by(all, by) =~= grouped_by(ms, by).push(stack_of(seq![m], by, key)));
}

/// The one-message stack.
fn fresh_stack(key: String, msg: MsgMeta, by: GroupBy) -> (r: Stack)
    ensures
        r@ == stack_of(seq![msg@], by, key@),
{
    let display_name = if is_empty(msg.sender_name.as_str()) {
        msg.sender_email.clone()
    } else {
        msg.sender_name.clone()
    };
    let subject = match by {
        GroupBy::Sender => None,
        GroupBy::SenderSubject => Some(msg.subject.clone()),
    };
    let unread_count: usize = if msg.unread {
        1
    } else {
        0
    };
    let can_unsubscribe = msg.list_unsubscribe.is_some();
    let ghost m = msg@;
    proof {
        assert(seq![m].drop_last() =~= Seq::<MsgV>::empty());
        assert(seq![m].last() == m);
        reveal_with_fuel(unread_in, 2);
        assert(seq![m][0] == m);
        if any_unsubscribe(seq![m]) {
            let i = choose|i: int|
                0 <= i < seq![m].len() && (#[trigger] seq![m][i]).list_unsubscribe is Some;
            assert(i == 0);
        }
    }
    let mut msgs: Vec<MsgMeta> = Vec::new();
    msgs.push(msg);
    assert(views(msgs@) =~= seq![m]);
    Stack { key, display_name, subject, msgs, unread_count, can_unsubscribe }
}

/// Add an older message to its stack.
fn add_to(stack: &mut Stack, msg: MsgMeta)
    requires
        old(stack)@.unread_count <= old(stack)@.msgs.len(),
    ensures
        final(stack)@ == added(old(stack)@, msg@),
{
    let ghost before = stack.msgs@;
    let ghost m = msg@;
    if msg.list_unsubscribe.is_some() {
        stack.can_unsubscribe = true;
    }
    let unread = msg.unread;
    let n: usize = stack.msgs.len();
    stack.msgs.push(msg);
    assert(views(stack.msgs@) =~= views(before).push(m));
    if unread {
        assert(stack.msgs.len() == n + 1 && stack.msgs.len() <= usize::MAX);
        stack.unread_count = stack.unread_count + 1;
    }
}

/// Group messages into stacks. Within a stack the newest message comes first.
pub fn build_stacks(msgs: Vec<MsgMeta>, group_by: GroupBy, sort_by: SortBy) -> (r: Vec<Stack>)
    ensures
        views(r@) == stacks_from(views(msgs@), group_by, sort_by),
{
    let ghost given = msgs@;
    let msgs = sort::<MsgMeta, NewestFirst>(msgs);
    proof {
        lemma_sorted_views::<MsgMeta, NewestFirst>(given);
    }
    let ghost all = views(msgs@);
    let mut stacks: Vec<Stack> = Vec::new();
    let mut index: StringHashMap<usize> = StringHashMap::new();
    assert(all.take(0) =~= Seq::<MsgV>::empty());
    assert(views(stacks@) =~= grouped_by(all.take(0), group_by));
    for msg in it: msgs
        invariant
            views(it.seq()) == all,
            views(stacks@) == grouped_by(all.take(it.index() as int), group_by),
            forall|k: Seq<char>| #[trigger]
                index@.contains_key(k) == keys_in(
                    all.take(it.index() as int),
                    group_by,
                ).contains(k),
            forall|k: Seq<char>| #[trigger]
                index@.contains_key(k) ==> index@[k] < stacks@.len() && keys_in(
                    all.take(it.index() as int),
                    group_by,
                )[index@[k] as int] == k,
    {
        let ghost n = it.index() as int;
        let ghost seen = all.take(n);
        let ghost keys = keys_in(seen, group_by);
        let ghost m = msg@;
        assert(m == all[n]);
        assert(all.take(n + 1) =~= seen.push(m));
        assert(views(stacks@).len() == stacks@.len());
        let key = key_of(&msg, group_by);
        let known: Option<usize> = match index.get(key.as_str()) {
            Some(i) => Some(*i),
            None => None,
        };
        match known {
            Some(i) => {
                proof {
                    lemma_group_known(seen, group_by, m, i as int);
                    assert(views(stacks@)[i as int] == stacks@[i as int]@);
                    lemma_unread_bound(stacks@[i as int]@.msgs);
                }
                let ghost before = stacks@;
                add_to(&mut stacks[i], msg);
                assert(views(stacks@) =~= views(before).update(
                    i as int,
                    added(before[i as int]@, m),
                ));
            },
            None => {
                proof {
                    lemma_group_new(seen, group_by, m);
                }
                let ghost before = stacks@;
                let ghost index_before = index@;
                index.insert(key.clone(), stacks.len());
                stacks.push(fresh_stack(key, msg, group_by));
                assert(views(stacks@) =~= views(before).push(
                    stack_of(seq![m], group_by, group_key(m, group_by)),
                ));
                let ghost grown = keys.push(group_key(m, group_by));
                assert forall|k: Seq<char>| #[trigger]
                    index@.contains_key(k) == grown.contains(k) by {
                    if k == group_key(m, group_by) {
                        assert(grown[keys.len() as int] == k);
                    } else {
                        assert(index_before.contains_key(k) == keys.contains(k));
                        if keys.contains(k) {
                            let j = choose|j: int| 0 <= j < keys.len() && keys[j] == k;
                            assert(grown[j] == k);
                        }
                    }
                }
                assert forall|k: Seq<char>| #[trigger]
                    index@.contains_key(k) implies index@[k] < stacks@.len()
                    && grown[index@[k] as int] == k by {
                    if k != group_key(m, group_by) {
                        assert(index_before.contains_key(k));
                    }
                }
            },
        }
    }
    assert(all.take(all.len() as int) =~= all);
    sort_stacks(&mut stacks, sort_by);
    stacks
}

// ---------------------------------------------------------------------------
// what stacks promise
// ---------------------------------------------------------------------------

/// The messages of all stacks, stack after stack.
pub open spec fn all_messages(stacks: Seq<StackV>) -> Seq<MsgV>
    decreases stacks.len(),
{
    if stacks.len() == 0 {
        Seq::empty()
    } else {
        all_messages(stacks.drop_last()) + stacks.last().msgs
    }
}

/// The keys of the stacks, in their order.
pub open spec fn stack_keys(stacks: Seq<StackV>) -> Seq<Seq<char>> {
    Seq::new(stacks.len(), |i: int| stacks[i].key)
}

proof fn lemma_inserted_messages<O: Order<StackV>>(s: Seq<StackV>, x: StackV)
    ensures
        all_messages(inserted::<StackV, O>(s, x)).to_multiset() == all_messages(
            s,
        ).to_multiset().add(x.msgs.to_multiset()),
        stack_keys(inserted::<StackV, O>(s, x)).to_multiset() == stack_keys(
            s,
        ).to_multiset().insert(x.key),
    decreases s.len(),
{
    broadcast use vstd::seq_lib::group_to_multiset_ensures;

    if s.len() == 0 {
        assert(seq![x].drop_last() =~= Seq::<StackV>::empty());
        assert(seq![x].last() == x);
        assert(all_messages(seq![x]) == all_messages(seq![x].drop_last()) + x.msgs);
        assert(all_messages(seq![x]) =~= x.msgs);
        assert(all_messages(s) =~= Seq::<MsgV>::empty());
        assert(stack_keys(seq![x]) =~= Seq::<Seq<char>>::empty().push(x.key));
        assert(stack_keys(s) =~= Seq::<Seq<char>>::empty());
        assert(Seq::<MsgV>::empty().to_multiset().add(x.msgs.to_multiset())
            =~= x.msgs.to_multiset());
    } else if O::le(s.last(), x) {
        assert(s.push(x).drop_last() =~= s);
        vstd::seq_lib::lemma_multiset_commutative(all_messages(s), x.msgs);
        assert(stack_keys(s.push(x)) =~= stack_keys(s).push(x.key));
    } else {
        let t = inserted::<StackV, O>(s.drop_last(), x);
        let last = s.last();
        lemma_inserted_messages::<O>(s.drop_last(), x);
        assert(t.push(last).drop_last() =~= t);
        vstd::seq_lib::lemma_multiset_commutative(all_messages(t), last.msgs);
        vstd::seq_lib::lemma_multiset_commutative(all_messages(s.drop_last()), last.msgs);
        assert(all_messages(t.push(last)).to_multiset() =~= all_messages(s).to_multiset().add(
            x.msgs.to_multiset(),
        ));
        assert(stack_keys(t.push(last)) =~= stack_keys(t).push(last.key));
        assert(stack_keys(s) =~= stack_keys(s.drop_last()).push(last.key));
        assert(stack_keys(t.push(last)).to_multiset() =~= stack_keys(s).to_multiset().insert(
            x.key,
        ));
    }
}

proof fn lemma_sorted_messages<O: Order<StackV>>(s: Seq<StackV>)
    ensures
        all_messages(sorted::<StackV, O>(s)).to_multiset() == all_messages(s).to_multiset(),
        stack_keys(sorted::<StackV, O>(s)).to_multiset() == stack_keys(s).to_multiset(),
    decreases s.len(),
{
    broadcast use vstd::seq_lib::group_to_multiset_ensures;

    if s.len() > 0 {
        let front = s.drop_last();
        lemma_sorted_messages::<O>(front);
        lemma_inserted_messages::<O>(sorted::<StackV, O>(front), s.last());
        vstd::seq_lib::lemma_multiset_commutative(all_messages(front), s.last().msgs);
        assert(stack_keys(s) =~= stack_keys(front).push(s.last().key));
    }
}

/// Sorting the list of stacks moves rows about and does nothing else: the
/// messages and the keys are the same, each as often as before.
pub proof fn sorting_stacks_keeps_messages(s: Seq<StackV>, by: SortBy)
    ensures
        all_messages(stacks_sorted(s, by)).to_multiset() == all_messages(s).to_multiset(),
        stack_keys(stacks_sorted(s, by)).to_multiset() == stack_keys(s).to_multiset(),
        stacks_sorted(s, by).to_multiset() == s.to_multiset(),
        stacks_sorted(s, by).len() == s.len(),
{
    match by {
        SortBy::Count => {
            lemma_sorted_messages::<LargestFirst>(s);
            sorting_orders_and_permutes::<StackV, LargestFirst>(s);
        },
        SortBy::ReadRate => {
            lemma_sorted_messages::<LeastReadFirst>(s);
            sorting_orders_and_permutes::<StackV, LeastReadFirst>(s);
        },
    }
}

proof fn lemma_messages_update(s: Seq<StackV>, p: int, m: MsgV)
    requires
        0 <= p < s.len(),
    ensures
        all_messages(s.update(p, added(s[p], m))).to_multiset() == all_messages(
            s,
        ).to_multiset().insert(m),
    decreases s.len(),
{
    broadcast use vstd::seq_lib::group_to_multiset_ensures;

    let t = s.update(p, added(s[p], m));
    let front = all_messages(s.drop_last());
    if p == s.len() - 1 {
        assert(t.drop_last() =~= s.drop_last());
        assert(all_messages(t) =~= (front + s.last().msgs).push(m));
    } else {
        assert(t.drop_last() =~= s.drop_last().update(p, added(s.drop_last()[p], m)));
        lemma_messages_update(s.drop_last(), p, m);
        vstd::seq_lib::lemma_multiset_commutative(all_messages(t.drop_last()), s.last().msgs);
        vstd::seq_lib::lemma_multiset_commutative(front, s.last().msgs);
        assert(all_messages(t).to_multiset() =~= all_messages(s).to_multiset().insert(m));
    }
}

proof fn lemma_grouping_keeps_messages(ms: Seq<MsgV>, by: GroupBy)
    ensures
        all_messages(grouped_by(ms, by)).to_multiset() == ms.to_multiset(),
    decreases ms.len(),
{
    broadcast use vstd::seq_lib::group_to_multiset_ensures;

    if ms.len() == 0 {
        assert(grouped_by(ms, by) =~= Seq::<StackV>::empty());
        assert(all_messages(grouped_by(ms, by)) =~= ms);
    } else {
        let front = ms.drop_last();
        let m = ms.last();
        let keys = keys_in(front, by);
        let key = group_key(m, by);
        lemma_grouping_keeps_messages(front, by);
        assert(front.push(m) =~= ms);
        if keys.contains(key) {
            let p = choose|p: int| 0 <= p < keys.len() && keys[p] == key;
            lemma_group_known(front, by, m, p);
            lemma_messages_update(grouped_by(front, by), p, m);
        } else {
            lemma_group_new(front, by, m);
            let one = stack_of(seq![m], by, key);
            let s = grouped_by(front, by);
            assert(s.push(one).drop_last() =~= s);
            assert(all_messages(s.push(one)) =~= all_messages(s).push(m));
        }
    }
}

/// Grouping loses no message and invents none: taken together, the stacks hold
/// exactly the messages they were built from.
pub proof fn stacks_hold_every_message(ms: Seq<MsgV>, by: GroupBy, order: SortBy)
    ensures
        all_messages(stacks_from(ms, by, order)).to_multiset() == ms.to_multiset(),
        all_messages(stacks_from(ms, by, order)).len() == ms.len(),
{
    broadcast use vstd::seq_lib::group_to_multiset_ensures;

    let newest_first = sorted::<MsgV, NewestFirst>(ms);
    sorting_orders_and_permutes::<MsgV, NewestFirst>(ms);
    lemma_grouping_keeps_messages(newest_first, by);
    sorting_stacks_keeps_messages(grouped_by(newest_first, by), order);
    let all = all_messages(stacks_from(ms, by, order));
    assert(all.to_multiset().len() == all.len());
    assert(ms.to_multiset().len() == ms.len());
}

proof fn lemma_with_key(ms: Seq<MsgV>, by: GroupBy, key: Seq<char>)
    ensures
        forall|i: int|
            0 <= i < with_key(ms, by, key).len() ==> group_key(
                #[trigger] with_key(ms, by, key)[i],
                by,
            ) == key && ms.contains(with_key(ms, by, key)[i]),
        in_order::<MsgV, NewestFirst>(ms) ==> in_order::<MsgV, NewestFirst>(
            with_key(ms, by, key),
        ),
    decreases ms.len(),
{
    if ms.len() > 0 {
        let front = ms.drop_last();
        let old_part = with_key(front, by, key);
        let all = with_key(ms, by, key);
        lemma_with_key(front, by, key);
        assert forall|i: int| 0 <= i < all.len() implies group_key(#[trigger] all[i], by) == key
            && ms.contains(all[i]) by {
            if i < old_part.len() {
                assert(all[i] == old_part[i]);
                let j = choose|j: int| 0 <= j < front.len() && front[j] == old_part[i];
                assert(ms[j] == all[i]);
            } else {
                assert(ms[ms.len() - 1] == all[i]);
            }
        }
        if in_order::<MsgV, NewestFirst>(ms) {
            assert forall|i: int, j: int| 0 <= i < j < front.len() implies <NewestFirst as Order<
                MsgV,
            >>::le(#[trigger] front[i], #[trigger] front[j]) by {
                assert(front[i] == ms[i] && front[j] == ms[j]);
            }
            assert forall|i: int, j: int| 0 <= i < j < all.len() implies <NewestFirst as Order<
                MsgV,
            >>::le(#[trigger] all[i], #[trigger] all[j]) by {
                if j < old_part.len() {
                    assert(all[i] == old_part[i] && all[j] == old_part[j]);
                } else {
                    assert(all[i] == old_part[i]);
                    let k = choose|k: int| 0 <= k < front.len() && front[k] == old_part[i];
                    assert(<NewestFirst as Order<MsgV>>::le(ms[k], ms[ms.len() - 1]));
                }
            }
        }
    }
}

/// A well-formed stack of messages that all belong to it, newest first.
pub open spec fn proper_stack(s: StackV, by: GroupBy) -> bool {
    &&& s.wf()
    &&& s.display_name == shown_name(s.msgs[0])
    &&& forall|i: int| 0 <= i < s.msgs.len() ==> group_key(#[trigger] s.msgs[i], by) == s.key
    &&& in_order::<MsgV, NewestFirst>(s.msgs)
}

/// Every stack holds messages of one key only, newest first, and has at least
/// one; no two stacks share a key.
pub proof fn stacks_are_proper(ms: Seq<MsgV>, by: GroupBy, order: SortBy)
    ensures
        forall|i: int|
            0 <= i < stacks_from(ms, by, order).len() ==> proper_stack(
                #[trigger] stacks_from(ms, by, order)[i],
                by,
            ),
        stack_keys(stacks_from(ms, by, order)).no_duplicates(),
{
    broadcast use vstd::seq_lib::group_to_multiset_ensures;

    let newest_first = sorted::<MsgV, NewestFirst>(ms);
    let groups = grouped_by(newest_first, by);
    let keys = keys_in(newest_first, by);
    let r = stacks_from(ms, by, order);
    sorting_orders_and_permutes::<MsgV, NewestFirst>(ms);
    lemma_keys(newest_first, by);
    sorting_stacks_keeps_messages(groups, order);
    assert forall|i: int| 0 <= i < groups.len() implies proper_stack(
        #[trigger] groups[i],
        by,
    ) by {
        assert(keys.contains(keys[i]));
        lemma_with_key(newest_first, by, keys[i]);
    }
    assert forall|i: int| 0 <= i < r.len() implies proper_stack(#[trigger] r[i], by) by {
        assert(r.contains(r[i]));
        assert(groups.to_multiset().count(r[i]) > 0);
        assert(groups.contains(r[i]));
        let j = choose|j: int| 0 <= j < groups.len() && groups[j] == r[i];
        assert(proper_stack(groups[j], by));
    }
    assert(stack_keys(groups) =~= keys);
    keys.lemma_multiset_has_no_duplicates();
    assert(stack_keys(r).to_multiset() == keys.to_multiset());
    stack_keys(r).lemma_multiset_has_no_duplicates_conv();
}

/// The list comes sorted: by count, no stack stands below a smaller one, and
/// of two equally large ones the one with the newer message stands first.
pub proof fn stacks_come_sorted(ms: Seq<MsgV>, by: GroupBy)
    ensures
        in_order::<StackV, LargestFirst>(stacks_from(ms, by, SortBy::Count)),
        in_order::<StackV, LeastReadFirst>(stacks_from(ms, by, SortBy::ReadRate)),
{
    let groups = grouped_by(sorted::<MsgV, NewestFirst>(ms), by);
    sorting_orders_and_permutes::<StackV, LargestFirst>(groups);
    sorting_orders_and_permutes::<StackV, LeastReadFirst>(groups);
}

// ---------------------------------------------------------------------------
// rebuilding
// ---------------------------------------------------------------------------

/// The first message of the one key stands before every message of the other.
spec fn leads(s: Seq<MsgV>, by: GroupBy, k1: Seq<char>, k2: Seq<char>) -> bool
    decreases s.len(),
{
    s.len() > 0 && (leads(s.drop_last(), by, k1, k2) || (group_key(s.last(), by) == k1 && with_key(
        s.drop_last(),
        by,
        k2,
    ).len() == 0))
}

proof fn lemma_leads_found(s: Seq<MsgV>, by: GroupBy, k1: Seq<char>, k2: Seq<char>)
    ensures
        leads(s, by, k1, k2) ==> with_key(s, by, k1).len() > 0,
        with_key(s, by, k1).len() > 0 && with_key(s, by, k2).len() == 0 ==> leads(s, by, k1, k2),
    decreases s.len(),
{
    if s.len() > 0 {
        lemma_leads_found(s.drop_last(), by, k1, k2);
    }
}

proof fn lemma_leads_add(a: Seq<MsgV>, b: Seq<MsgV>, by: GroupBy, k1: Seq<char>, k2: Seq<char>)
    requires
        leads(a, by, k1, k2),
    ensures
        leads(a + b, by, k1, k2),
    decreases b.len(),
{
    if b.len() == 0 {
        assert(a + b =~= a);
    } else {
        assert((a + b).drop_last() =~= a + b.drop_last());
        lemma_leads_add(a, b.drop_last(), by, k1, k2);
    }
}

proof fn lemma_leads_index(
    s: Seq<MsgV>,
    by: GroupBy,
    k1: Seq<char>,
    k2: Seq<char>,
    i: int,
    j: int,
)
    requires
        k1 != k2,
        leads(s, by, k1, k2),
        0 <= i < keys_in(s, by).len(),
        0 <= j < keys_in(s, by).len(),
        keys_in(s, by)[i] == k1,
        keys_in(s, by)[j] == k2,
    ensures
        i < j,
    decreases s.len(),
{
    let front = s.drop_last();
    let keys = keys_in(front, by);
    lemma_keys(front, by);
    lemma_keys(s, by);
    lemma_leads_found(front, by, k1, k2);
    assert(keys.contains(k1) == (with_key(front, by, k1).len() > 0));
    assert(keys.contains(k2) == (with_key(front, by, k2).len() > 0));
    if leads(front, by, k1, k2) {
        let p = choose|p: int| 0 <= p < keys.len() && keys[p] == k1;
        assert(keys_in(s, by)[p] == k1);
        assert(p == i);
        if j < keys.len() {
            lemma_leads_index(front, by, k1, k2, i, j);
        }
    } else {
        if j < keys.len() {
            assert(keys[j] == k2);
            assert(keys.contains(k2));
        }
    }
}

proof fn lemma_with_key_prefix(s: Seq<MsgV>, by: GroupBy, key: Seq<char>)
    requires
        s.len() > 0,
        with_key(s.drop_last(), by, key).len() > 0,
    ensures
        with_key(s, by, key).len() > 0,
        with_key(s, by, key)[0] == with_key(s.drop_last(), by, key)[0],
{
}

/// The first message under a key, if there is one, ties with `d`.
spec fn head_ties(s: Seq<MsgV>, by: GroupBy, key: Seq<char>, d: MsgV) -> bool {
    with_key(s, by, key).len() > 0 ==> ties::<MsgV, NewestFirst>(with_key(s, by, key)[0], d)
}

proof fn lemma_tied_keys(s: Seq<MsgV>, by: GroupBy, key: Seq<char>, d: MsgV)
    requires
        head_ties(s, by, key, d),
    ensures
        with_key(tied_with::<MsgV, NewestFirst>(s, d), by, key).len() > 0 <==> with_key(
            s,
            by,
            key,
        ).len() > 0,
    decreases s.len(),
{
    if s.len() > 0 {
        let front = s.drop_last();
        let kept = tied_with::<MsgV, NewestFirst>(front, d);
        if with_key(front, by, key).len() > 0 {
            lemma_with_key_prefix(s, by, key);
        }
        lemma_tied_keys(front, by, key, d);
        if ties::<MsgV, NewestFirst>(s.last(), d) {
            assert(kept.push(s.last()).drop_last() =~= kept);
            assert(kept.push(s.last()).last() == s.last());
        }
    }
}

proof fn lemma_leads_tied(s: Seq<MsgV>, by: GroupBy, k1: Seq<char>, k2: Seq<char>, d: MsgV)
    requires
        k1 != k2,
        head_ties(s, by, k1, d),
        head_ties(s, by, k2, d),
    ensures
        leads(tied_with::<MsgV, NewestFirst>(s, d), by, k1, k2) == leads(s, by, k1, k2),
    decreases s.len(),
{
    if s.len() > 0 {
        let front = s.drop_last();
        let kept = tied_with::<MsgV, NewestFirst>(front, d);
        if with_key(front, by, k1).len() > 0 {
            lemma_with_key_prefix(s, by, k1);
        }
        if with_key(front, by, k2).len() > 0 {
            lemma_with_key_prefix(s, by, k2);
        }
        lemma_leads_tied(front, by, k1, k2, d);
        lemma_tied_keys(front, by, k2, d);
        lemma_leads_found(front, by, k1, k2);
        if ties::<MsgV, NewestFirst>(s.last(), d) {
            assert(kept.push(s.last()).drop_last() =~= kept);
            assert(kept.push(s.last()).last() == s.last());
        }
    }
}

proof fn lemma_with_key_add(a: Seq<MsgV>, b: Seq<MsgV>, by: GroupBy, key: Seq<char>)
    ensures
        with_key(a + b, by, key) == with_key(a, by, key) + with_key(b, by, key),
    decreases b.len(),
{
    if b.len() == 0 {
        assert(a + b =~= a);
        assert(with_key(a, by, key) + with_key(b, by, key) =~= with_key(a, by, key));
    } else {
        assert((a + b).drop_last() =~= a + b.drop_last());
        lemma_with_key_add(a, b.drop_last(), by, key);
        assert(with_key(a + b, by, key) =~= with_key(a, by, key) + with_key(b, by, key));
    }
}

proof fn lemma_with_one_key(ms: Seq<MsgV>, by: GroupBy, own: Seq<char>, key: Seq<char>)
    requires
        forall|i: int| 0 <= i < ms.len() ==> group_key(#[trigger] ms[i], by) == own,
    ensures
        with_key(ms, by, key) == (if key == own {
            ms
        } else {
            Seq::<MsgV>::empty()
        }),
    decreases ms.len(),
{
    if ms.len() > 0 {
        let front = ms.drop_last();
        assert forall|i: int| 0 <= i < front.len() implies group_key(#[trigger] front[i], by)
            == own by {
            assert(front[i] == ms[i]);
        }
        assert(group_key(ms[ms.len() - 1], by) == own);
        lemma_with_one_key(front, by, own, key);
        assert(front.push(ms.last()) =~= ms);
    } else {
        assert(ms =~= Seq::<MsgV>::empty());
    }
}

/// Stacks that could have been built: each is the stack of its messages, and
/// no two share a key.
spec fn built(r: Seq<StackV>, by: GroupBy) -> bool {
    &&& forall|i: int| 0 <= i < r.len() ==> proper_stack(#[trigger] r[i], by)
    &&& forall|i: int| 0 <= i < r.len() ==> #[trigger] r[i] == stack_of(r[i].msgs, by, r[i].key)
    &&& forall|i: int, j: int|
        0 <= i < j < r.len() ==> (#[trigger] r[i]).key != (#[trigger] r[j]).key
}

proof fn lemma_built_front(r: Seq<StackV>, by: GroupBy)
    requires
        built(r, by),
        r.len() > 0,
    ensures
        built(r.drop_last(), by),
{
    let front = r.drop_last();
    assert forall|i: int| 0 <= i < front.len() implies proper_stack(#[trigger] front[i], by) by {
        assert(front[i] == r[i]);
    }
    assert forall|i: int| 0 <= i < front.len() implies #[trigger] front[i] == stack_of(
        front[i].msgs,
        by,
        front[i].key,
    ) by {
        assert(front[i] == r[i]);
    }
    assert forall|i: int, j: int| 0 <= i < j < front.len() implies (#[trigger] front[i]).key != (
    #[trigger] front[j]).key by {
        assert(front[i] == r[i] && front[j] == r[j]);
    }
}

proof fn lemma_stack_messages(r: Seq<StackV>, by: GroupBy, key: Seq<char>)
    requires
        built(r, by),
    ensures
        forall|i: int|
            0 <= i < r.len() && (#[trigger] r[i]).key == key ==> with_key(
                all_messages(r),
                by,
                key,
            ) == r[i].msgs,
        (forall|i: int| 0 <= i < r.len() ==> (#[trigger] r[i]).key != key) ==> with_key(
            all_messages(r),
            by,
            key,
        ).len() == 0,
    decreases r.len(),
{
    if r.len() > 0 {
        let front = r.drop_last();
        let last = r.last();
        let n = r.len() - 1;
        lemma_built_front(r, by);
        lemma_stack_messages(front, by, key);
        lemma_with_key_add(all_messages(front), last.msgs, by, key);
        assert(proper_stack(r[n], by));
        lemma_with_one_key(last.msgs, by, last.key, key);
        let before = with_key(all_messages(front), by, key);
        if last.key == key {
            assert forall|i: int| 0 <= i < front.len() implies (#[trigger] front[i]).key != key by {
                assert(front[i] == r[i]);
                assert(r[i].key != r[n].key);
            }
            assert(before + last.msgs =~= last.msgs);
        } else {
            assert(before + Seq::<MsgV>::empty() =~= before);
            if forall|i: int| 0 <= i < r.len() ==> (#[trigger] r[i]).key != key {
                assert forall|i: int| 0 <= i < front.len() implies (#[trigger] front[i]).key
                    != key by {
                    assert(front[i] == r[i]);
                }
            }
        }
        assert forall|i: int| 0 <= i < r.len() && (#[trigger] r[i]).key == key implies with_key(
            all_messages(r),
            by,
            key,
        ) == r[i].msgs by {
            if i < n {
                assert(front[i] == r[i]);
                assert(r[i].key != r[n].key);
            }
        }
    }
}

proof fn lemma_with_key_inserted(s: Seq<MsgV>, x: MsgV, by: GroupBy, key: Seq<char>)
    requires
        in_order::<MsgV, NewestFirst>(s),
    ensures
        with_key(inserted::<MsgV, NewestFirst>(s, x), by, key) == (if group_key(x, by) == key {
            inserted::<MsgV, NewestFirst>(with_key(s, by, key), x)
        } else {
            with_key(s, by, key)
        }),
    decreases s.len(),
{
    let r = inserted::<MsgV, NewestFirst>(s, x);
    let kept = with_key(s, by, key);
    if s.len() == 0 {
        assert(seq![x].drop_last() =~= Seq::<MsgV>::empty());
        assert(seq![x].last() == x);
        reveal_with_fuel(with_key, 2);
        assert(with_key(seq![x], by, key) =~= if group_key(x, by) == key {
            seq![x]
        } else {
            Seq::<MsgV>::empty()
        });
        assert(kept =~= Seq::<MsgV>::empty());
    } else if <NewestFirst as Order<MsgV>>::le(s.last(), x) {
        assert(s.push(x).drop_last() =~= s);
        if group_key(x, by) == key && kept.len() > 0 {
            lemma_with_key(s, by, key);
            let y = kept.last();
            assert(kept[kept.len() - 1] == y);
            assert(s.contains(y));
            let i = choose|i: int| 0 <= i < s.len() && s[i] == y;
            if i < s.len() - 1 {
                assert(<NewestFirst as Order<MsgV>>::le(s[i], s[s.len() - 1]));
            }
            <NewestFirst as Order<MsgV>>::total(y, y);
            assert(<NewestFirst as Order<MsgV>>::le(y, x));
        }
        if kept.len() == 0 {
            assert(kept =~= Seq::<MsgV>::empty());
            assert(seq![x] =~= kept.push(x));
        }
    } else {
        let front = s.drop_last();
        let last = s.last();
        let t = inserted::<MsgV, NewestFirst>(front, x);
        assert forall|i: int, j: int| 0 <= i < j < front.len() implies <NewestFirst as Order<
            MsgV,
        >>::le(#[trigger] front[i], #[trigger] front[j]) by {
            assert(front[i] == s[i] && front[j] == s[j]);
        }
        lemma_with_key_inserted(front, x, by, key);
        assert(r == t.push(last));
        assert(r.drop_last() =~= t);
        if group_key(last, by) == key {
            let before = with_key(front, by, key);
            assert(kept == before.push(last));
            assert(kept.drop_last() =~= before);
        }
    }
}

proof fn lemma_with_key_sorted(s: Seq<MsgV>, by: GroupBy, key: Seq<char>)
    ensures
        with_key(sorted::<MsgV, NewestFirst>(s), by, key) == sorted::<MsgV, NewestFirst>(
            with_key(s, by, key),
        ),
    decreases s.len(),
{
    if s.len() == 0 {
        assert(with_key(s, by, key) =~= s);
    } else {
        let front = s.drop_last();
        let kept = with_key(front, by, key);
        lemma_with_key_sorted(front, by, key);
        sorting_orders_and_permutes::<MsgV, NewestFirst>(front);
        lemma_with_key_inserted(sorted::<MsgV, NewestFirst>(front), s.last(), by, key);
        if group_key(s.last(), by) == key {
            assert(kept.push(s.last()).drop_last() =~= kept);
            assert(kept.push(s.last()).last() == s.last());
        }
    }
}

proof fn lemma_earlier_stack_leads(r: Seq<StackV>, by: GroupBy, i: int, j: int)
    requires
        built(r, by),
        0 <= i < j < r.len(),
    ensures
        leads(all_messages(r), by, r[i].key, r[j].key),
    decreases r.len(),
{
    let front = r.drop_last();
    let n = r.len() - 1;
    lemma_built_front(r, by);
    if j < n {
        assert(front[i] == r[i] && front[j] == r[j]);
        lemma_earlier_stack_leads(front, by, i, j);
    } else {
        lemma_stack_messages(front, by, r[i].key);
        lemma_stack_messages(front, by, r[j].key);
        assert(front[i] == r[i]);
        assert(proper_stack(r[i], by));
        assert forall|q: int| 0 <= q < front.len() implies (#[trigger] front[q]).key
            != r[j].key by {
            assert(front[q] == r[q]);
            assert(r[q].key != r[n].key);
        }
        lemma_leads_found(all_messages(front), by, r[i].key, r[j].key);
    }
    lemma_leads_add(all_messages(front), r.last().msgs, by, r[i].key, r[j].key);
}

proof fn lemma_rebuilt<O: Order<StackV>>(r: Seq<StackV>, by: GroupBy)
    requires
        built(r, by),
        in_order::<StackV, O>(r),
        forall|a: StackV, b: StackV| #[trigger]
            ties::<StackV, O>(a, b) ==> date_up_to(a.latest_date(), b.latest_date())
                && date_up_to(b.latest_date(), a.latest_date()),
    ensures
        sorted::<StackV, O>(
            grouped_by(sorted::<MsgV, NewestFirst>(all_messages(r)), by),
        ) == r,
{
    let all = all_messages(r);
    let fresh = sorted::<MsgV, NewestFirst>(all);
    let keys = keys_in(fresh, by);
    let groups = grouped_by(fresh, by);
    lemma_keys(fresh, by);
    assert forall|i: int| 0 <= i < r.len() implies with_key(fresh, by, (#[trigger] r[i]).key)
        == r[i].msgs by {
        lemma_stack_messages(r, by, r[i].key);
        lemma_with_key_sorted(all, by, r[i].key);
        assert(proper_stack(r[i], by));
        sorting_what_is_in_order_changes_nothing::<MsgV, NewestFirst>(r[i].msgs);
    }
    assert forall|x: StackV| groups.contains(x) <==> r.contains(x) by {
        if r.contains(x) {
            let i = choose|i: int| 0 <= i < r.len() && r[i] == x;
            assert(proper_stack(r[i], by));
            assert(with_key(fresh, by, r[i].key).len() > 0);
            assert(keys.contains(r[i].key));
            let p = choose|p: int| 0 <= p < keys.len() && keys[p] == r[i].key;
            assert(r[i] == stack_of(r[i].msgs, by, r[i].key));
            assert(groups[p] == x);
        }
        if groups.contains(x) {
            let p = choose|p: int| 0 <= p < groups.len() && groups[p] == x;
            assert(keys.contains(keys[p]));
            assert(with_key(fresh, by, keys[p]).len() > 0);
            lemma_stack_messages(r, by, keys[p]);
            lemma_with_key_sorted(all, by, keys[p]);
            sorting_orders_and_permutes::<MsgV, NewestFirst>(with_key(all, by, keys[p]));
            let i = choose|i: int| 0 <= i < r.len() && (#[trigger] r[i]).key == keys[p];
            assert(r[i] == stack_of(r[i].msgs, by, r[i].key));
            assert(r[i] == x);
        }
    }
    let rank = |s: StackV| keys.index_of(s.key);
    assert forall|p: int| 0 <= p < keys.len() implies keys.index_of(#[trigger] keys[p]) == p by {
        assert(keys.contains(keys[p]));
    }
    assert(ranked(groups, rank)) by {
        assert forall|i: int, j: int| 0 <= i < j < groups.len() implies rank(#[trigger] groups[i])
            < rank(#[trigger] groups[j]) by {
            assert(groups[i].key == keys[i] && groups[j].key == keys[j]);
        }
    }
    assert(ties_ranked::<StackV, O>(r, rank)) by {
        assert forall|i: int, j: int|
            0 <= i < j < r.len() && ties::<StackV, O>(r[i], r[j]) implies rank(#[trigger] r[i])
            < rank(#[trigger] r[j]) by {
            let (a, b) = (r[i], r[j]);
            assert(proper_stack(r[i], by) && proper_stack(r[j], by));
            assert(a.key != b.key);
            let d = a.msgs[0];
            lemma_earlier_stack_leads(r, by, i, j);
            lemma_stack_messages(r, by, a.key);
            lemma_stack_messages(r, by, b.key);
            lemma_leads_tied(all, by, a.key, b.key, d);
            sorting_is_stable::<MsgV, NewestFirst>(all, d);
            lemma_leads_tied(fresh, by, a.key, b.key, d);
            assert(keys.contains(a.key) && keys.contains(b.key));
            let p = choose|p: int| 0 <= p < keys.len() && keys[p] == a.key;
            let q = choose|q: int| 0 <= q < keys.len() && keys[q] == b.key;
            lemma_leads_index(fresh, by, a.key, b.key, p, q);
        }
    }
    lemma_sorted_is::<StackV, O>(groups, r, rank);
}

proof fn lemma_stacks_are_built(ms: Seq<MsgV>, by: GroupBy, order: SortBy)
    ensures
        built(stacks_from(ms, by, order), by),
{
    broadcast use vstd::seq_lib::group_to_multiset_ensures;

    let newest_first = sorted::<MsgV, NewestFirst>(ms);
    let groups = grouped_by(newest_first, by);
    let r = stacks_from(ms, by, order);
    stacks_are_proper(ms, by, order);
    sorting_stacks_keeps_messages(groups, order);
    assert forall|i: int| 0 <= i < r.len() implies #[trigger] r[i] == stack_of(
        r[i].msgs,
        by,
        r[i].key,
    ) by {
        assert(r.contains(r[i]));
        assert(groups.to_multiset().count(r[i]) > 0);
        assert(groups.contains(r[i]));
        let j = choose|j: int| 0 <= j < groups.len() && groups[j] == r[i];
    }
    assert forall|i: int, j: int| 0 <= i < j < r.len() implies (#[trigger] r[i]).key != (
    #[trigger] r[j]).key by {
        assert(stack_keys(r)[i] != stack_keys(r)[j]);
    }
}

/// Rebuilding stacks from their own messages, stack by stack, gives the same
/// stacks: in the same order, and with the same messages in the same order.
pub proof fn rebuilding_gives_the_same_stacks(ms: Seq<MsgV>, by: GroupBy, order: SortBy)
    ensures
        stacks_from(all_messages(stacks_from(ms, by, order)), by, order) == stacks_from(
            ms,
            by,
            order,
        ),
{
    let r = stacks_from(ms, by, order);
    lemma_stacks_are_built(ms, by, order);
    stacks_come_sorted(ms, by);
    match order {
        SortBy::Count => lemma_rebuilt::<LargestFirst>(r, by),
        SortBy::ReadRate => lemma_rebuilt::<LeastReadFirst>(r, by),
    }
}

/// Letter case does not split a sender: two messages whose ASCII addresses
/// differ in case alone belong to one stack.
pub proof fn letter_case_does_not_split_a_sender(a: MsgV, b: MsgV)
    requires
        is_ascii_chars(a.sender_email),
        is_ascii_chars(b.sender_email),
        same_ignoring_case(a.sender_email, b.sender_email),
    ensures
        group_key(a, GroupBy::Sender) == group_key(b, GroupBy::Sender),
        normalized(a.subject) == normalized(b.subject) ==> group_key(a, GroupBy::SenderSubject)
            == group_key(b, GroupBy::SenderSubject),
{
}

/// Under [`GroupBy::Sender`] the key is the whole address, lowercased; under
/// [`GroupBy::SenderSubject`] the lowercased subject stands behind it whole,
/// its numbers masked, and a NUL between the two.
pub proof fn a_key_is_the_whole_address(m: MsgV)
    ensures
        group_key(m, GroupBy::Sender) == lowercase(m.sender_email),
        group_key(m, GroupBy::SenderSubject) == lowercase(m.sender_email).push('\0')
            + numbers_masked(lowercase(m.subject)),
{
    let key = group_key(m, GroupBy::SenderSubject);
    assert(key =~= lowercase(m.sender_email).push('\0') + numbers_masked(lowercase(m.subject)));
}

proof fn lemma_masked_apart(a: Seq<char>, b: Seq<char>)
    requires
        a.len() == 0 || b.len() == 0 || !is_digit(a.last()) || !is_digit(b[0]),
    ensures
        numbers_masked(a + b) == numbers_masked(a) + numbers_masked(b),
    decreases b.len(),
{
    let all = a + b;
    if b.len() == 0 {
        assert(all =~= a);
        assert(numbers_masked(a) + numbers_masked(b) =~= numbers_masked(a));
    } else {
        let front = b.drop_last();
        assert(all.drop_last() =~= a + front);
        assert(all.last() == b.last());
        if front.len() > 0 {
            assert(front[0] == b[0]);
            assert(all[all.len() - 2] == b[b.len() - 2]);
        } else if a.len() > 0 {
            assert(all[all.len() - 2] == a.last());
            assert(b.last() == b[0]);
        }
        lemma_masked_apart(a, front);
        assert(numbers_masked(all) =~= numbers_masked(a) + numbers_masked(b));
    }
}

proof fn lemma_masked_digits(d: Seq<char>)
    requires
        d.len() > 0,
        forall|i: int| 0 <= i < d.len() ==> is_digit(#[trigger] d[i]),
    ensures
        numbers_masked(d) == seq!['#'],
    decreases d.len(),
{
    let front = d.drop_last();
    assert(is_digit(d[d.len() - 1]));
    if d.len() > 1 {
        assert(is_digit(d[d.len() - 2]));
        assert forall|i: int| 0 <= i < front.len() implies is_digit(#[trigger] front[i]) by {
            assert(front[i] == d[i]);
        }
        lemma_masked_digits(front);
    } else {
        assert(numbers_masked(front) =~= Seq::<char>::empty());
        assert(numbers_masked(d) =~= seq!['#']);
    }
}

/// A number in a text, whatever its digits and however many, is masked by one
/// `#`, and what stands before and behind it is masked by itself. A text
/// without digits stays as it is.
pub proof fn a_number_is_one_mark(a: Seq<char>, d: Seq<char>, b: Seq<char>)
    requires
        d.len() > 0,
        forall|i: int| 0 <= i < d.len() ==> '0' <= #[trigger] d[i] <= '9',
        a.len() > 0 ==> !('0' <= a.last() <= '9'),
        b.len() > 0 ==> !('0' <= b[0] <= '9'),
    ensures
        numbers_masked(a + d + b) == numbers_masked(a) + seq!['#'] + numbers_masked(b),
{
    assert forall|i: int| 0 <= i < d.len() implies is_digit(#[trigger] d[i]) by {
        assert('0' <= d[i] <= '9');
    }
    lemma_masked_digits(d);
    lemma_masked_apart(a, d);
    lemma_masked_apart(a + d, b);
}

/// A text without digits has nothing to mask.
pub proof fn a_text_without_numbers_stays(s: Seq<char>)
    requires
        forall|i: int| 0 <= i < s.len() ==> !('0' <= #[trigger] s[i] <= '9'),
    ensures
        numbers_masked(s) == s,
    decreases s.len(),
{
    if s.len() > 0 {
        let front = s.drop_last();
        assert forall|i: int| 0 <= i < front.len() implies !('0' <= #[trigger] front[i] <= '9') by {
            assert(front[i] == s[i]);
        }
        assert(!('0' <= s[s.len() - 1] <= '9'));
        a_text_without_numbers_stays(front);
        assert(front.push(s.last()) =~= s);
    }
}

/// The unread messages are counted one by one; the rest were opened.
pub proof fn unread_mail_is_counted(ms: Seq<MsgV>)
    ensures
        unread_in(ms) == ms.filter(|m: MsgV| m.unread).len(),
        ms.len() - unread_in(ms) == ms.filter(|m: MsgV| !m.unread).len(),
    decreases ms.len(),
{
    reveal(Seq::filter);
    if ms.len() > 0 {
        unread_mail_is_counted(ms.drop_last());
    }
}

/// The read rate is the share of a stack's messages that were opened, in whole
/// percent: no more than that share, and less than one percent below it.
pub proof fn the_read_rate_is_the_share_opened(s: StackV)
    requires
        s.wf(),
    ensures
        ({
            let opened = s.msgs.filter(|m: MsgV| !m.unread).len();
            &&& 0 <= s.rate() <= 100
            &&& s.rate() * s.msgs.len() <= 100 * opened < (s.rate() + 1) * s.msgs.len()
        }),
{
    unread_mail_is_counted(s.msgs);
    lemma_unread_bound(s.msgs);
    let n = s.msgs.len() as int;
    let o = n - s.unread_count;
    let r = s.rate();
    assert(o == s.msgs.filter(|m: MsgV| !m.unread).len());
    if s.unread_count < n {
        assert(r == o * 100 / n);
        assert(r * n <= 100 * o < (r + 1) * n && 0 <= r <= 100) by (nonlinear_arith)
            requires
                r == o * 100 / n,
                n > 0,
                0 <= o <= n,
        ;
    } else {
        assert(r == 0 && o == 0);
        assert(r * n <= 100 * o < (r + 1) * n) by (nonlinear_arith)
            requires
                r == 0,
                o == 0,
                n > 0,
        ;
    }
}

/// The one date is later than the other; a date is later than none.
pub open spec fn later(a: Option<Timestamp>, b: Option<Timestamp>) -> bool {
    match (a, b) {
        (Some(x), Some(y)) => x.secs > y.secs || (x.secs == y.secs && x.nanos > y.nanos),
        (Some(_), None) => true,
        (None, _) => false,
    }
}

/// The date of a stack's newest message.
pub open spec fn newest(s: StackV) -> Option<Timestamp> {
    s.msgs[0].date
}

/// Sorted by count, no stack stands below one with fewer messages, nor below an
/// equally large one whose newest message is older. Sorted by read rate, no
/// stack stands below one that was opened more, and among equally opened ones
/// the first rule holds.
pub proof fn the_list_is_in_the_order_asked_for(s: Seq<StackV>, i: int, j: int)
    requires
        0 <= i < j < s.len(),
        forall|k: int| 0 <= k < s.len() ==> (#[trigger] s[k]).msgs.len() > 0,
    ensures
        ({
            let r = stacks_sorted(s, SortBy::Count);
            let (a, b) = (r[i], r[j]);
            &&& a.msgs.len() >= b.msgs.len()
            &&& a.msgs.len() == b.msgs.len() ==> !later(newest(b), newest(a))
        }),
        ({
            let r = stacks_sorted(s, SortBy::ReadRate);
            let (a, b) = (r[i], r[j]);
            &&& a.rate() <= b.rate()
            &&& a.rate() == b.rate() ==> a.msgs.len() >= b.msgs.len()
            &&& a.rate() == b.rate() && a.msgs.len() == b.msgs.len() ==> !later(
                newest(b),
                newest(a),
            )
        }),
{
    broadcast use vstd::seq_lib::group_to_multiset_ensures;

    sorting_orders_and_permutes::<StackV, LargestFirst>(s);
    sorting_orders_and_permutes::<StackV, LeastReadFirst>(s);
    let c = stacks_sorted(s, SortBy::Count);
    let q = stacks_sorted(s, SortBy::ReadRate);
    assert(<LargestFirst as Order<StackV>>::le(c[i], c[j]));
    assert(<LeastReadFirst as Order<StackV>>::le(q[i], q[j]));
    lemma_held(c, s, i);
    lemma_held(c, s, j);
    lemma_held(q, s, i);
    lemma_held(q, s, j);
}

proof fn lemma_held(r: Seq<StackV>, s: Seq<StackV>, i: int)
    requires
        r.to_multiset() == s.to_multiset(),
        0 <= i < r.len(),
    ensures
        s.contains(r[i]),
{
    broadcast use vstd::seq_lib::group_to_multiset_ensures;

    assert(r.contains(r[i]));
    assert(s.to_multiset().count(r[i]) > 0);
}

proof fn lemma_with_key_filter(ms: Seq<MsgV>, by: GroupBy, key: Seq<char>)
    ensures
        with_key(ms, by, key) == ms.filter(|m: MsgV| group_key(m, by) == key),
    decreases ms.len(),
{
    reveal(Seq::filter);
    if ms.len() > 0 {
        lemma_with_key_filter(ms.drop_last(), by, key);
    }
}

proof fn lemma_stack_holds_its_key(ms: Seq<MsgV>, by: GroupBy, order: SortBy, i: int)
    requires
        0 <= i < stacks_from(ms, by, order).len(),
    ensures
        ({
            let s = stacks_from(ms, by, order)[i];
            s.msgs.to_multiset() == ms.filter(
                |m: MsgV| group_key(m, by) == s.key,
            ).to_multiset()
        }),
{
    let r = stacks_from(ms, by, order);
    let fresh = sorted::<MsgV, NewestFirst>(ms);
    let groups = grouped_by(fresh, by);
    let key = r[i].key;
    sorting_stacks_keeps_messages(groups, order);
    lemma_held(r, groups, i);
    let j = choose|j: int| 0 <= j < groups.len() && groups[j] == r[i];
    assert(r[i].msgs == with_key(fresh, by, key));
    lemma_with_key_sorted(ms, by, key);
    sorting_orders_and_permutes::<MsgV, NewestFirst>(with_key(ms, by, key));
    lemma_with_key_filter(ms, by, key);
}

proof fn lemma_stack_shows_its_newest(ms: Seq<MsgV>, by: GroupBy, order: SortBy, i: int)
    requires
        0 <= i < stacks_from(ms, by, order).len(),
    ensures
        ({
            let s = stacks_from(ms, by, order)[i];
            &&& proper_stack(s, by)
            &&& s.subject == (match by {
                GroupBy::Sender => None,
                GroupBy::SenderSubject => Some(s.msgs[0].subject),
            })
        }),
{
    lemma_stacks_are_built(ms, by, order);
    let s = stacks_from(ms, by, order)[i];
    assert(proper_stack(s, by));
    assert(s == stack_of(s.msgs, by, s.key));
}

/// Under [`GroupBy::Sender`] a stack is one sender's mail, all of it: its key
/// is the whole lowercased address of each of its messages, every message with
/// that address is in it, as often as it was given, and two messages share a
/// stack exactly when their lowercased addresses are equal. No subject is
/// shown for it.
pub proof fn a_stack_is_all_mail_of_one_sender(ms: Seq<MsgV>, order: SortBy)
    ensures
        ({
            let r = stacks_from(ms, GroupBy::Sender, order);
            &&& forall|i: int, a: int|
                0 <= i < r.len() && 0 <= a < r[i].msgs.len() ==> r[i].key == lowercase(
                    (#[trigger] r[i].msgs[a]).sender_email,
                )
            &&& forall|i: int, j: int, a: int, b: int|
                0 <= i < r.len() && 0 <= j < r.len() && 0 <= a < r[i].msgs.len() && 0 <= b
                    < r[j].msgs.len() ==> (i == j <==> lowercase(
                    (#[trigger] r[i].msgs[a]).sender_email,
                ) == lowercase((#[trigger] r[j].msgs[b]).sender_email))
            &&& forall|i: int|
                0 <= i < r.len() ==> (#[trigger] r[i]).msgs.to_multiset() == ms.filter(
                    |m: MsgV| lowercase(m.sender_email) == r[i].key,
                ).to_multiset()
            &&& forall|i: int| 0 <= i < r.len() ==> (#[trigger] r[i]).subject is None
            &&& forall|k: int|
                0 <= k < ms.len() ==> exists|i: int|
                    0 <= i < r.len() && (#[trigger] r[i]).key == lowercase(
                        (#[trigger] ms[k]).sender_email,
                    )
        }),
{
    let by = GroupBy::Sender;
    let r = stacks_from(ms, by, order);
    stacks_are_proper(ms, by, order);
    lemma_stacks_are_built(ms, by, order);
    assert forall|i: int, a: int| 0 <= i < r.len() && 0 <= a < r[i].msgs.len() implies r[i].key
        == lowercase((#[trigger] r[i].msgs[a]).sender_email) by {
        assert(proper_stack(r[i], by));
        assert(group_key(r[i].msgs[a], by) == r[i].key);
        a_key_is_the_whole_address(r[i].msgs[a]);
    }
    assert forall|i: int, j: int, a: int, b: int|
        0 <= i < r.len() && 0 <= j < r.len() && 0 <= a < r[i].msgs.len() && 0 <= b
            < r[j].msgs.len() implies (i == j <==> lowercase(
        (#[trigger] r[i].msgs[a]).sender_email,
    ) == lowercase((#[trigger] r[j].msgs[b]).sender_email)) by {
        if i < j {
            assert(r[i].key != r[j].key);
        } else if j < i {
            assert(r[j].key != r[i].key);
        }
    }
    assert forall|i: int| 0 <= i < r.len() implies (#[trigger] r[i]).msgs.to_multiset()
        == ms.filter(|m: MsgV| lowercase(m.sender_email) == r[i].key).to_multiset() by {
        lemma_stack_holds_its_key(ms, by, order, i);
        let f = |m: MsgV| group_key(m, by) == r[i].key;
        let g = |m: MsgV| lowercase(m.sender_email) == r[i].key;
        assert forall|m: MsgV| #[trigger] f(m) == g(m) by {
            a_key_is_the_whole_address(m);
        }
        assert(f =~= g);
    }
    assert forall|i: int| 0 <= i < r.len() implies (#[trigger] r[i]).subject is None by {
        lemma_stack_shows_its_newest(ms, by, order, i);
    }
    assert forall|k: int| 0 <= k < ms.len() implies exists|i: int|
        0 <= i < r.len() && (#[trigger] r[i]).key == lowercase(
            (#[trigger] ms[k]).sender_email,
        ) by {
        lemma_every_message_has_a_stack(ms, by, order, k);
        a_key_is_the_whole_address(ms[k]);
    }
}

proof fn lemma_every_message_has_a_stack(ms: Seq<MsgV>, by: GroupBy, order: SortBy, k: int)
    requires
        0 <= k < ms.len(),
    ensures
        exists|i: int|
            0 <= i < stacks_from(ms, by, order).len() && (#[trigger] stacks_from(
                ms,
                by,
                order,
            )[i]).key == group_key(ms[k], by),
{
    broadcast use vstd::seq_lib::group_to_multiset_ensures;
    broadcast use vstd::seq_lib::group_filter_ensures;

    let r = stacks_from(ms, by, order);
    let fresh = sorted::<MsgV, NewestFirst>(ms);
    let groups = grouped_by(fresh, by);
    let keys = keys_in(fresh, by);
    let key = group_key(ms[k], by);
    sorting_orders_and_permutes::<MsgV, NewestFirst>(ms);
    assert(ms.contains(ms[k]));
    assert(fresh.to_multiset().count(ms[k]) > 0);
    assert(fresh.contains(ms[k]));
    let q = choose|q: int| 0 <= q < fresh.len() && fresh[q] == ms[k];
    lemma_keys(fresh, by);
    lemma_with_key_filter(fresh, by, key);
    let f = |m: MsgV| group_key(m, by) == key;
    assert(f(fresh[q]));
    assert(fresh.filter(f).contains(fresh[q]));
    assert(with_key(fresh, by, key).len() > 0);
    assert(keys.contains(key));
    let p = choose|p: int| 0 <= p < keys.len() && keys[p] == key;
    sorting_stacks_keeps_messages(groups, order);
    assert(groups.contains(groups[p]));
    assert(groups.to_multiset().count(groups[p]) > 0);
    assert(r.to_multiset().count(groups[p]) > 0);
    assert(r.contains(groups[p]));
    let i = choose|i: int| 0 <= i < r.len() && r[i] == groups[p];
    assert(r[i].key == key);
}

/// Under [`GroupBy::SenderSubject`] two messages share a stack where their
/// lowercased addresses are equal and so are their lowercased subjects, numbers
/// aside; and nowhere else, as long as no address holds a NUL. The newest
/// message's subject is shown, as it was written.
pub proof fn a_stack_is_one_kind_of_mail(
    ms: Seq<MsgV>,
    order: SortBy,
    i: int,
    j: int,
    a: int,
    b: int,
)
    requires
        0 <= i < stacks_from(ms, GroupBy::SenderSubject, order).len(),
        0 <= j < stacks_from(ms, GroupBy::SenderSubject, order).len(),
        0 <= a < stacks_from(ms, GroupBy::SenderSubject, order)[i].msgs.len(),
        0 <= b < stacks_from(ms, GroupBy::SenderSubject, order)[j].msgs.len(),
    ensures
        ({
            let r = stacks_from(ms, GroupBy::SenderSubject, order);
            let (m, n) = (r[i].msgs[a], r[j].msgs[b]);
            let alike = lowercase(m.sender_email) == lowercase(n.sender_email) && numbers_masked(
                lowercase(m.subject),
            ) == numbers_masked(lowercase(n.subject));
            &&& alike ==> i == j
            &&& i == j && !lowercase(m.sender_email).contains('\0') && !lowercase(
                n.sender_email,
            ).contains('\0') ==> alike
            &&& r[i].subject == Some(r[i].msgs[0].subject)
            &&& r[i].key == lowercase(m.sender_email).push('\0') + numbers_masked(
                lowercase(m.subject),
            )
            &&& r[i].msgs.to_multiset() == ms.filter(
                |x: MsgV| group_key(x, GroupBy::SenderSubject) == r[i].key,
            ).to_multiset()
        }),
{
    let by = GroupBy::SenderSubject;
    let r = stacks_from(ms, by, order);
    let (m, n) = (r[i].msgs[a], r[j].msgs[b]);
    lemma_stacks_are_built(ms, by, order);
    lemma_stack_shows_its_newest(ms, by, order, i);
    lemma_stack_shows_its_newest(ms, by, order, j);
    lemma_stack_holds_its_key(ms, by, order, i);
    a_key_is_the_whole_address(m);
    a_key_is_the_whole_address(n);
    assert(group_key(r[i].msgs[a], by) == r[i].key);
    assert(group_key(r[j].msgs[b], by) == r[j].key);
    if i < j {
        assert(r[i].key != r[j].key);
    } else if j < i {
        assert(r[j].key != r[i].key);
    }
    let (x, y) = (lowercase(m.sender_email), lowercase(n.sender_email));
    let (u, v) = (numbers_masked(lowercase(m.subject)), numbers_masked(lowercase(n.subject)));
    if i == j && !x.contains('\0') && !y.contains('\0') {
        let key = r[i].key;
        assert(key[x.len() as int] == '\0');
        assert(key[y.len() as int] == '\0');
        if x.len() < y.len() {
            assert(y[x.len() as int] == '\0');
        } else if y.len() < x.len() {
            assert(x[y.len() as int] == '\0');
        }
        assert(x =~= key.take(x.len() as int));
        assert(y =~= key.take(y.len() as int));
        assert(u =~= key.skip(x.len() as int + 1));
        assert(v =~= key.skip(y.len() as int + 1));
    }
}

/// In a stack no message stands above a newer one; the row shows the newest
/// message's sender by name, or by address where it has no name, and counts
/// the unread messages. It offers to unsubscribe exactly where some message
/// does.
pub proof fn a_row_tells_of_its_messages(ms: Seq<MsgV>, by: GroupBy, order: SortBy, i: int)
    requires
        0 <= i < stacks_from(ms, by, order).len(),
    ensures
        ({
            let s = stacks_from(ms, by, order)[i];
            &&& s.msgs.len() > 0
            &&& forall|a: int, b: int|
                0 <= a < b < s.msgs.len() ==> !later(
                    (#[trigger] s.msgs[b]).date,
                    (#[trigger] s.msgs[a]).date,
                )
            &&& s.msgs[0].sender_name.len() > 0 ==> s.display_name == s.msgs[0].sender_name
            &&& s.msgs[0].sender_name.len() == 0 ==> s.display_name == s.msgs[0].sender_email
            &&& s.unread_count == s.msgs.filter(|m: MsgV| m.unread).len()
            &&& s.can_unsubscribe <==> exists|a: int|
                0 <= a < s.msgs.len() && (#[trigger] s.msgs[a]).list_unsubscribe is Some
        }),
{
    let s = stacks_from(ms, by, order)[i];
    lemma_stack_shows_its_newest(ms, by, order, i);
    unread_mail_is_counted(s.msgs);
    assert forall|a: int, b: int| 0 <= a < b < s.msgs.len() implies !later(
        (#[trigger] s.msgs[b]).date,
        (#[trigger] s.msgs[a]).date,
    ) by {
        assert(<NewestFirst as Order<MsgV>>::le(s.msgs[a], s.msgs[b]));
    }
}

} // verus!
