//! What is asked of an IMAP server, and what is made of its answers. The
//! socket itself is elsewhere: everything here is decisions about what to ask
//! for next.
use crate::clock::Timestamp;
use crate::sort::{in_order, sort, sorted, sorting_orders_and_permutes, views, Compare, Order};
use crate::stacks::{MsgMeta, MsgV};
use crate::text::{
    a_number_is_read_back, begins, chars_of, cut_at, decimal, eq_ignore_ascii_case, joined,
    joining_goes_on, lemma_index_of,
    lowercase, number_read, occurs, pieces, push_decimal, same_ignoring_case, str_contains,
    string_of, to_lower, to_occur_is_to_stand_somewhere, trim, trimmed, uppercase,
    what_is_joined_comes_apart_again,
};
use std::collections::HashSet;
use vstd::hash_set::StringHashSet;
use vstd::prelude::*;
use vstd::std_specs::iter::IteratorSpec;
use vstd::string::*;

verus! {

// ---------------------------------------------------------------------------
// errors
// ---------------------------------------------------------------------------

/// A timeout, as distinct from a server `NO`/`BAD`. The two mean different
/// things to a caller: a refusal arrives on a live connection and only affects
/// the one command, while after a timeout the session state is unknown.
#[derive(Debug, Clone)]
pub struct TimedOut {
    pub what: String,
    pub secs: u64,
}

impl TimedOut {
    pub open spec fn text(self) -> Seq<char> {
        self.what@ + " timed out after "@ + decimal(self.secs as nat)
            + "s — connection presumed dead, press R to reconnect"@
    }

    /// What the user is told.
    pub fn message(&self) -> (r: String)
        ensures
            r@ == self.text(),
    {
        let mut out = self.what.clone();
        out.append(" timed out after ");
        push_decimal(&mut out, self.secs);
        out.append("s — connection presumed dead, press R to reconnect");
        out
    }
}

/// What went wrong at the bottom.
#[derive(Debug, Clone)]
pub enum Cause {
    TimedOut(TimedOut),
    /// anything else: a refusal, a broken connection, a keychain that is shut
    Other(String),
}

impl Cause {
    pub open spec fn text(self) -> Seq<char> {
        match self {
            Cause::TimedOut(t) => t.text(),
            Cause::Other(s) => s@,
        }
    }
}

/// An error, and what was being done when it came up.
#[derive(Debug, Clone)]
pub struct MailError {
    pub cause: Cause,
    /// what was being done, innermost first
    pub during: Vec<String>,
}

/// An error in one line: what was being done, outermost first, then the cause.
pub open spec fn error_line(during: Seq<Seq<char>>, cause: Seq<char>) -> Seq<char>
    decreases during.len(),
{
    if during.len() == 0 {
        cause
    } else {
        during.last() + ": "@ + error_line(during.drop_last(), cause)
    }
}

impl MailError {
    pub open spec fn text(self) -> Seq<char> {
        error_line(views(self.during@), self.cause.text())
    }

    /// An error that is no timeout.
    pub fn new(message: &str) -> (r: MailError)
        ensures
            r.cause matches Cause::Other(s) && s@ == message@,
            r.during@ == Seq::<String>::empty(),
    {
        MailError { cause: Cause::Other(message.to_owned()), during: Vec::new() }
    }

    /// An operation that got no answer in time.
    pub fn timed_out(what: &str, secs: u64) -> (r: MailError)
        ensures
            r.cause matches Cause::TimedOut(t) && t.what@ == what@ && t.secs == secs,
            r.during@ == Seq::<String>::empty(),
    {
        MailError {
            cause: Cause::TimedOut(TimedOut { what: what.to_owned(), secs }),
            during: Vec::new(),
        }
    }

    /// The same error, with what a caller was doing.
    pub fn context(self, doing: &str) -> (r: MailError)
        ensures
            r.cause == self.cause,
            views(r.during@) == views(self.during@).push(doing@),
    {
        let mut during = self.during;
        let ghost before = during@;
        during.push(doing.to_owned());
        assert(views(during@) =~= views(before).push(doing@));
        MailError { cause: self.cause, during }
    }

    /// The error in one line.
    pub fn message(&self) -> (r: String)
        ensures
            r@ == self.text(),
    {
        let mut out = String::new();
        let ghost all = views(self.during@);
        let mut n: usize = self.during.len();
        assert(all.take(n as int) =~= all);
        while n > 0
            invariant
                n <= self.during@.len(),
                all == views(self.during@),
                out@ + error_line(all.take(n as int), self.cause.text()) == self.text(),
            decreases n,
        {
            let ghost before = out@;
            out.append(self.during[n - 1].as_str());
            out.append(": ");
            assert(all.take(n as int).drop_last() =~= all.take(n - 1));
            assert(all.take(n as int).last() == self.during@[n - 1]@);
            n -= 1;
            let ghost rest = error_line(all.take(n as int), self.cause.text());
            assert(before + (self.during@[n as int]@ + ": "@ + rest) =~= out@ + rest);
        }
        match &self.cause {
            Cause::TimedOut(t) => {
                let text = t.message();
                out.append(text.as_str());
            },
            Cause::Other(s) => {
                out.append(s.as_str());
            },
        }
        out
    }
}

/// Did this error come from an operation that got no answer in time, rather
/// than from the server answering? Callers must drop the connection when it
/// did.
pub fn is_timeout(e: &MailError) -> (r: bool)
    ensures
        r == (e.cause is TimedOut),
{
    match &e.cause {
        Cause::TimedOut(_) => true,
        Cause::Other(_) => false,
    }
}

// ---------------------------------------------------------------------------
// sets of UIDs
// ---------------------------------------------------------------------------

/// Smallest first.
pub struct Ascending;

impl Order<u32> for Ascending {
    open spec fn le(a: u32, b: u32) -> bool {
        a <= b
    }

    proof fn total(a: u32, b: u32) {
    }

    proof fn transitive(a: u32, b: u32, c: u32) {
    }
}

impl Compare<u32> for Ascending {
    fn before(a: &u32, b: &u32) -> (r: bool) {
        *a <= *b
    }
}

/// Largest first.
pub struct Descending;

impl Order<u32> for Descending {
    open spec fn le(a: u32, b: u32) -> bool {
        a >= b
    }

    proof fn total(a: u32, b: u32) {
    }

    proof fn transitive(a: u32, b: u32, c: u32) {
    }
}

impl Compare<u32> for Descending {
    fn before(a: &u32, b: &u32) -> (r: bool) {
        *a >= *b
    }
}

/// Every element is larger than the one before it.
pub open spec fn increasing(s: Seq<u32>) -> bool {
    forall|i: int, j: int| 0 <= i < j < s.len() ==> #[trigger] s[i] < #[trigger] s[j]
}

/// Every element is smaller than the one before it.
pub open spec fn decreasing(s: Seq<u32>) -> bool {
    forall|i: int, j: int| 0 <= i < j < s.len() ==> #[trigger] s[i] > #[trigger] s[j]
}

/// A sorted sequence with each number once.
pub open spec fn each_once(s: Seq<u32>) -> Seq<u32>
    decreases s.len(),
{
    if s.len() == 0 {
        s
    } else if s.len() > 1 && s[s.len() - 2] == s.last() {
        each_once(s.drop_last())
    } else {
        each_once(s.drop_last()).push(s.last())
    }
}

/// The numbers in ascending order, each once.
pub open spec fn ascending(s: Seq<u32>) -> Seq<u32> {
    each_once(sorted::<u32, Ascending>(s))
}

/// An ascending sequence as runs of consecutive numbers: first and last of
/// each run.
pub open spec fn runs(s: Seq<u32>) -> Seq<(u32, u32)>
    decreases s.len(),
{
    if s.len() == 0 {
        Seq::empty()
    } else {
        let r = runs(s.drop_last());
        let x = s.last();
        if r.len() > 0 && r.last().1 + 1 == x {
            r.drop_last().push((r.last().0, x))
        } else {
            r.push((x, x))
        }
    }
}

/// One run in IMAP's set syntax.
pub open spec fn run_text(r: (u32, u32)) -> Seq<char> {
    if r.0 == r.1 {
        decimal(r.0 as nat)
    } else {
        decimal(r.0 as nat) + ":"@ + decimal(r.1 as nat)
    }
}

/// Runs in IMAP's set syntax, separated by commas.
pub open spec fn runs_text(s: Seq<(u32, u32)>) -> Seq<char>
    decreases s.len(),
{
    if s.len() == 0 {
        Seq::empty()
    } else if s.len() == 1 {
        run_text(s[0])
    } else {
        runs_text(s.drop_last()) + ","@ + run_text(s.last())
    }
}

/// A set of UIDs in IMAP's set syntax.
pub open spec fn uid_set_text(uids: Seq<u32>) -> Seq<char> {
    runs_text(runs(ascending(uids)))
}

proof fn lemma_each_once(s: Seq<u32>)
    requires
        in_order::<u32, Ascending>(s),
    ensures
        increasing(each_once(s)),
        s.len() > 0 ==> each_once(s).len() > 0 && each_once(s).last() == s.last(),
        forall|x: u32| each_once(s).contains(x) <==> s.contains(x),
    decreases s.len(),
{
    if s.len() > 0 {
        let front = s.drop_last();
        let kept = each_once(front);
        let x = s.last();
        assert forall|i: int, j: int| 0 <= i < j < front.len() implies <Ascending as Order<
            u32,
        >>::le(#[trigger] front[i], #[trigger] front[j]) by {
            assert(front[i] == s[i] && front[j] == s[j]);
        }
        lemma_each_once(front);
        assert(front.push(x) =~= s);
        if s.len() > 1 {
            assert(front.last() == s[s.len() - 2]);
            assert(<Ascending as Order<u32>>::le(s[s.len() - 2], s[s.len() - 1]));
        }
        assert forall|y: u32| each_once(s).contains(y) <==> s.contains(y) by {
            if s.contains(y) {
                let i = choose|i: int| 0 <= i < s.len() && s[i] == y;
                if i < front.len() {
                    assert(front[i] == y);
                    assert(front.contains(y));
                    assert(kept.contains(y));
                    let k = choose|k: int| 0 <= k < kept.len() && kept[k] == y;
                    assert(each_once(s)[k] == y);
                } else if each_once(s) == kept.push(x) {
                    assert(each_once(s)[kept.len() as int] == y);
                } else {
                    assert(front[front.len() - 1] == y);
                }
            }
            if each_once(s).contains(y) {
                let k = choose|k: int| 0 <= k < each_once(s).len() && each_once(s)[k] == y;
                if k < kept.len() {
                    assert(kept[k] == y);
                    assert(front.contains(y));
                    let i = choose|i: int| 0 <= i < front.len() && front[i] == y;
                    assert(s[i] == y);
                } else {
                    assert(s[s.len() - 1] == y);
                }
            }
        }
        if !(s.len() > 1 && s[s.len() - 2] == x) {
            assert forall|i: int, j: int|
                0 <= i < j < kept.push(x).len() implies #[trigger] kept.push(x)[i]
                < #[trigger] kept.push(x)[j] by {
                if j == kept.len() {
                    assert(kept[i] <= kept.last());
                }
            }
        }
    }
}

pub proof fn lemma_ascending(s: Seq<u32>)
    ensures
        increasing(ascending(s)),
        forall|x: u32| ascending(s).contains(x) <==> s.contains(x),
{
    broadcast use vstd::seq_lib::group_to_multiset_ensures;

    let t = sorted::<u32, Ascending>(s);
    sorting_orders_and_permutes::<u32, Ascending>(s);
    lemma_each_once(t);
    assert forall|x: u32| ascending(s).contains(x) <==> s.contains(x) by {
        assert(t.contains(x) <==> t.to_multiset().count(x) > 0);
        assert(s.contains(x) <==> s.to_multiset().count(x) > 0);
    }
}

fn drop_repeats(s: &Vec<u32>) -> (r: Vec<u32>)
    ensures
        r@ == each_once(s@),
{
    let mut out: Vec<u32> = Vec::new();
    let mut i: usize = 0;
    assert(s@.take(0) =~= Seq::<u32>::empty());
    while i < s.len()
        invariant
            i <= s@.len(),
            out@ == each_once(s@.take(i as int)),
        decreases s@.len() - i,
    {
        assert(s@.take(i + 1).drop_last() =~= s@.take(i as int));
        if i == 0 || s[i - 1] != s[i] {
            out.push(s[i]);
        }
        i += 1;
    }
    assert(s@.take(i as int) =~= s@);
    out
}

/// The UIDs in ascending order, each once.
pub fn ascending_uids(uids: &[u32]) -> (r: Vec<u32>)
    ensures
        r@ == ascending(uids@),
        increasing(r@),
        forall|i: int, j: int| 0 <= i < j < r@.len() ==> #[trigger] r@[i] < #[trigger] r@[j],
        forall|x: u32| #[trigger] r@.contains(x) <==> uids@.contains(x),
{
    let mut all: Vec<u32> = Vec::new();
    let mut i: usize = 0;
    while i < uids.len()
        invariant
            i <= uids@.len(),
            all@ == uids@.take(i as int),
        decreases uids@.len() - i,
    {
        all.push(uids[i]);
        i += 1;
    }
    assert(uids@.take(i as int) =~= uids@);
    let sorted_uids = sort::<u32, Ascending>(all);
    proof {
        lemma_ascending(uids@);
    }
    drop_repeats(&sorted_uids)
}

fn push_run(out: &mut String, start: u32, end: u32)
    ensures
        final(out)@ == old(out)@ + run_text((start, end)),
{
    let ghost before = out@;
    push_decimal(out, start as u64);
    if start != end {
        out.append(":");
        push_decimal(out, end as u64);
    }
    assert(out@ =~= before + run_text((start, end)));
}

/// Compress uids into IMAP set syntax: 1,2,3,7 -> "1:3,7".
pub fn uid_set(uids: &[u32]) -> (r: String)
    ensures
        r@ == uid_set_text(uids@),
        forall|x: u32| set_names(r@, x as nat) <==> uids@.contains(x),
{
    proof {
        a_uid_set_is_read_as_exactly_the_uids(uids@);
    }
    let uids = ascending_uids(uids);
    let ghost all = uids@;
    let mut out = String::new();
    if uids.len() == 0 {
        return out;
    }
    // the run that is still growing; every run before it is written out
    let mut start: u32 = uids[0];
    let mut end: u32 = start;
    let mut first = true;
    let mut i: usize = 1;
    proof {
        assert(all.take(1).drop_last() =~= Seq::<u32>::empty());
        reveal_with_fuel(runs, 2);
        assert(runs(all.take(1)) =~= seq![(start, end)]);
        assert(runs(all.take(1)).drop_last() =~= Seq::<(u32, u32)>::empty());
    }
    while i < uids.len()
        invariant
            1 <= i <= all.len(),
            all == uids@,
            increasing(all),
            runs(all.take(i as int)).len() > 0,
            runs(all.take(i as int)).last() == (start, end),
            end == all[i - 1],
            first == (runs(all.take(i as int)).len() == 1),
            out@ == runs_text(runs(all.take(i as int)).drop_last()),
        decreases all.len() - i,
    {
        let x: u32 = uids[i];
        let ghost r = runs(all.take(i as int));
        assert(all.take(i + 1).drop_last() =~= all.take(i as int));
        assert(all.take(i + 1).last() == x);
        assert(all[i - 1] < all[i as int]);
        if end + 1 == x {
            end = x;
            assert(r.drop_last().push((start, end)).drop_last() =~= r.drop_last());
        } else {
            if !first {
                out.append(",");
            }
            push_run(&mut out, start, end);
            first = false;
            start = x;
            end = x;
            assert(r.push((x, x)).drop_last() =~= r);
            assert(out@ =~= runs_text(r));
        }
        i += 1;
    }
    let ghost r = runs(all);
    assert(all.take(i as int) =~= all);
    if !first {
        out.append(",");
    }
    push_run(&mut out, start, end);
    assert(out@ =~= runs_text(r));
    out
}

/// The number lies in one of the runs.
pub open spec fn in_runs(s: Seq<(u32, u32)>, x: u32) -> bool {
    exists|k: int| 0 <= k < s.len() && (#[trigger] s[k]).0 <= x <= s[k].1
}

/// Runs that ascend, and leave a number out between any two.
pub open spec fn apart(s: Seq<(u32, u32)>) -> bool {
    &&& forall|k: int| 0 <= k < s.len() ==> (#[trigger] s[k]).0 <= s[k].1
    &&& forall|j: int, k: int|
        0 <= j < k < s.len() ==> (#[trigger] s[j]).1 + 1 < (#[trigger] s[k]).0
}

proof fn lemma_runs(s: Seq<u32>)
    requires
        increasing(s),
    ensures
        s.len() > 0 ==> runs(s).len() > 0 && runs(s).last().1 == s.last(),
        apart(runs(s)),
        forall|x: u32| in_runs(runs(s), x) <==> s.contains(x),
    decreases s.len(),
{
    if s.len() > 0 {
        let front = s.drop_last();
        let x = s.last();
        let r = runs(front);
        let t = runs(s);
        assert forall|i: int, j: int| 0 <= i < j < front.len() implies #[trigger] front[i]
            < #[trigger] front[j] by {
            assert(front[i] == s[i] && front[j] == s[j]);
        }
        lemma_runs(front);
        if front.len() > 0 {
            assert(s[front.len() - 1] < s[s.len() - 1]);
        }
        assert(apart(t)) by {
            assert forall|k: int| 0 <= k < t.len() implies (#[trigger] t[k]).0 <= t[k].1 by {
                if k < r.len() {
                    assert(r[k].0 <= r[k].1);
                }
            }
            assert forall|j: int, k: int| 0 <= j < k < t.len() implies (#[trigger] t[j]).1 + 1 < (
            #[trigger] t[k]).0 by {
                if k < r.len() {
                    assert(t[j] == r[j] && t[k].0 == r[k].0);
                    assert(r[j].1 + 1 < r[k].0);
                } else {
                    assert(t[j] == r[j]);
                    if j < r.len() - 1 {
                        assert(r[j].1 + 1 < r[r.len() - 1].0);
                        assert(r[r.len() - 1].0 <= r[r.len() - 1].1);
                    }
                    assert(r.last().1 == front.last());
                }
            }
        }
        assert forall|y: u32| in_runs(t, y) <==> s.contains(y) by {
            if s.contains(y) {
                let i = choose|i: int| 0 <= i < s.len() && s[i] == y;
                if i < front.len() {
                    assert(front[i] == y);
                    assert(front.contains(y));
                    assert(in_runs(r, y));
                    let k = choose|k: int| 0 <= k < r.len() && (#[trigger] r[k]).0 <= y <= r[k].1;
                    assert(t[k].0 <= y <= t[k].1);
                } else {
                    assert(r.len() > 0 ==> r[r.len() - 1].0 <= r[r.len() - 1].1);
                    assert(t[t.len() - 1].0 <= y <= t[t.len() - 1].1);
                }
            }
            if in_runs(t, y) {
                let k = choose|k: int| 0 <= k < t.len() && (#[trigger] t[k]).0 <= y <= t[k].1;
                if y == x {
                    assert(s[s.len() - 1] == y);
                } else {
                    assert(k < r.len());
                    assert(r[k].0 <= y <= r[k].1);
                    assert(front.contains(y));
                    let i = choose|i: int| 0 <= i < front.len() && front[i] == y;
                    assert(s[i] == y);
                }
            }
        }
    }
}

/// The set that is sent names the UIDs given, all of them and no other, in
/// runs that ascend and do not touch.
pub proof fn a_uid_set_names_exactly_the_uids(uids: Seq<u32>)
    ensures
        forall|x: u32| in_runs(runs(ascending(uids)), x) <==> uids.contains(x),
        apart(runs(ascending(uids))),
{
    lemma_ascending(uids);
    lemma_runs(ascending(uids));
}

/// What a server reads in one part of a set: a number by itself, or the first
/// and the last of a span with a colon between them.
pub open spec fn span_read(part: Seq<char>) -> Option<(nat, nat)> {
    match cut_at(part, ':') {
        Some((first, last)) => match (number_read(first), number_read(last)) {
            (Some(lo), Some(hi)) => Some((lo, hi)),
            _ => None,
        },
        None => match number_read(part) {
            Some(n) => Some((n, n)),
            None => None,
        },
    }
}

/// A server that reads this text as a set finds the number in it: in one of
/// the parts between the commas.
pub open spec fn set_names(text: Seq<char>, x: nat) -> bool {
    exists|k: int|
        0 <= k < pieces(text, ',').len() && (span_read(#[trigger] pieces(text, ',')[k]) matches Some(
            (lo, hi),
        ) && lo <= x <= hi)
}

proof fn lemma_run_read(r: (u32, u32))
    ensures
        span_read(run_text(r)) == Some((r.0 as nat, r.1 as nat)),
        !run_text(r).contains(','),
{
    reveal_strlit(":");
    let (a, b) = (decimal(r.0 as nat), decimal(r.1 as nat));
    a_number_is_read_back(r.0 as nat);
    a_number_is_read_back(r.1 as nat);
    let t = run_text(r);
    if r.0 == r.1 {
        lemma_index_of(t, ':', t.len() as int);
    } else {
        assert(t[a.len() as int] == ':');
        assert forall|j: int| 0 <= j < a.len() implies t[j] != ':' by {
            assert(t[j] == a[j]);
        }
        lemma_index_of(t, ':', a.len() as int);
        assert(t.take(a.len() as int) =~= a);
        assert(t.skip(a.len() as int + 1) =~= b);
    }
    if t.contains(',') {
        let j = choose|j: int| 0 <= j < t.len() && t[j] == ',';
        if j < a.len() {
            assert(t[j] == a[j]);
        } else if j > a.len() {
            assert(t[j] == b[j - a.len() - 1]);
        }
    }
}

proof fn lemma_runs_joined(s: Seq<(u32, u32)>)
    ensures
        runs_text(s) == joined(Seq::new(s.len(), |k: int| run_text(s[k])), seq![',']),
    decreases s.len(),
{
    reveal_strlit(",");
    assert(","@ =~= seq![',']);
    let texts = Seq::new(s.len(), |k: int| run_text(s[k]));
    if s.len() > 1 {
        let front = s.drop_last();
        lemma_runs_joined(front);
        assert(texts.drop_last() =~= Seq::new(front.len(), |k: int| run_text(front[k])));
    }
}

/// A server that reads the set finds the UIDs given in it, all of them and no
/// other. Every part between the commas reads as a number or a span, they
/// ascend, and no two could have been written as one.
pub proof fn a_uid_set_is_read_as_exactly_the_uids(uids: Seq<u32>)
    ensures
        forall|x: u32| set_names(uid_set_text(uids), x as nat) <==> uids.contains(x),
        forall|n: nat| set_names(uid_set_text(uids), n) ==> n <= u32::MAX,
        uids.len() > 0 ==> {
            let parts = pieces(uid_set_text(uids), ',');
            &&& forall|k: int|
                0 <= k < parts.len() ==> (span_read(#[trigger] parts[k]) matches Some((lo, hi))
                    && lo <= hi && (parts[k].contains(':') <==> lo < hi))
            &&& forall|j: int, k: int|
                0 <= j < k < parts.len() ==> (span_read(#[trigger] parts[j])->0).1 + 1 < (span_read(
                    #[trigger] parts[k],
                )->0).0
        },
{
    let text = uid_set_text(uids);
    let all = ascending(uids);
    let r = runs(all);
    let texts = Seq::new(r.len(), |k: int| run_text(r[k]));
    let parts = pieces(text, ',');
    a_uid_set_names_exactly_the_uids(uids);
    lemma_ascending(uids);
    lemma_runs_joined(r);
    assert forall|k: int| 0 <= k < r.len() implies span_read(run_text(#[trigger] r[k])) == Some(
        (r[k].0 as nat, r[k].1 as nat),
    ) && !run_text(r[k]).contains(',') by {
        lemma_run_read(r[k]);
    }
    if r.len() == 0 {
        assert(text =~= Seq::<char>::empty());
        assert(parts.len() == 1 && parts[0] =~= Seq::<char>::empty());
        lemma_index_of(parts[0], ':', 0);
        assert(span_read(parts[0]) is None);
        assert forall|x: u32| !uids.contains(x) by {
            assert(!in_runs(r, x));
        }
        if uids.len() > 0 {
            assert(uids.contains(uids[0]));
        }
    } else {
        assert forall|k: int| 0 <= k < texts.len() implies !(#[trigger] texts[k]).contains(',') by {
            assert(!run_text(r[k]).contains(','));
        }
        what_is_joined_comes_apart_again(texts, ',');
        assert(parts == texts);
        assert forall|x: u32| set_names(text, x as nat) <==> uids.contains(x) by {
            if set_names(text, x as nat) {
                let k = choose|k: int|
                    0 <= k < parts.len() && (span_read(#[trigger] parts[k]) matches Some((lo, hi))
                        && lo <= x as nat <= hi);
                assert(r[k].0 <= x <= r[k].1);
            }
            if uids.contains(x) {
                let k = choose|k: int| 0 <= k < r.len() && (#[trigger] r[k]).0 <= x <= r[k].1;
                assert(span_read(parts[k]) == Some((r[k].0 as nat, r[k].1 as nat)));
            }
        }
        assert forall|n: nat| set_names(text, n) implies n <= u32::MAX by {
            let k = choose|k: int|
                0 <= k < parts.len() && (span_read(#[trigger] parts[k]) matches Some((lo, hi)) && lo
                    <= n <= hi);
            assert(span_read(parts[k]) == Some((r[k].0 as nat, r[k].1 as nat)));
        }
        assert forall|k: int| 0 <= k < parts.len() implies (span_read(
            #[trigger] parts[k],
        ) matches Some((lo, hi)) && lo <= hi && (parts[k].contains(':') <==> lo < hi)) by {
            assert(r[k].0 <= r[k].1);
            lemma_run_colon(r[k]);
        }
        assert forall|j: int, k: int| 0 <= j < k < parts.len() implies (span_read(
            #[trigger] parts[j],
        )->0).1 + 1 < (span_read(#[trigger] parts[k])->0).0 by {
            assert(r[j].1 + 1 < r[k].0);
        }
    }
}

proof fn lemma_run_colon(r: (u32, u32))
    ensures
        run_text(r).contains(':') <==> r.0 != r.1,
{
    reveal_strlit(":");
    let a = decimal(r.0 as nat);
    a_number_is_read_back(r.0 as nat);
    if r.0 != r.1 {
        assert(run_text(r)[a.len() as int] == ':');
    }
}

/// A UID search result as a newest-first list.
pub fn newest_first(found: HashSet<u32>) -> (r: Vec<u32>)
    ensures
        decreasing(r@),
        forall|i: int, j: int| 0 <= i < j < r@.len() ==> #[trigger] r@[i] > #[trigger] r@[j],
        forall|x: u32| r@.contains(x) <==> found@.contains(x),
{
    broadcast use vstd::std_specs::hash::group_hash_axioms;
    broadcast use vstd::seq_lib::group_to_multiset_ensures;

    let mut all: Vec<u32> = Vec::new();
    for x in it: found.iter()
        invariant
            all@.len() == it.index(),
            forall|i: int| 0 <= i < all@.len() ==> all@[i] == *it.seq()[i],
    {
        all.push(*x);
    }
    let ghost items = found.iter().remaining();
    let uids = sort::<u32, Descending>(all);
    proof {
        sorting_orders_and_permutes::<u32, Descending>(all@);
        assert(all@ =~= items.unref());
        all@.lemma_multiset_has_no_duplicates();
        uids@.lemma_multiset_has_no_duplicates_conv();
        assert forall|i: int, j: int| 0 <= i < j < uids@.len() implies #[trigger] uids@[i]
            > #[trigger] uids@[j] by {
            assert(<Descending as Order<u32>>::le(uids@[i], uids@[j]));
            assert(uids@[i] != uids@[j]);
        }
        assert forall|x: u32| uids@.contains(x) <==> found@.contains(x) by {
            assert(uids@.contains(x) <==> uids@.to_multiset().count(x) > 0);
            assert(all@.contains(x) <==> all@.to_multiset().count(x) > 0);
            assert(all@.to_set().contains(x) <==> all@.contains(x));
        }
    }
    uids
}

// ---------------------------------------------------------------------------
// quoted strings
// ---------------------------------------------------------------------------

/// A text with a backslash before every backslash and every quote.
pub open spec fn escaped(s: Seq<char>) -> Seq<char>
    decreases s.len(),
{
    if s.len() == 0 {
        s
    } else if s.last() == '\\' || s.last() == '"' {
        escaped(s.drop_last()).push('\\').push(s.last())
    } else {
        escaped(s.drop_last()).push(s.last())
    }
}

/// An IMAP quoted string, so an address can never end the argument early.
pub fn quoted(s: &str) -> (r: String)
    ensures
        r@ == seq!['"'] + escaped(s@) + seq!['"'],
        r@.len() > 0 && r@[0] == '"',
        read_quoted(r@.skip(1)) == Some((s@, Seq::<char>::empty())),
{
    proof {
        a_quoted_text_is_read_back_whole(s@, Seq::empty());
        let q = seq!['"'] + escaped(s@) + seq!['"'];
        assert(q.skip(1) =~= escaped(s@) + seq!['"'] + Seq::<char>::empty());
    }
    let mut out = String::new();
    let ghost all = s@;
    out.push('"');
    for c in it: s.chars()
        invariant
            it.seq() == all,
            out@ == seq!['"'] + escaped(all.take(it.index() as int)),
    {
        let ghost i = it.index() as int;
        assert(all.take(i + 1).drop_last() =~= all.take(i));
        if c == '\\' || c == '"' {
            out.push('\\');
        }
        out.push(c);
        assert(out@ =~= seq!['"'] + escaped(all.take(i + 1)));
    }
    assert(all.take(all.len() as int) =~= all);
    out.push('"');
    assert(out@ =~= seq!['"'] + escaped(all) + seq!['"']);
    out
}

/// How a server reads the inside of a quoted string: up to the first quote
/// that no backslash escapes. What was read, and what follows the quote.
pub open spec fn read_quoted(s: Seq<char>) -> Option<(Seq<char>, Seq<char>)>
    decreases s.len(),
{
    if s.len() == 0 {
        None
    } else if s[0] == '"' {
        Some((Seq::empty(), s.skip(1)))
    } else if s[0] == '\\' {
        if s.len() == 1 {
            None
        } else {
            match read_quoted(s.skip(2)) {
                Some((text, rest)) => Some((seq![s[1]] + text, rest)),
                None => None,
            }
        }
    } else {
        match read_quoted(s.skip(1)) {
            Some((text, rest)) => Some((seq![s[0]] + text, rest)),
            None => None,
        }
    }
}

proof fn lemma_escaped_front(s: Seq<char>)
    requires
        s.len() > 0,
    ensures
        escaped(s) == (if s[0] == '\\' || s[0] == '"' {
            seq!['\\', s[0]]
        } else {
            seq![s[0]]
        }) + escaped(s.skip(1)),
    decreases s.len(),
{
    if s.len() == 1 {
        assert(s.drop_last() =~= Seq::<char>::empty());
        assert(s.skip(1) =~= Seq::<char>::empty());
        assert(escaped(s.drop_last()) =~= Seq::<char>::empty());
        assert(escaped(s.skip(1)) =~= Seq::<char>::empty());
        assert(escaped(s) =~= if s[0] == '\\' || s[0] == '"' {
            seq!['\\', s[0]]
        } else {
            seq![s[0]]
        });
    } else {
        lemma_escaped_front(s.drop_last());
        assert(s.skip(1).drop_last() =~= s.drop_last().skip(1));
        assert(s.skip(1).last() == s.last());
        assert(s.drop_last()[0] == s[0]);
        let head = if s[0] == '\\' || s[0] == '"' {
            seq!['\\', s[0]]
        } else {
            seq![s[0]]
        };
        assert(escaped(s) =~= head + escaped(s.skip(1)));
    }
}

/// Whatever a text holds, a server that reads it quoted reads the text itself
/// and stops at the closing quote: nothing in it can end the argument early.
pub proof fn a_quoted_text_is_read_back_whole(s: Seq<char>, rest: Seq<char>)
    ensures
        read_quoted(escaped(s) + seq!['"'] + rest) == Some((s, rest)),
    decreases s.len(),
{
    let q = escaped(s) + seq!['"'] + rest;
    if s.len() == 0 {
        assert(q[0] == '"');
        assert(q.skip(1) =~= rest);
        assert(Seq::<char>::empty() =~= s);
    } else {
        lemma_escaped_front(s);
        a_quoted_text_is_read_back_whole(s.skip(1), rest);
        let q1 = escaped(s.skip(1)) + seq!['"'] + rest;
        assert(seq![s[0]] + s.skip(1) =~= s);
        if s[0] == '\\' || s[0] == '"' {
            assert(q[0] == '\\' && q[1] == s[0]);
            assert(q.skip(2) =~= q1);
        } else {
            assert(q[0] == s[0]);
            assert(q.skip(1) =~= q1);
        }
    }
}

// ---------------------------------------------------------------------------
// reading headers
// ---------------------------------------------------------------------------

/// The header fields that `mailparse::parse_headers` finds in raw bytes, as
/// names and values, or nothing where it cannot parse them.
pub uninterp spec fn parsed_headers(raw: Seq<u8>) -> Option<Seq<(Seq<char>, Seq<char>)>>;

/// Named fields as texts.
pub open spec fn field_texts(fields: Seq<(String, String)>) -> Seq<(Seq<char>, Seq<char>)> {
    Seq::new(fields.len(), |i: int| (fields[i].0@, fields[i].1@))
}

/// `mailparse::parse_headers`, each header as what its `get_key` and
/// `get_value` give. The result depends on the bytes alone.
#[verifier::external_body]
pub(crate) fn parse_headers(raw: &[u8]) -> (r: Option<Vec<(String, String)>>)
    ensures
        match r {
            Some(fields) => parsed_headers(raw@) == Some(field_texts(fields@)),
            None => parsed_headers(raw@) is None,
        },
{
    let (headers, _) = mailparse::parse_headers(raw).ok()?;
    Some(headers.iter().map(|h| (h.get_key(), h.get_value())).collect())
}

/// The mailboxes that `mailparse::addrparse` finds in the value of an address
/// header, or nothing where it cannot parse it. Each entry of the list is the
/// mailboxes of one address: one for a single address, those of the group for
/// a group. A mailbox is its display name, where it has one, and its address.
pub uninterp spec fn parsed_addresses(raw: Seq<char>) -> Option<
    Seq<Seq<(Option<Seq<char>>, Seq<char>)>>,
>;

/// Mailboxes as texts.
pub open spec fn mailbox_texts(boxes: Seq<(Option<String>, String)>) -> Seq<
    (Option<Seq<char>>, Seq<char>),
> {
    Seq::new(
        boxes.len(),
        |i: int|
            (
                match boxes[i].0 {
                    Some(name) => Some(name@),
                    None => None,
                },
                boxes[i].1@,
            ),
    )
}

/// A list of addresses as texts.
pub open spec fn address_texts(list: Seq<Vec<(Option<String>, String)>>) -> Seq<
    Seq<(Option<Seq<char>>, Seq<char>)>,
> {
    Seq::new(list.len(), |i: int| mailbox_texts(list[i]@))
}

/// `mailparse::addrparse`, each address as its mailboxes. The result depends
/// on the text alone.
#[verifier::external_body]
pub(crate) fn parse_addresses(raw: &str) -> (r: Option<Vec<Vec<(Option<String>, String)>>>)
    ensures
        match r {
            Some(list) => parsed_addresses(raw@) == Some(address_texts(list@)),
            None => parsed_addresses(raw@) is None,
        },
{
    let list = mailparse::addrparse(raw).ok()?.into_inner();
    Some(
        list.into_iter().map(
            |a| match a {
                mailparse::MailAddr::Single(s) => vec![(s.display_name, s.addr)],
                mailparse::MailAddr::Group(g) => {
                    g.addrs.into_iter().map(|s| (s.display_name, s.addr)).collect()
                },
            },
        ).collect(),
    )
}

/// The value of the first field of this name, letter case aside.
pub open spec fn first_value(fields: Seq<(Seq<char>, Seq<char>)>, name: Seq<char>) -> Option<
    Seq<char>,
>
    decreases fields.len(),
{
    if fields.len() == 0 {
        None
    } else if same_ignoring_case(fields[0].0, name) {
        Some(fields[0].1)
    } else {
        first_value(fields.skip(1), name)
    }
}

/// The value of the first field of this name, letter case aside.
pub fn get_first_value(fields: &[(String, String)], name: &str) -> (r: Option<String>)
    ensures
        match r {
            Some(v) => first_value(field_texts(fields@), name@) == Some(v@),
            None => first_value(field_texts(fields@), name@) is None,
        },
{
    let wanted = chars_of(name);
    let ghost all = field_texts(fields@);
    let mut i: usize = 0;
    assert(all.skip(0) =~= all);
    while i < fields.len()
        invariant
            i <= fields@.len(),
            wanted@ == name@,
            all == field_texts(fields@),
            first_value(all.skip(i as int), name@) == first_value(all, name@),
        decreases fields@.len() - i,
    {
        let key = chars_of(fields[i].0.as_str());
        assert(all.skip(i as int)[0] == all[i as int]);
        assert(all.skip(i as int).skip(1) =~= all.skip(i + 1));
        if eq_ignore_ascii_case(key.as_slice(), wanted.as_slice()) {
            return Some(fields[i].1.clone());
        }
        i += 1;
    }
    None
}

/// The first mailbox of the first address that has one: its name and its
/// address.
pub open spec fn first_mailbox(list: Seq<Seq<(Option<Seq<char>>, Seq<char>)>>) -> Option<
    (Seq<char>, Seq<char>),
>
    decreases list.len(),
{
    if list.len() == 0 {
        None
    } else if list[0].len() > 0 {
        Some(
            (
                match list[0][0].0 {
                    Some(name) => name,
                    None => Seq::empty(),
                },
                list[0][0].1,
            ),
        )
    } else {
        first_mailbox(list.skip(1))
    }
}

/// A sender's name and address: the first mailbox, or the whole text as the
/// address where there is none.
pub open spec fn sender_in(
    list: Option<Seq<Seq<(Option<Seq<char>>, Seq<char>)>>>,
    raw: Seq<char>,
) -> (Seq<char>, Seq<char>) {
    match list {
        Some(l) => match first_mailbox(l) {
            Some(m) => m,
            None => (Seq::empty(), trimmed(raw)),
        },
        None => (Seq::empty(), trimmed(raw)),
    }
}

/// A sender's name and address out of the parsed list.
pub fn pick_sender(list: Option<Vec<Vec<(Option<String>, String)>>>, raw: &str) -> (r: (
    String,
    String,
))
    ensures
        (r.0@, r.1@) == sender_in(
            match list {
                Some(l) => Some(address_texts(l@)),
                None => None,
            },
            raw@,
        ),
{
    if let Some(groups) = &list {
        let ghost all = address_texts(groups@);
        let mut i: usize = 0;
        assert(all.skip(0) =~= all);
        while i < groups.len()
            invariant
                i <= groups@.len(),
                list == Some(*groups),
                all == address_texts(groups@),
                first_mailbox(all.skip(i as int)) == first_mailbox(all),
            decreases groups@.len() - i,
        {
            assert(all.skip(i as int)[0] == mailbox_texts(groups@[i as int]@));
            assert(all.skip(i as int).skip(1) =~= all.skip(i + 1));
            if groups[i].len() > 0 {
                let first = &groups[i][0];
                let ghost shown = mailbox_texts(groups@[i as int]@)[0];
                assert(shown.1 == first.1@);
                assert(shown.0 == match first.0 {
                    Some(n) => Some(n@),
                    None => None,
                });
                let name = match &first.0 {
                    Some(n) => n.clone(),
                    None => String::new(),
                };
                return (name, first.1.clone());
            }
            i += 1;
        }
    }
    let chars = chars_of(raw);
    (String::new(), string_of(trim(chars.as_slice())))
}

/// "John Doe <a@b.com>" -> ("John Doe", "a@b.com"); encoded words are already
/// decoded in the header's value.
pub fn parse_from(raw: &str) -> (r: (String, String))
    ensures
        (r.0@, r.1@) == sender_in(parsed_addresses(raw@), raw@),
{
    pick_sender(parse_addresses(raw), raw)
}

/// The text, or nothing at all as the empty text.
pub open spec fn text_or_empty(o: Option<Seq<char>>) -> Seq<char> {
    match o {
        Some(s) => s,
        None => Seq::empty(),
    }
}

/// What a message's header fields say of it, its sender already read.
pub open spec fn meta_in(
    uid: u32,
    seen: bool,
    date: Option<Timestamp>,
    fields: Seq<(Seq<char>, Seq<char>)>,
    sender: (Seq<char>, Seq<char>),
) -> MsgV {
    MsgV {
        uid,
        sender_email: sender.1,
        sender_name: sender.0,
        subject: text_or_empty(first_value(fields, "Subject"@)),
        date,
        unread: !seen,
        list_unsubscribe: first_value(fields, "List-Unsubscribe"@),
        one_click: match first_value(fields, "List-Unsubscribe-Post"@) {
            Some(v) => occurs(lowercase(v), "one-click"@),
            None => false,
        },
    }
}

/// What a message's header fields say of it.
pub fn meta_from(
    uid: u32,
    seen: bool,
    date: Option<Timestamp>,
    fields: &[(String, String)],
    sender: (String, String),
) -> (r: MsgMeta)
    ensures
        r@ == meta_in(uid, seen, date, field_texts(fields@), (sender.0@, sender.1@)),
        r.uid == uid,
        r.unread == !seen,
        r.date == date,
        r.sender_name@ == sender.0@,
        r.sender_email@ == sender.1@,
        forall|i: int| #[trigger]
            first_named(field_texts(fields@), "Subject"@, i) ==> r.subject@ == fields@[i].1@,
        none_named(field_texts(fields@), "Subject"@) ==> r.subject@.len() == 0,
        forall|i: int| #[trigger]
            first_named(field_texts(fields@), "List-Unsubscribe"@, i) ==> (
            r.list_unsubscribe matches Some(v) && v@ == fields@[i].1@),
        none_named(field_texts(fields@), "List-Unsubscribe"@) ==> r.list_unsubscribe is None,
{
    proof {
        headers_are_read_by_name(uid, seen, date, field_texts(fields@), (sender.0@, sender.1@));
    }
    let subject = match get_first_value(fields, "Subject") {
        Some(s) => s,
        None => String::new(),
    };
    let one_click = match get_first_value(fields, "List-Unsubscribe-Post") {
        Some(v) => {
            let low = to_lower(v.as_str());
            str_contains(low.as_str(), "one-click")
        },
        None => false,
    };
    MsgMeta {
        uid,
        sender_email: sender.1,
        sender_name: sender.0,
        subject,
        date,
        unread: !seen,
        list_unsubscribe: get_first_value(fields, "List-Unsubscribe"),
        one_click,
    }
}

/// What one fetch response says of its message: nothing where the UID or the
/// header is missing, or the header cannot be parsed.
pub open spec fn meta_of(
    uid: Option<u32>,
    seen: bool,
    date: Option<Timestamp>,
    header: Option<Seq<u8>>,
) -> Option<MsgV> {
    match (uid, header) {
        (Some(uid), Some(raw)) => match parsed_headers(raw) {
            Some(fields) => {
                let from = text_or_empty(first_value(fields, "From"@));
                let sender = sender_in(parsed_addresses(from), from);
                Some(meta_in(uid, seen, date, fields, sender))
            },
            None => None,
        },
        _ => None,
    }
}

/// One fetch response as a `MsgMeta`, or None if it carried no usable header.
pub fn to_meta(
    uid: Option<u32>,
    seen: bool,
    date: Option<Timestamp>,
    header: Option<&[u8]>,
) -> (r: Option<MsgMeta>)
    ensures
        ({
            let raw = match header {
                Some(h) => Some(h@),
                None => None,
            };
            match r {
                Some(m) => meta_of(uid, seen, date, raw) == Some(m@),
                None => meta_of(uid, seen, date, raw) is None,
            }
        }),
        match r {
            Some(m) => uid == Some(m.uid) && m.date == date && m.unread == !seen,
            None => uid is None || header is None || parsed_headers(header->0@) is None,
        },
{
    let uid: u32 = match uid {
        Some(u) => u,
        None => return None,
    };
    let raw = match header {
        Some(h) => h,
        None => return None,
    };
    let fields = match parse_headers(raw) {
        Some(f) => f,
        None => return None,
    };
    let from = match get_first_value(fields.as_slice(), "From") {
        Some(v) => v,
        None => String::new(),
    };
    let sender = parse_from(from.as_str());
    Some(meta_from(uid, seen, date, fields.as_slice(), sender))
}

/// The field at this place has the name, letter case aside, and no field
/// before it has.
pub open spec fn first_named(fields: Seq<(Seq<char>, Seq<char>)>, name: Seq<char>, i: int) -> bool {
    &&& 0 <= i < fields.len()
    &&& same_ignoring_case(fields[i].0, name)
    &&& forall|j: int| 0 <= j < i ==> !same_ignoring_case((#[trigger] fields[j]).0, name)
}

/// No field has the name, letter case aside.
pub open spec fn none_named(fields: Seq<(Seq<char>, Seq<char>)>, name: Seq<char>) -> bool {
    forall|j: int| 0 <= j < fields.len() ==> !same_ignoring_case((#[trigger] fields[j]).0, name)
}

/// A field is looked up by its name, letter case aside, and where it stands
/// more than once the first one counts. Nothing is found only where no field
/// has the name.
pub proof fn the_first_of_its_name_is_read(fields: Seq<(Seq<char>, Seq<char>)>, name: Seq<char>)
    ensures
        forall|i: int| #[trigger]
            first_named(fields, name, i) ==> first_value(fields, name) == Some(fields[i].1),
        first_value(fields, name) is None <==> none_named(fields, name),
        first_value(fields, name) is Some <==> exists|i: int| first_named(fields, name, i),
    decreases fields.len(),
{
    if fields.len() > 0 {
        let rest = fields.skip(1);
        the_first_of_its_name_is_read(rest, name);
        if same_ignoring_case(fields[0].0, name) {
            assert(first_named(fields, name, 0));
            assert forall|i: int| #[trigger] first_named(fields, name, i) implies i == 0 by {
                if i > 0 {
                    assert(!same_ignoring_case(fields[0].0, name));
                }
            }
        } else {
            assert forall|i: int| #[trigger] first_named(fields, name, i) implies first_value(
                fields,
                name,
            ) == Some(fields[i].1) by {
                assert(i > 0);
                assert(rest[i - 1] == fields[i]);
                assert forall|j: int| 0 <= j < i - 1 implies !same_ignoring_case(
                    (#[trigger] rest[j]).0,
                    name,
                ) by {
                    assert(rest[j] == fields[j + 1]);
                }
                assert(first_named(rest, name, i - 1));
            }
            if none_named(fields, name) {
                assert forall|j: int| 0 <= j < rest.len() implies !same_ignoring_case(
                    (#[trigger] rest[j]).0,
                    name,
                ) by {
                    assert(rest[j] == fields[j + 1]);
                }
            }
            if none_named(rest, name) {
                assert forall|j: int| 0 <= j < fields.len() implies !same_ignoring_case(
                    (#[trigger] fields[j]).0,
                    name,
                ) by {
                    if j > 0 {
                        assert(rest[j - 1] == fields[j]);
                    }
                }
            } else {
                let i = choose|i: int| first_named(rest, name, i);
                assert(rest[i] == fields[i + 1]);
                assert forall|j: int| 0 <= j < i + 1 implies !same_ignoring_case(
                    (#[trigger] fields[j]).0,
                    name,
                ) by {
                    if j > 0 {
                        assert(rest[j - 1] == fields[j]);
                    }
                }
                assert(first_named(fields, name, i + 1));
            }
        }
    }
}

/// A message's subject and its ways to unsubscribe are the values of the first
/// headers of these names, whole and as they stand; what has no header is
/// empty or absent. One click is on offer exactly where the header for it says
/// so, anywhere and in whatever case. Everything else is what was given.
pub proof fn headers_are_read_by_name(
    uid: u32,
    seen: bool,
    date: Option<Timestamp>,
    fields: Seq<(Seq<char>, Seq<char>)>,
    sender: (Seq<char>, Seq<char>),
)
    ensures
        ({
            let m = meta_in(uid, seen, date, fields, sender);
            &&& m.uid == uid
            &&& m.unread != seen
            &&& m.date == date
            &&& m.sender_name == sender.0
            &&& m.sender_email == sender.1
            &&& forall|i: int| #[trigger]
                first_named(fields, "Subject"@, i) ==> m.subject == fields[i].1
            &&& none_named(fields, "Subject"@) ==> m.subject.len() == 0
            &&& forall|i: int| #[trigger]
                first_named(fields, "List-Unsubscribe"@, i) ==> m.list_unsubscribe == Some(
                    fields[i].1,
                )
            &&& none_named(fields, "List-Unsubscribe"@) ==> m.list_unsubscribe is None
            &&& forall|i: int| #[trigger]
                first_named(fields, "List-Unsubscribe-Post"@, i) ==> (m.one_click <==> exists|
                    a: Seq<char>,
                    b: Seq<char>,
                |
                    lowercase(fields[i].1) == #[trigger] (a + "one-click"@ + b))
            &&& none_named(fields, "List-Unsubscribe-Post"@) ==> !m.one_click
        }),
{
    the_first_of_its_name_is_read(fields, "Subject"@);
    the_first_of_its_name_is_read(fields, "List-Unsubscribe"@);
    the_first_of_its_name_is_read(fields, "List-Unsubscribe-Post"@);
    assert forall|i: int| #[trigger] first_named(fields, "List-Unsubscribe-Post"@, i) implies (
    meta_in(uid, seen, date, fields, sender).one_click <==> exists|a: Seq<char>, b: Seq<char>|
        lowercase(fields[i].1) == #[trigger] (a + "one-click"@ + b)) by {
        to_occur_is_to_stand_somewhere(lowercase(fields[i].1), "one-click"@);
    }
}

/// A fetch response makes a message exactly where it has a UID and a header
/// that can be parsed, and the message has the UID, the date and the read state
/// of the response.
pub proof fn a_message_is_what_was_fetched(
    uid: Option<u32>,
    seen: bool,
    date: Option<Timestamp>,
    header: Option<Seq<u8>>,
)
    ensures
        match meta_of(uid, seen, date, header) {
            Some(m) => {
                &&& uid == Some(m.uid)
                &&& m.date == date
                &&& m.unread != seen
                &&& header is Some && parsed_headers(header->0) is Some
            },
            None => uid is None || header is None || parsed_headers(header->0) is None,
        },
{
}

/// The sender of a message is read from its first From header; without one,
/// from an empty text.
pub proof fn the_sender_is_read_from_the_from_header(
    uid: u32,
    seen: bool,
    date: Option<Timestamp>,
    raw: Seq<u8>,
)
    requires
        parsed_headers(raw) is Some,
    ensures
        ({
            let fields = parsed_headers(raw)->0;
            let m = meta_of(Some(uid), seen, date, Some(raw))->0;
            &&& forall|i: int| #[trigger]
                first_named(fields, "From"@, i) ==> (m.sender_name, m.sender_email) == sender_in(
                    parsed_addresses(fields[i].1),
                    fields[i].1,
                )
            &&& none_named(fields, "From"@) ==> (m.sender_name, m.sender_email) == sender_in(
                parsed_addresses(Seq::empty()),
                Seq::empty(),
            )
            &&& forall|i: int| #[trigger]
                first_named(fields, "Subject"@, i) ==> m.subject == fields[i].1
            &&& forall|i: int| #[trigger]
                first_named(fields, "List-Unsubscribe"@, i) ==> m.list_unsubscribe == Some(
                    fields[i].1,
                )
        }),
{
    let fields = parsed_headers(raw)->0;
    the_first_of_its_name_is_read(fields, "From"@);
    the_first_of_its_name_is_read(fields, "Subject"@);
    the_first_of_its_name_is_read(fields, "List-Unsubscribe"@);
}

/// The sender is the first mailbox that the header lists: its address whole,
/// and its display name, or no name where it has none. A header that lists no
/// mailbox, or cannot be parsed, is itself the address, white space around it
/// aside.
pub proof fn the_sender_is_the_first_mailbox(
    list: Option<Seq<Seq<(Option<Seq<char>>, Seq<char>)>>>,
    raw: Seq<char>,
    g: int,
)
    requires
        list matches Some(l) ==> 0 <= g <= l.len() && (forall|j: int|
            0 <= j < g ==> (#[trigger] l[j]).len() == 0) && (g < l.len() ==> l[g].len() > 0),
    ensures
        ({
            let (name, address) = sender_in(list, raw);
            match list {
                Some(l) => if g < l.len() {
                    &&& address == l[g][0].1
                    &&& l[g][0].0 matches Some(n) ==> name == n
                    &&& l[g][0].0 is None ==> name.len() == 0
                } else {
                    name.len() == 0 && address == trimmed(raw)
                },
                None => name.len() == 0 && address == trimmed(raw),
            }
        }),
{
    if let Some(l) = list {
        lemma_first_mailbox(l, g);
    }
}

proof fn lemma_first_mailbox(l: Seq<Seq<(Option<Seq<char>>, Seq<char>)>>, g: int)
    requires
        0 <= g <= l.len(),
        forall|j: int| 0 <= j < g ==> (#[trigger] l[j]).len() == 0,
        g < l.len() ==> l[g].len() > 0,
    ensures
        g == l.len() ==> first_mailbox(l) is None,
        g < l.len() ==> first_mailbox(l) == first_mailbox(l.skip(g)) && first_mailbox(l) is Some,
    decreases l.len(),
{
    assert(l.skip(0) =~= l);
    if l.len() > 0 && l[0].len() == 0 {
        let rest = l.skip(1);
        assert forall|j: int| 0 <= j < g - 1 implies (#[trigger] rest[j]).len() == 0 by {
            assert(rest[j] == l[j + 1]);
        }
        lemma_first_mailbox(rest, g - 1);
        assert(rest.skip(g - 1) =~= l.skip(g));
    }
}

// ---------------------------------------------------------------------------
// folders
// ---------------------------------------------------------------------------

pub const DEFAULT_TRASH: &'static str = "[Gmail]/Trash";

pub const DEFAULT_ARCHIVE: &'static str = "[Gmail]/All Mail";

/// The trash and archive folders among those listed. A folder is known by its
/// special-use attributes (RFC 6154), so localized names work; the last one
/// that carries an attribute wins.
pub open spec fn special_folders(names: Seq<(Seq<char>, Seq<char>)>) -> (Seq<char>, Seq<char>)
    decreases names.len(),
{
    if names.len() == 0 {
        (DEFAULT_TRASH@, DEFAULT_ARCHIVE@)
    } else {
        let (trash, archive) = special_folders(names.drop_last());
        let (attributes, name) = names.last();
        if occurs(attributes, "Trash"@) {
            (name, archive)
        } else if occurs(attributes, "All"@) {
            (trash, name)
        } else {
            (trash, archive)
        }
    }
}

/// The trash and archive folders among those listed, each given as its
/// attributes and its name.
pub fn resolve_folders(names: &[(String, String)]) -> (r: (String, String))
    ensures
        (r.0@, r.1@) == special_folders(field_texts(names@)),
{
    let ghost all = field_texts(names@);
    let mut trash = DEFAULT_TRASH.to_owned();
    let mut archive = DEFAULT_ARCHIVE.to_owned();
    let mut i: usize = 0;
    assert(all.take(0) =~= Seq::<(Seq<char>, Seq<char>)>::empty());
    while i < names.len()
        invariant
            i <= names@.len(),
            all == field_texts(names@),
            (trash@, archive@) == special_folders(all.take(i as int)),
        decreases names@.len() - i,
    {
        assert(all.take(i + 1).drop_last() =~= all.take(i as int));
        assert(all.take(i + 1).last() == all[i as int]);
        if str_contains(names[i].0.as_str(), "Trash") {
            trash = names[i].1.clone();
        } else if str_contains(names[i].0.as_str(), "All") {
            archive = names[i].1.clone();
        }
        i += 1;
    }
    assert(all.take(i as int) =~= all);
    (trash, archive)
}

/// The trash is the last folder listed that says it is one, the archive the
/// last that says it holds all mail and is no trash; where the server marks
/// none, Gmail's own name stands.
pub proof fn folders_are_known_by_their_attributes(names: Seq<(Seq<char>, Seq<char>)>, i: int)
    requires
        0 <= i < names.len(),
    ensures
        ({
            let (trash, archive) = special_folders(names);
            let is_trash = |k: int| occurs(names[k].0, "Trash"@);
            let is_archive = |k: int| occurs(names[k].0, "All"@) && !occurs(names[k].0, "Trash"@);
            &&& is_trash(i) && (forall|k: int| i < k < names.len() ==> !#[trigger] is_trash(k))
                ==> trash == names[i].1
            &&& is_archive(i) && (forall|k: int| i < k < names.len() ==> !#[trigger] is_archive(k))
                ==> archive == names[i].1
        }),
    decreases names.len(),
{
    let is_trash = |k: int| occurs(names[k].0, "Trash"@);
    let is_archive = |k: int| occurs(names[k].0, "All"@) && !occurs(names[k].0, "Trash"@);
    let front = names.drop_last();
    let n = names.len() - 1;
    if i < n {
        folders_are_known_by_their_attributes(front, i);
        let front_trash = |k: int| occurs(front[k].0, "Trash"@);
        let front_archive = |k: int| occurs(front[k].0, "All"@) && !occurs(front[k].0, "Trash"@);
        if forall|k: int| i < k < names.len() ==> !#[trigger] is_trash(k) {
            assert(!is_trash(n));
            assert forall|k: int| i < k < front.len() implies !#[trigger] front_trash(k) by {
                assert(!is_trash(k));
            }
        }
        if forall|k: int| i < k < names.len() ==> !#[trigger] is_archive(k) {
            assert(!is_archive(n));
            assert forall|k: int| i < k < front.len() implies !#[trigger] front_archive(k) by {
                assert(!is_archive(k));
            }
        }
    }
}

/// Where no folder says that it is the trash, or that it holds all mail, the
/// names are Gmail's.
pub proof fn unmarked_folders_have_gmails_names(names: Seq<(Seq<char>, Seq<char>)>)
    ensures
        (forall|k: int| 0 <= k < names.len() ==> !occurs((#[trigger] names[k]).0, "Trash"@))
            ==> special_folders(names).0 == "[Gmail]/Trash"@,
        (forall|k: int| 0 <= k < names.len() ==> !occurs((#[trigger] names[k]).0, "All"@))
            ==> special_folders(names).1 == "[Gmail]/All Mail"@,
    decreases names.len(),
{
    if names.len() > 0 {
        let front = names.drop_last();
        unmarked_folders_have_gmails_names(front);
        if forall|k: int| 0 <= k < names.len() ==> !occurs((#[trigger] names[k]).0, "Trash"@) {
            assert(!occurs(names[names.len() - 1].0, "Trash"@));
            assert forall|k: int| 0 <= k < front.len() implies !occurs(
                (#[trigger] front[k]).0,
                "Trash"@,
            ) by {
                assert(front[k] == names[k]);
            }
        }
        if forall|k: int| 0 <= k < names.len() ==> !occurs((#[trigger] names[k]).0, "All"@) {
            assert(!occurs(names[names.len() - 1].0, "All"@));
            assert forall|k: int| 0 <= k < front.len() implies !occurs(
                (#[trigger] front[k]).0,
                "All"@,
            ) by {
                assert(front[k] == names[k]);
            }
        }
    }
}

// ---------------------------------------------------------------------------
// the sweep
// ---------------------------------------------------------------------------

pub const OP_TIMEOUT_SECS: u64 = 30;

/// a search over a six-figure mailbox is server-side but not instant
pub const SEARCH_TIMEOUT_SECS: u64 = 60;

/// one chunk of headers, never the whole mailbox
pub const FETCH_TIMEOUT_SECS: u64 = 60;

/// Messages one sweep reads before it stops. It bounds the wait the TUI cannot
/// escape, not the data: 5,000 headers is about a megabyte. `m` sweeps the
/// next 5,000.
pub const WINDOW: usize = 5000;

/// Messages per FETCH. Splitting keeps each command's timeout bounded and lets
/// a sweep that dies part-way keep the chunks that landed.
pub const FETCH_CHUNK: usize = 1000;

/// only the fields `MsgMeta` actually parses — ~200 bytes a message instead of
/// the 2–6 KB a full `RFC822.HEADER` costs. `.PEEK` leaves `\Seen` alone.
pub const HEADER_QUERY: &'static str = "(UID FLAGS INTERNALDATE BODY.PEEK[HEADER.FIELDS (FROM SUBJECT LIST-UNSUBSCRIBE LIST-UNSUBSCRIBE-POST)])";

/// marks messages as read
pub const SEEN_COMMAND: &'static str = "+FLAGS (\\Seen)";

/// What one sweep read.
#[derive(Debug)]
pub struct Sweep {
    /// the headers that landed, newest chunk first. Windows can overlap when
    /// mail arrived between two sweeps, so the store dedupes by UID.
    pub msgs: Vec<MsgMeta>,
    /// mailbox size, from this sweep's own `EXISTS`
    pub total: usize,
    /// the sweep got that `EXISTS`. False only when the mailbox never answered
    /// — a failed connect knows nothing, and must not report an empty mailbox
    /// as if it had counted one.
    pub anchored: bool,
    /// what this sweep set out to read: `WINDOW`, or the rest of the mailbox
    /// when that is nearer
    pub bound: usize,
    /// what it actually read. Below `bound` is a short window
    pub swept: usize,
    /// the window now reaches the oldest message in the mailbox
    pub reached_end: bool,
}

/// The value of a `Sweep`.
pub struct SweepV {
    pub msgs: Seq<MsgV>,
    pub total: nat,
    pub anchored: bool,
    pub bound: nat,
    pub swept: nat,
    pub reached_end: bool,
}

impl View for Sweep {
    type V = SweepV;

    open spec fn view(&self) -> SweepV {
        SweepV {
            msgs: views(self.msgs@),
            total: self.total as nat,
            anchored: self.anchored,
            bound: self.bound as nat,
            swept: self.swept as nat,
            reached_end: self.reached_end,
        }
    }
}

impl SweepV {
    /// What a sweep knows that never reached the mailbox.
    pub open spec fn nothing() -> SweepV {
        SweepV {
            msgs: Seq::empty(),
            total: 0,
            anchored: false,
            bound: 0,
            swept: 0,
            reached_end: false,
        }
    }
}

impl Default for Sweep {
    fn default() -> (r: Sweep)
        ensures
            r@ == SweepV::nothing(),
    {
        let msgs: Vec<MsgMeta> = Vec::new();
        assert(views(msgs@) =~= Seq::<MsgV>::empty());
        Sweep { msgs, total: 0, anchored: false, bound: 0, swept: 0, reached_end: false }
    }
}

impl Sweep {
    /// The sweep stopped before its bound, so the window has a hole at its
    /// oldest edge. `m` retries the remainder before advancing.
    pub fn short(&self) -> (r: bool)
        ensures
            r == (self@.swept < self@.bound),
    {
        self.swept < self.bound
    }
}

/// One chunk landed, for the alert to render.
#[derive(Debug, Clone, Copy, PartialEq, Eq, Structural)]
pub struct SweepProgress {
    /// messages swept so far, out of `bound`
    pub swept: usize,
    pub bound: usize,
    /// distinct senders seen so far. The sweep does not know how the user is
    /// grouping, and this is the stack count under the default grouping.
    pub stacks: usize,
}

/// The lowercased addresses of the senders.
pub open spec fn senders_of(ms: Seq<MsgV>) -> Set<Seq<char>>
    decreases ms.len(),
{
    if ms.len() == 0 {
        Set::empty()
    } else {
        senders_of(ms.drop_last()).insert(lowercase(ms.last().sender_email))
    }
}

/// A sweep under way: it reads the newest `WINDOW` messages the window does
/// not already cover, chunk by chunk.
///
/// The window is tracked as a distance back from the top and re-anchored off a
/// fresh `EXISTS` every sweep: `EXISTS` is the newest message's sequence
/// number, so the newest 5,000 are a sequence range and no search is needed at
/// any mailbox size.
pub struct SweepRun {
    window: Sweep,
    /// the newest message no sweep has reached yet
    hi: usize,
    senders: StringHashSet,
    stopped: bool,
}

/// The value of a `SweepRun`.
pub struct SweepRunV {
    /// what was read so far
    pub window: SweepV,
    /// the newest message no sweep has reached yet
    pub hi: nat,
    /// a chunk failed
    pub stopped: bool,
}

impl View for SweepRun {
    type V = SweepRunV;

    closed spec fn view(&self) -> SweepRunV {
        SweepRunV { window: self.window@, hi: self.hi as nat, stopped: self.stopped }
    }
}

pub open spec fn min(a: int, b: int) -> int {
    if a <= b {
        a
    } else {
        b
    }
}

pub open spec fn max(a: int, b: int) -> int {
    if a >= b {
        a
    } else {
        b
    }
}

impl SweepRunV {
    /// A sweep of a mailbox of `total` messages whose newest `back` are
    /// already covered.
    pub open spec fn started(total: u32, back: nat) -> SweepRunV {
        let hi = max(total - back, 0) as nat;
        SweepRunV {
            window: SweepV {
                msgs: Seq::empty(),
                total: total as nat,
                anchored: true,
                bound: min(WINDOW as int, hi as int) as nat,
                swept: 0,
                reached_end: hi == 0,
            },
            hi,
            stopped: false,
        }
    }

    /// The sweep stays inside its window, and its window inside the mailbox.
    pub open spec fn wf(self) -> bool {
        &&& self.window.anchored
        &&& self.window.bound == min(WINDOW as int, self.hi as int)
        &&& self.window.swept <= self.window.bound
        &&& self.hi <= self.window.total <= u32::MAX
        &&& self.window.reached_end == (self.window.swept == self.hi)
    }

    /// The newest message that was not read yet.
    pub open spec fn top(self) -> int {
        self.hi - self.window.swept
    }

    /// The oldest message of the window.
    pub open spec fn edge(self) -> int {
        self.hi - self.window.bound + 1
    }

    /// The sequence numbers to ask for next, both ends included; none when the
    /// window is complete or a chunk failed.
    pub open spec fn next(self) -> Option<(int, int)> {
        if self.stopped || self.window.swept == self.window.bound {
            None
        } else {
            Some((max(self.top() + 1 - FETCH_CHUNK, self.edge()), self.top()))
        }
    }

    /// The chunk that was asked for came back with these messages. The bound
    /// counts the sequence numbers asked for, not the headers that came back:
    /// a message expunged since the `EXISTS` returns nothing, and letting that
    /// extend the window is the unbounded wait the bound exists to stop.
    pub open spec fn landed(self, part: Seq<MsgV>) -> SweepRunV {
        let (bottom, top) = self.next()->0;
        let swept = (self.window.swept + top - bottom + 1) as nat;
        SweepRunV {
            window: SweepV {
                msgs: self.window.msgs + part,
                swept,
                reached_end: swept == self.hi,
                ..self.window
            },
            ..self
        }
    }

    /// The chunk that was asked for failed.
    pub open spec fn failed(self) -> SweepRunV {
        SweepRunV { stopped: true, ..self }
    }
}

impl SweepRun {
    /// The sweep's own books agree with what it has read.
    pub closed spec fn consistent(&self) -> bool {
        self.senders@ == senders_of(self@.window.msgs)
    }

    pub open spec fn wf(&self) -> bool {
        self@.wf() && self.consistent()
    }

    /// Start a sweep. `total` is the mailbox's own `EXISTS`, `back` how many
    /// of the newest messages earlier sweeps already reached.
    pub fn start(total: u32, back: usize) -> (r: SweepRun)
        ensures
            r.wf(),
            r@ == SweepRunV::started(total, back as nat),
    {
        let total: usize = total as usize;
        let hi: usize = if total > back {
            total - back
        } else {
            0
        };
        let bound: usize = if WINDOW < hi {
            WINDOW
        } else {
            hi
        };
        let msgs: Vec<MsgMeta> = Vec::new();
        assert(views(msgs@) =~= Seq::<MsgV>::empty());
        let window = Sweep { msgs, total, anchored: true, bound, swept: 0, reached_end: hi == 0 };
        SweepRun { window, hi, senders: StringHashSet::new(), stopped: false }
    }

    /// The sequence range to ask for next.
    pub fn next(&self) -> (r: Option<(u32, u32)>)
        requires
            self.wf(),
        ensures
            match r {
                Some((lo, hi)) => self@.next() == Some((lo as int, hi as int)),
                None => self@.next() is None,
            },
    {
        if self.stopped || self.window.swept == self.window.bound {
            return None;
        }
        let top: usize = self.hi - self.window.swept;
        let edge: usize = self.hi - self.window.bound + 1;
        let bottom: usize = if top - edge >= FETCH_CHUNK {
            top - FETCH_CHUNK + 1
        } else {
            edge
        };
        Some((bottom as u32, top as u32))
    }

    /// The chunk asked for came back with these messages.
    pub fn on_chunk(&mut self, part: Vec<MsgMeta>) -> (r: SweepProgress)
        requires
            old(self).wf(),
            old(self)@.next() is Some,
        ensures
            final(self).wf(),
            final(self)@ == old(self)@.landed(views(part@)),
            r.swept == final(self)@.window.swept,
            r.bound == final(self)@.window.bound,
            r.stacks == senders_of(final(self)@.window.msgs).len(),
    {
        let ghost before = self@;
        let ghost had = self.window.msgs@;
        let ghost given = part@;
        let range = self.next();
        let mut i: usize = 0;
        assert(views(had) + views(given).take(0) =~= views(had));
        while i < part.len()
            invariant
                i <= part@.len(),
                part@ == given,
                self.window.msgs@ == had,
                self@ == before,
                self.senders@ == senders_of(views(had) + views(given).take(i as int)),
            decreases part@.len() - i,
        {
            let email = to_lower(part[i].sender_email.as_str());
            self.senders.insert(email);
            let ghost all = views(had) + views(given).take(i + 1);
            assert(all.drop_last() =~= views(had) + views(given).take(i as int));
            assert(all.last() == given[i as int]@);
            i += 1;
        }
        assert(views(given).take(i as int) =~= views(given));
        if let Some((bottom, top)) = range {
            self.window.swept = self.window.swept + (top - bottom + 1) as usize;
        }
        self.window.reached_end = self.window.swept == self.hi;
        let mut part = part;
        self.window.msgs.append(&mut part);
        assert(views(self.window.msgs@) =~= views(had) + views(given));
        SweepProgress {
            swept: self.window.swept,
            bound: self.window.bound,
            stacks: self.senders.len(),
        }
    }

    /// The chunk asked for failed: the sweep stops, and keeps what it has.
    pub fn on_failure(&mut self)
        requires
            old(self).wf(),
        ensures
            final(self).wf(),
            final(self)@ == old(self)@.failed(),
    {
        self.stopped = true;
    }

    /// What the sweep read.
    pub fn finish(self) -> (r: Sweep)
        ensures
            r@ == self@.window,
    {
        self.window
    }
}

// ---------------------------------------------------------------------------
// what a sweep promises
// ---------------------------------------------------------------------------

/// A sweep asks for at most `FETCH_CHUNK` messages at a time, from the newest
/// one it has not read downward, and never past its window's edge or the
/// oldest message. What it asks for after a chunk landed lies directly below
/// that chunk.
pub proof fn a_sweep_reads_downward_without_gaps(run: SweepRunV, part: Seq<MsgV>)
    requires
        run.wf(),
        run.next() is Some,
    ensures
        ({
            let (lo, hi) = run.next()->0;
            let after = run.landed(part);
            &&& 1 <= run.edge() <= lo <= hi <= run.hi
            &&& hi - lo + 1 <= FETCH_CHUNK
            &&& hi == run.top()
            &&& after.wf()
            &&& after.top() == lo - 1
            &&& match after.next() {
                Some((_, below)) => below == lo - 1,
                None => lo == run.edge() && after.window.swept == after.window.bound,
            }
        }),
{
}

/// The sweep after chunks landed, one after the other.
pub open spec fn swept_with(run: SweepRunV, parts: Seq<Seq<MsgV>>) -> SweepRunV
    decreases parts.len(),
{
    if parts.len() == 0 {
        run
    } else {
        let before = swept_with(run, parts.drop_last());
        if before.next() is Some {
            before.landed(parts.last())
        } else {
            before
        }
    }
}

/// After `k` chunks a sweep has covered `k` times `FETCH_CHUNK` messages, or
/// its whole window. It asks for another chunk exactly when the window is not
/// covered, so a full window takes five fetches and never a sixth, whatever
/// the mailbox holds and however few headers come back.
pub proof fn a_full_window_is_five_fetches(total: u32, back: nat, parts: Seq<Seq<MsgV>>)
    ensures
        ({
            let run = swept_with(SweepRunV::started(total, back), parts);
            let bound = SweepRunV::started(total, back).window.bound;
            &&& run.wf()
            &&& run.window.swept == min(parts.len() * FETCH_CHUNK, bound as int)
            &&& run.next() is Some <==> parts.len() * FETCH_CHUNK < bound
            &&& parts.len() >= 5 ==> run.next() is None
            &&& bound <= WINDOW
        }),
    decreases parts.len(),
{
    let run = swept_with(SweepRunV::started(total, back), parts);
    if parts.len() > 0 {
        a_full_window_is_five_fetches(total, back, parts.drop_last());
    }
    lemma_swept_keeps(SweepRunV::started(total, back), parts);
}

proof fn lemma_swept_keeps(run: SweepRunV, parts: Seq<Seq<MsgV>>)
    requires
        run.wf(),
        !run.stopped,
    ensures
        ({
            let after = swept_with(run, parts);
            &&& after.wf()
            &&& !after.stopped
            &&& after.hi == run.hi
            &&& after.window.bound == run.window.bound
            &&& after.window.total == run.window.total
        }),
    decreases parts.len(),
{
    if parts.len() > 0 {
        lemma_swept_keeps(run, parts.drop_last());
    }
}

/// A sweep that ran to its end covered its whole bound: only a failure leaves
/// a window short. It has reached the end of the mailbox exactly when nothing
/// older is left.
pub proof fn only_a_failure_leaves_a_window_short(total: u32, back: nat, parts: Seq<Seq<MsgV>>)
    ensures
        ({
            let run = swept_with(SweepRunV::started(total, back), parts);
            &&& run.next() is None ==> run.window.swept == run.window.bound
            &&& run.window.reached_end <==> back + run.window.swept >= total
            &&& run.failed().next() is None
            &&& run.failed().window == run.window
        }),
{
    lemma_swept_keeps(SweepRunV::started(total, back), parts);
}

/// The messages of chunks, chunk after chunk.
pub open spec fn in_sequence(parts: Seq<Seq<MsgV>>) -> Seq<MsgV>
    decreases parts.len(),
{
    if parts.len() == 0 {
        Seq::empty()
    } else {
        in_sequence(parts.drop_last()) + parts.last()
    }
}

/// A sweep keeps every header that landed, chunk after chunk, and a failure
/// after that takes none of them away.
pub proof fn what_landed_is_kept(total: u32, back: nat, parts: Seq<Seq<MsgV>>)
    requires
        parts.len() * FETCH_CHUNK < SweepRunV::started(total, back).window.bound + FETCH_CHUNK,
    ensures
        ({
            let run = swept_with(SweepRunV::started(total, back), parts);
            &&& run.window.msgs == in_sequence(parts)
            &&& run.failed().window.msgs == in_sequence(parts)
        }),
    decreases parts.len(),
{
    let start = SweepRunV::started(total, back);
    if parts.len() > 0 {
        let front = parts.drop_last();
        assert(front.len() * FETCH_CHUNK == parts.len() * FETCH_CHUNK - FETCH_CHUNK);
        what_landed_is_kept(total, back, front);
        a_full_window_is_five_fetches(total, back, front);
    } else {
        assert(start.window.msgs =~= in_sequence(parts));
    }
}

/// Where a chunk failed, the next sweep of an unchanged mailbox begins with
/// the very message that chunk began with: the hole is filled before the
/// window advances.
pub proof fn a_retry_starts_at_the_edge(total: u32, back: nat, parts: Seq<Seq<MsgV>>)
    requires
        swept_with(SweepRunV::started(total, back), parts).next() is Some,
    ensures
        ({
            let run = swept_with(SweepRunV::started(total, back), parts);
            let (_, refused) = run.next()->0;
            let retry = SweepRunV::started(total, back + run.failed().window.swept);
            retry.next() matches Some((_, hi)) && hi == refused
        }),
{
    lemma_swept_keeps(SweepRunV::started(total, back), parts);
}

/// A window is measured from the top of the mailbox as it is now: mail that
/// arrived since moves the messages asked for up by as many.
pub proof fn a_sweep_re_anchors_to_the_top(total: u32, arrived: u32, back: nat)
    requires
        total + arrived <= u32::MAX,
        back <= total,
    ensures
        SweepRunV::started((total + arrived) as u32, back).hi == SweepRunV::started(total, back).hi
            + arrived,
{
}

/// Past the oldest message there is nothing to ask for.
pub proof fn past_the_end_nothing_is_asked(total: u32, back: nat)
    requires
        back >= total,
    ensures
        SweepRunV::started(total, back).next() is None,
        SweepRunV::started(total, back).window.reached_end,
        SweepRunV::started(total, back).window.swept == SweepRunV::started(
            total,
            back,
        ).window.bound,
{
}

/// Taken together, the ranges that a sweep asks for are the newest 5,000
/// messages that no sweep has reached: a message is asked for exactly when it
/// is one of them. No range is longer than 1,000.
pub proof fn a_sweep_covers_the_next_five_thousand(
    total: u32,
    back: nat,
    parts: Seq<Seq<MsgV>>,
    n: int,
)
    requires
        parts.len() >= 5,
    ensures
        (exists|k: int|
            0 <= k <= parts.len() && (#[trigger] swept_with(
                SweepRunV::started(total, back),
                parts.take(k),
            ).next() matches Some((lo, hi)) && lo <= n <= hi)) <==> 1 <= n && total - back - 5000 < n
            <= total - back,
        forall|k: int|
            0 <= k <= parts.len() ==> (#[trigger] swept_with(
                SweepRunV::started(total, back),
                parts.take(k),
            ).next() matches Some((lo, hi)) ==> hi - lo < 1000),
{
    let start = SweepRunV::started(total, back);
    assert forall|k: int| 0 <= k <= parts.len() implies (#[trigger] swept_with(
        start,
        parts.take(k),
    ).next() matches Some((lo, hi)) ==> {
        &&& hi == start.hi - k * 1000
        &&& lo == max(hi - 999, start.hi - start.window.bound + 1)
    }) by {
        a_full_window_is_five_fetches(total, back, parts.take(k));
        lemma_swept_keeps(start, parts.take(k));
    }
    if 1 <= n && total - back - 5000 < n <= total - back {
        let k = (total - back - n) / 1000;
        assert(0 <= k < 5);
        a_full_window_is_five_fetches(total, back, parts.take(k));
        lemma_swept_keeps(start, parts.take(k));
        let at = swept_with(start, parts.take(k));
        assert(at.next() matches Some((lo, hi)) && lo <= n <= hi);
    }
}

/// The senders that were seen are those of the messages, letter case aside.
pub proof fn senders_are_those_of_the_messages(ms: Seq<MsgV>)
    ensures
        forall|a: Seq<char>| #[trigger]
            senders_of(ms).contains(a) <==> exists|i: int|
                0 <= i < ms.len() && lowercase((#[trigger] ms[i]).sender_email) == a,
        senders_of(ms).finite(),
        senders_of(ms).len() <= ms.len(),
    decreases ms.len(),
{
    if ms.len() > 0 {
        let front = ms.drop_last();
        senders_are_those_of_the_messages(front);
        assert forall|a: Seq<char>| #[trigger] senders_of(ms).contains(a) <==> exists|i: int|
            0 <= i < ms.len() && lowercase((#[trigger] ms[i]).sender_email) == a by {
            if senders_of(front).contains(a) {
                let i = choose|i: int|
                    0 <= i < front.len() && lowercase((#[trigger] front[i]).sender_email) == a;
                assert(lowercase(ms[i].sender_email) == a);
            } else if senders_of(ms).contains(a) {
                assert(lowercase(ms[ms.len() - 1].sender_email) == a);
            }
            if exists|i: int| 0 <= i < ms.len() && lowercase((#[trigger] ms[i]).sender_email) == a {
                let i = choose|i: int|
                    0 <= i < ms.len() && lowercase((#[trigger] ms[i]).sender_email) == a;
                if i < front.len() {
                    assert(lowercase(front[i].sender_email) == a);
                }
            }
        }
    }
}

// ---------------------------------------------------------------------------
// the fan-out
// ---------------------------------------------------------------------------

/// The messages whose sender has this address, letter case aside.
pub open spec fn from_exactly(ms: Seq<MsgV>, addr: Seq<char>) -> Seq<MsgV>
    decreases ms.len(),
{
    if ms.len() == 0 {
        ms
    } else if same_ignoring_case(ms.last().sender_email, addr) {
        from_exactly(ms.drop_last(), addr).push(ms.last())
    } else {
        from_exactly(ms.drop_last(), addr)
    }
}

/// The search for every message from an address.
pub fn sender_query(addr: &str) -> (r: String)
    ensures
        r@ == "FROM "@ + (seq!['"'] + escaped(addr@) + seq!['"']),
        begins(r@, seq!['F', 'R', 'O', 'M', ' ', '"']),
        read_quoted(r@.skip(6)) == Some((addr@, Seq::<char>::empty())),
{
    let mut out = "FROM ".to_owned();
    let q = quoted(addr);
    out.append(q.as_str());
    proof {
        reveal_strlit("FROM ");
        assert(out@.take(6) =~= seq!['F', 'R', 'O', 'M', ' ', '"']);
        assert(out@.skip(6) =~= q@.skip(1));
    }
    out
}

/// A fan-out under way: every message from one address still in the mailbox.
/// `FROM` is a substring match server-side, so `a@b.com` also matches
/// `xa@b.com` — the results are filtered back to the exact address.
///
/// A refused chunk stops the walk but keeps the chunks that did arrive: they
/// are real messages, and falling all the way back would under-report further
/// than the failure requires.
pub struct FanOut {
    addr: String,
    /// what the search found
    uids: Vec<u32>,
    /// how many of them were asked for
    asked: usize,
    msgs: Vec<MsgMeta>,
    complete: bool,
}

/// The value of a `FanOut`.
pub struct FanOutV {
    pub addr: Seq<char>,
    pub uids: Seq<u32>,
    pub asked: nat,
    pub msgs: Seq<MsgV>,
    pub complete: bool,
}

impl View for FanOut {
    type V = FanOutV;

    closed spec fn view(&self) -> FanOutV {
        FanOutV {
            addr: self.addr@,
            uids: self.uids@,
            asked: self.asked as nat,
            msgs: views(self.msgs@),
            complete: self.complete,
        }
    }
}

impl FanOutV {
    pub open spec fn wf(self) -> bool {
        self.asked <= self.uids.len()
    }

    /// How many of the UIDs were asked for once the next chunk is.
    pub open spec fn reach(self) -> int {
        min(self.asked + FETCH_CHUNK, self.uids.len() as int)
    }

    /// The UIDs to ask for next; none when all were asked for or a chunk was
    /// refused.
    pub open spec fn next(self) -> Option<Seq<u32>> {
        if self.complete && self.asked < self.uids.len() {
            Some(self.uids.subrange(self.asked as int, self.reach()))
        } else {
            None
        }
    }

    pub open spec fn landed(self, part: Seq<MsgV>) -> FanOutV {
        FanOutV { asked: self.reach() as nat, msgs: self.msgs + part, ..self }
    }

    pub open spec fn refused(self) -> FanOutV {
        FanOutV { complete: false, ..self }
    }
}

impl FanOut {
    /// Start on what the search found.
    pub fn start(addr: &str, uids: Vec<u32>) -> (r: FanOut)
        ensures
            r@ == (FanOutV {
                addr: addr@,
                uids: uids@,
                asked: 0,
                msgs: Seq::empty(),
                complete: true,
            }),
            r@.wf(),
    {
        let msgs: Vec<MsgMeta> = Vec::new();
        assert(views(msgs@) =~= Seq::<MsgV>::empty());
        FanOut { addr: addr.to_owned(), uids, asked: 0, msgs, complete: true }
    }

    fn reach(&self) -> (r: usize)
        requires
            self@.wf(),
        ensures
            r == self@.reach(),
    {
        if self.uids.len() - self.asked < FETCH_CHUNK {
            self.uids.len()
        } else {
            self.asked + FETCH_CHUNK
        }
    }

    /// The UIDs to fetch next.
    pub fn next(&self) -> (r: Option<Vec<u32>>)
        requires
            self@.wf(),
        ensures
            match r {
                Some(chunk) => self@.next() == Some(chunk@),
                None => self@.next() is None,
            },
    {
        if !self.complete || self.asked >= self.uids.len() {
            return None;
        }
        let reach: usize = self.reach();
        let mut chunk: Vec<u32> = Vec::new();
        let mut i: usize = self.asked;
        while i < reach
            invariant
                self.asked <= i <= reach,
                reach <= self.uids@.len(),
                chunk@ == self.uids@.subrange(self.asked as int, i as int),
            decreases reach - i,
        {
            chunk.push(self.uids[i]);
            i += 1;
            assert(chunk@ =~= self.uids@.subrange(self.asked as int, i as int));
        }
        Some(chunk)
    }

    /// The chunk asked for came back with these messages.
    pub fn on_chunk(&mut self, part: Vec<MsgMeta>)
        requires
            old(self)@.wf(),
            old(self)@.next() is Some,
        ensures
            final(self)@.wf(),
            final(self)@ == old(self)@.landed(views(part@)),
    {
        let ghost had = self.msgs@;
        let ghost given = part@;
        self.asked = self.reach();
        let mut part = part;
        self.msgs.append(&mut part);
        assert(views(self.msgs@) =~= views(had) + views(given));
    }

    /// The chunk asked for failed. After a timeout the connection is gone and
    /// so is the fan-out: the error comes back. A refusal ends the walk only.
    pub fn on_failure(&mut self, e: MailError) -> (r: Option<MailError>)
        requires
            old(self)@.wf(),
        ensures
            final(self)@.wf(),
            final(self)@ == old(self)@.refused(),
            r == (if e.cause is TimedOut {
                Some(e)
            } else {
                None
            }),
    {
        self.complete = false;
        if is_timeout(&e) {
            Some(e)
        } else {
            None
        }
    }

    /// The messages that landed and are from the address itself, and whether
    /// that is all of them.
    pub fn finish(self) -> (r: (Vec<MsgMeta>, bool))
        ensures
            views(r.0@) == from_exactly(self@.msgs, self@.addr),
            r.1 == self@.complete,
    {
        let complete = self.complete;
        let addr = chars_of(self.addr.as_str());
        let ghost all = views(self.msgs@);
        let ghost address = self.addr@;
        let mut kept: Vec<MsgMeta> = Vec::new();
        assert(all.take(0) =~= Seq::<MsgV>::empty());
        assert(views(kept@) =~= Seq::<MsgV>::empty());
        for m in it: self.msgs
            invariant
                views(it.seq()) == all,
                addr@ == address,
                views(kept@) == from_exactly(all.take(it.index() as int), address),
        {
            let ghost i = it.index() as int;
            assert(all.take(i + 1).drop_last() =~= all.take(i));
            assert(all[i] == m@);
            let email = chars_of(m.sender_email.as_str());
            if eq_ignore_ascii_case(email.as_slice(), addr.as_slice()) {
                let ghost before = kept@;
                let ghost v = m@;
                kept.push(m);
                assert(views(kept@) =~= views(before).push(v));
            }
        }
        assert(all.take(all.len() as int) =~= all);
        (kept, complete)
    }
}

/// A fan-out asks for every UID that the search found, in order and once, at
/// most `FETCH_CHUNK` at a time; unless a chunk is refused it ends only when
/// all were asked for.
pub proof fn a_fan_out_asks_for_every_uid_once(walk: FanOutV, part: Seq<MsgV>)
    requires
        walk.wf(),
    ensures
        match walk.next() {
            Some(chunk) => {
                let after = walk.landed(part);
                &&& 0 < chunk.len() <= FETCH_CHUNK
                &&& chunk.len() == 1000 || after.asked == walk.uids.len()
                &&& after.wf()
                &&& walk.uids.take(after.asked as int) == walk.uids.take(walk.asked as int) + chunk
                &&& after.msgs == walk.msgs + part
            },
            None => walk.complete ==> walk.asked == walk.uids.len(),
        },
{
    if let Some(chunk) = walk.next() {
        let after = walk.landed(part);
        assert(walk.uids.take(after.asked as int) =~= walk.uids.take(walk.asked as int) + chunk);
    }
}

/// A fan-out holds mail of its own address only — a substring match on the
/// server never lands in another sender's fan-out — and nothing that the
/// server did not return.
pub proof fn a_fan_out_is_one_senders_mail(ms: Seq<MsgV>, addr: Seq<char>)
    ensures
        forall|i: int|
            0 <= i < from_exactly(ms, addr).len() ==> {
                let m = #[trigger] from_exactly(ms, addr)[i];
                same_ignoring_case(m.sender_email, addr) && ms.contains(m)
            },
        forall|j: int|
            0 <= j < ms.len() && same_ignoring_case((#[trigger] ms[j]).sender_email, addr)
                ==> from_exactly(ms, addr).contains(ms[j]),
    decreases ms.len(),
{
    if ms.len() > 0 {
        let front = ms.drop_last();
        let kept = from_exactly(front, addr);
        let all = from_exactly(ms, addr);
        a_fan_out_is_one_senders_mail(front, addr);
        assert forall|i: int| 0 <= i < all.len() implies {
            let m = #[trigger] all[i];
            same_ignoring_case(m.sender_email, addr) && ms.contains(m)
        } by {
            if i < kept.len() {
                assert(all[i] == kept[i]);
                let j = choose|j: int| 0 <= j < front.len() && front[j] == kept[i];
                assert(ms[j] == all[i]);
            } else {
                assert(ms[ms.len() - 1] == all[i]);
            }
        }
        assert forall|j: int|
            0 <= j < ms.len() && same_ignoring_case(
                (#[trigger] ms[j]).sender_email,
                addr,
            ) implies all.contains(ms[j]) by {
            if j < front.len() {
                assert(front[j] == ms[j]);
                let k = choose|k: int| 0 <= k < kept.len() && kept[k] == front[j];
                assert(all[k] == ms[j]);
            } else {
                assert(all[kept.len() as int] == ms[j]);
            }
        }
    }
}

/// A fan-out keeps what is from its own address, in the order it came and as
/// often as it came, and drops the rest.
pub proof fn a_fan_out_drops_only_other_senders(ms: Seq<MsgV>, addr: Seq<char>)
    ensures
        from_exactly(ms, addr) == ms.filter(|m: MsgV| same_ignoring_case(m.sender_email, addr)),
    decreases ms.len(),
{
    reveal(Seq::filter);
    if ms.len() > 0 {
        a_fan_out_drops_only_other_senders(ms.drop_last(), addr);
    }
}

/// What was being done stands before the error it failed with, and the error's
/// own words stand at the end.
pub proof fn an_error_says_what_was_being_done(
    during: Seq<Seq<char>>,
    doing: Seq<char>,
    cause: Seq<char>,
)
    ensures
        error_line(Seq::empty(), cause) == cause,
        error_line(during.push(doing), cause) == doing + seq![':', ' '] + error_line(during, cause),
{
    reveal_strlit(": ");
    assert(": "@ =~= seq![':', ' ']);
    assert(during.push(doing).drop_last() =~= during);
}

/// A timeout names the operation and how many seconds it waited.
pub proof fn a_timeout_names_the_operation(t: TimedOut)
    ensures
        begins(t.text(), t.what@),
        occurs(t.text(), " timed out after "@ + decimal(t.secs as nat) + seq!['s', ' ']),
{
    reveal_strlit("s — connection presumed dead, press R to reconnect");
    let tail = "s — connection presumed dead, press R to reconnect"@;
    let p = " timed out after "@ + decimal(t.secs as nat) + seq!['s', ' '];
    assert(t.text().take(t.what@.len() as int) =~= t.what@);
    to_occur_is_to_stand_somewhere(t.text(), p);
    assert(t.text() =~= t.what@ + p + tail.skip(2));
}

/// A sweep reports the size that the mailbox gave, whatever of it was read.
pub proof fn a_sweep_reports_the_size_of_the_mailbox(
    total: u32,
    back: nat,
    parts: Seq<Seq<MsgV>>,
)
    ensures
        ({
            let run = swept_with(SweepRunV::started(total, back), parts);
            &&& run.window.total == total && run.failed().window.total == total
            &&& run.window.anchored && run.failed().window.anchored
            &&& back <= total && total - back <= 5000 ==> run.window.bound == total - back
            &&& back + 5000 <= total ==> run.window.bound == 5000
            &&& back >= total ==> run.window.bound == 0
        }),
{
    lemma_swept_keeps(SweepRunV::started(total, back), parts);
}

/// What is fetched of a message holds all that is read of it: its UID, its
/// flags, its date and each of the headers. It is peeked at, so that reading
/// it leaves it unread.
pub proof fn what_is_read_is_what_is_fetched()
    ensures
        HEADER_QUERY@ == "(UID FLAGS INTERNALDATE BODY.PEEK[HEADER.FIELDS ("@ + joined(
            seq![
                uppercase("From"@),
                uppercase("Subject"@),
                uppercase("List-Unsubscribe"@),
                uppercase("List-Unsubscribe-Post"@),
            ],
            seq![' '],
        ) + ")])"@,
{
    reveal_strlit("From");
    reveal_strlit("Subject");
    reveal_strlit("List-Unsubscribe");
    reveal_strlit("List-Unsubscribe-Post");
    reveal_strlit("FROM");
    reveal_strlit("SUBJECT");
    reveal_strlit("LIST-UNSUBSCRIBE");
    reveal_strlit("LIST-UNSUBSCRIBE-POST");
    reveal_strlit("(UID FLAGS INTERNALDATE BODY.PEEK[HEADER.FIELDS (");
    reveal_strlit(")])");
    reveal_strlit(
        "(UID FLAGS INTERNALDATE BODY.PEEK[HEADER.FIELDS (FROM SUBJECT LIST-UNSUBSCRIBE LIST-UNSUBSCRIBE-POST)])",
    );
    assert(uppercase("From"@) =~= "FROM"@);
    assert(uppercase("Subject"@) =~= "SUBJECT"@);
    assert(uppercase("List-Unsubscribe"@) =~= "LIST-UNSUBSCRIBE"@);
    assert(uppercase("List-Unsubscribe-Post"@) =~= "LIST-UNSUBSCRIBE-POST"@);
    let parts = seq!["FROM"@, "SUBJECT"@, "LIST-UNSUBSCRIBE"@, "LIST-UNSUBSCRIBE-POST"@];
    joining_goes_on(parts.take(1), "SUBJECT"@, seq![' ']);
    joining_goes_on(parts.take(2), "LIST-UNSUBSCRIBE"@, seq![' ']);
    joining_goes_on(parts.take(3), "LIST-UNSUBSCRIBE-POST"@, seq![' ']);
    assert(parts.take(1) =~= seq!["FROM"@]);
    assert(parts.take(2) =~= parts.take(1).push("SUBJECT"@));
    assert(parts.take(3) =~= parts.take(2).push("LIST-UNSUBSCRIBE"@));
    assert(parts =~= parts.take(3).push("LIST-UNSUBSCRIBE-POST"@));
    let all = "FROM"@ + seq![' '] + "SUBJECT"@ + seq![' '] + "LIST-UNSUBSCRIBE"@ + seq![' ']
        + "LIST-UNSUBSCRIBE-POST"@;
    assert(joined(parts, seq![' ']) == all);
    assert(HEADER_QUERY@ =~= "(UID FLAGS INTERNALDATE BODY.PEEK[HEADER.FIELDS ("@ + all + ")])"@);
}

} // verus!
