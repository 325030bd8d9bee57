//! Text as sequences of characters: the predicates and the transformations
//! that the rest of the crate states its contracts over, and the functions
//! that compute them.
use crate::sort::views;
use vstd::prelude::*;
use vstd::slice::slice_subrange;
use vstd::string::*;
use vstd::utf8::{
    decode_utf8, encode_utf8, encode_utf8_decode_utf8, encode_utf8_valid_utf8, is_ascii_chars,
    valid_utf8,
};

verus! {

// ---------------------------------------------------------------------------
// what the standard library does
// ---------------------------------------------------------------------------

/// `String::push` appends one character to the end of the string.
pub assume_specification[ String::push ](s: &mut String, c: char)
    ensures
        final(s)@ == old(s)@.push(c),
;

/// The characters with Unicode's `White_Space` property.
pub open spec fn is_white(c: char) -> bool {
    let n = c as u32;
    ||| 0x9 <= n <= 0xd
    ||| n == 0x20
    ||| n == 0x85
    ||| n == 0xa0
    ||| n == 0x1680
    ||| 0x2000 <= n <= 0x200a
    ||| n == 0x2028
    ||| n == 0x2029
    ||| n == 0x202f
    ||| n == 0x205f
    ||| n == 0x3000
}

/// `char::is_whitespace` tells whether the character has the `White_Space`
/// property.
pub assume_specification[ char::is_whitespace ](c: char) -> (r: bool)
    ensures
        r == is_white(c),
;

/// What `str::to_lowercase` makes of a text that is not ASCII: Unicode's
/// lowercase mapping.
pub uninterp spec fn unicode_lowercase(s: Seq<char>) -> Seq<char>;

/// What `str::to_uppercase` makes of a text that is not ASCII: Unicode's
/// uppercase mapping.
pub uninterp spec fn unicode_uppercase(s: Seq<char>) -> Seq<char>;

/// A text in lower case.
pub open spec fn lowercase(s: Seq<char>) -> Seq<char> {
    if is_ascii_chars(s) {
        ascii_lower_all(s)
    } else {
        unicode_lowercase(s)
    }
}

/// A text in upper case.
pub open spec fn uppercase(s: Seq<char>) -> Seq<char> {
    if is_ascii_chars(s) {
        ascii_upper_all(s)
    } else {
        unicode_uppercase(s)
    }
}

/// `str::to_lowercase`. An ASCII text has its letters lowercased one by one;
/// of any other text the result is only claimed to depend on the text alone.
#[verifier::external_body]
pub(crate) fn to_lower(s: &str) -> (r: String)
    ensures
        is_ascii_chars(s@) ==> r@ == ascii_lower_all(s@),
        !is_ascii_chars(s@) ==> r@ == unicode_lowercase(s@),
{
    s.to_lowercase()
}

/// `str::to_uppercase`. An ASCII text has its letters uppercased one by one;
/// of any other text the result is only claimed to depend on the text alone.
#[verifier::external_body]
pub(crate) fn to_upper(s: &str) -> (r: String)
    ensures
        is_ascii_chars(s@) ==> r@ == ascii_upper_all(s@),
        !is_ascii_chars(s@) ==> r@ == unicode_uppercase(s@),
{
    s.to_uppercase()
}

/// What `String::from_utf8_lossy` makes of bytes that are not UTF-8.
pub uninterp spec fn replaced_utf8(bytes: Seq<u8>) -> Seq<char>;

/// Bytes as text: UTF-8 as it stands, with replacement characters where it is
/// none.
pub open spec fn utf8_lossy(bytes: Seq<u8>) -> Seq<char> {
    if valid_utf8(bytes) {
        decode_utf8(bytes)
    } else {
        replaced_utf8(bytes)
    }
}

/// `String::from_utf8_lossy`. Valid UTF-8 is decoded as it stands; of any other
/// bytes the result is only claimed to depend on the bytes alone.
#[verifier::external_body]
pub(crate) fn from_utf8_lossy(bytes: &[u8]) -> (r: String)
    ensures
        valid_utf8(bytes@) ==> r@ == decode_utf8(bytes@),
        !valid_utf8(bytes@) ==> r@ == replaced_utf8(bytes@),
{
    String::from_utf8_lossy(bytes).into_owned()
}

// ---------------------------------------------------------------------------
// letters
// ---------------------------------------------------------------------------

/// An ASCII capital as its small letter; any other character as it is.
pub open spec fn ascii_lower(c: char) -> char {
    if 'A' <= c <= 'Z' {
        ((c as u8) + 32) as u8 as char
    } else {
        c
    }
}

/// An ASCII small letter as its capital; any other character as it is.
pub open spec fn ascii_upper(c: char) -> char {
    if 'a' <= c <= 'z' {
        ((c as u8) - 32) as u8 as char
    } else {
        c
    }
}

/// A text with its ASCII capitals as small letters.
pub open spec fn ascii_lower_all(s: Seq<char>) -> Seq<char> {
    Seq::new(s.len(), |i: int| ascii_lower(s[i]))
}

/// A text with its ASCII small letters as capitals.
pub open spec fn ascii_upper_all(s: Seq<char>) -> Seq<char> {
    Seq::new(s.len(), |i: int| ascii_upper(s[i]))
}

/// The two texts differ at most in the case of ASCII letters.
pub open spec fn same_ignoring_case(a: Seq<char>, b: Seq<char>) -> bool {
    ascii_lower_all(a) == ascii_lower_all(b)
}

fn lower_char(c: char) -> (r: char)
    ensures
        r == ascii_lower(c),
{
    if 'A' <= c && c <= 'Z' {
        ((c as u8) + 32) as char
    } else {
        c
    }
}

/// Do the two texts differ at most in the case of ASCII letters?
pub fn eq_ignore_ascii_case(a: &[char], b: &[char]) -> (r: bool)
    ensures
        r == same_ignoring_case(a@, b@),
{
    if a.len() != b.len() {
        assert(ascii_lower_all(a@).len() != ascii_lower_all(b@).len());
        return false;
    }
    let mut i: usize = 0;
    while i < a.len()
        invariant
            i <= a@.len(),
            a@.len() == b@.len(),
            forall|j: int| 0 <= j < i ==> ascii_lower(a@[j]) == ascii_lower(b@[j]),
        decreases a@.len() - i,
    {
        if lower_char(a[i]) != lower_char(b[i]) {
            assert(ascii_lower_all(a@)[i as int] != ascii_lower_all(b@)[i as int]);
            return false;
        }
        i += 1;
    }
    assert(ascii_lower_all(a@) =~= ascii_lower_all(b@));
    true
}

// ---------------------------------------------------------------------------
// characters to strings and back
// ---------------------------------------------------------------------------

/// The characters of a text.
pub fn chars_of(s: &str) -> (r: Vec<char>)
    ensures
        r@ == s@,
{
    let mut out: Vec<char> = Vec::new();
    for c in it: s.chars()
        invariant
            out@ == it.seq().take(it.index() as int),
            it.seq() == s@,
    {
        out.push(c);
    }
    out
}

/// The text made of these characters.
pub fn string_of(v: &[char]) -> (r: String)
    ensures
        r@ == v@,
{
    let mut out = String::new();
    push_chars(&mut out, v);
    assert(Seq::<char>::empty() + v@ =~= v@);
    out
}

/// Append characters to a text.
pub fn push_chars(out: &mut String, v: &[char])
    ensures
        final(out)@ == old(out)@ + v@,
{
    let ghost start = out@;
    let mut i: usize = 0;
    while i < v.len()
        invariant
            i <= v@.len(),
            out@ == start + v@.take(i as int),
        decreases v@.len() - i,
    {
        out.push(v[i]);
        i += 1;
        assert(start + v@.take(i as int) =~= (start + v@.take(i - 1)).push(v@[i - 1]));
    }
    assert(v@.take(i as int) =~= v@);
}

/// Is the text empty?
pub fn is_empty(s: &str) -> (r: bool)
    ensures
        r == (s@.len() == 0),
{
    s.unicode_len() == 0
}

/// Take the last character off, if there is one.
pub fn pop_char(s: &mut String)
    ensures
        final(s)@ == (if old(s)@.len() == 0 {
            old(s)@
        } else {
            old(s)@.drop_last()
        }),
{
    let chars = chars_of(s.as_str());
    let n: usize = chars.len();
    if n > 0 {
        *s = string_of(slice_subrange(chars.as_slice(), 0, n - 1));
        assert(s@ =~= chars@.drop_last());
    }
}

/// Are the two texts the same?
pub fn same(a: &[char], b: &[char]) -> (r: bool)
    ensures
        r == (a@ == b@),
{
    if a.len() != b.len() {
        return false;
    }
    let mut i: usize = 0;
    while i < a.len()
        invariant
            i <= a@.len(),
            a@.len() == b@.len(),
            forall|j: int| 0 <= j < i ==> a@[j] == b@[j],
        decreases a@.len() - i,
    {
        if a[i] != b[i] {
            return false;
        }
        i += 1;
    }
    assert(a@ =~= b@);
    true
}

/// `n` copies of one character.
pub open spec fn repeated(c: char, n: nat) -> Seq<char> {
    Seq::new(n, |i: int| c)
}

/// Append `n` copies of one character.
pub fn push_repeated(out: &mut String, c: char, n: usize)
    ensures
        final(out)@ == old(out)@ + repeated(c, n as nat),
{
    let ghost start = out@;
    let mut i: usize = 0;
    while i < n
        invariant
            i <= n,
            out@ == start + repeated(c, i as nat),
        decreases n - i,
    {
        out.push(c);
        i += 1;
        assert(start + repeated(c, i as nat) =~= (start + repeated(c, (i - 1) as nat)).push(c));
    }
}

/// A text right-aligned in `w` columns; a longer one is left as it is.
pub open spec fn right_aligned(s: Seq<char>, w: nat) -> Seq<char> {
    if s.len() >= w {
        s
    } else {
        repeated(' ', (w - s.len()) as nat) + s
    }
}

/// Right-align a text in `w` columns.
pub fn right_align(s: &str, w: usize) -> (r: String)
    ensures
        r@ == right_aligned(s@, w as nat),
{
    let n: usize = s.unicode_len();
    let mut out = String::new();
    if n < w {
        push_repeated(&mut out, ' ', w - n);
    }
    out.append(s);
    assert(out@ =~= right_aligned(s@, w as nat));
    out
}

// ---------------------------------------------------------------------------
// searching
// ---------------------------------------------------------------------------

/// The text begins with `p`.
pub open spec fn begins(s: Seq<char>, p: Seq<char>) -> bool {
    p.len() <= s.len() && s.take(p.len() as int) == p
}

/// `p` stands in the text at position `i`.
pub open spec fn occurs_at(s: Seq<char>, p: Seq<char>, i: int) -> bool {
    0 <= i && i + p.len() <= s.len() && s.subrange(i, i + p.len()) == p
}

/// `p` stands somewhere in the text.
pub open spec fn occurs(s: Seq<char>, p: Seq<char>) -> bool {
    exists|i: int| occurs_at(s, p, i)
}

/// Does the text begin with `p`?
pub fn starts_with(s: &[char], p: &[char]) -> (r: bool)
    ensures
        r == begins(s@, p@),
{
    if p.len() > s.len() {
        return false;
    }
    let head = slice_subrange(s, 0, p.len());
    assert(head@ =~= s@.take(p@.len() as int));
    same(head, p)
}

/// Does `p` stand somewhere in the text?
pub fn contains(s: &[char], p: &[char]) -> (r: bool)
    ensures
        r == occurs(s@, p@),
{
    if p.len() > s.len() {
        return false;
    }
    let last: usize = s.len() - p.len();
    let mut i: usize = 0;
    while i <= last
        invariant
            last == s@.len() - p@.len(),
            last <= usize::MAX - p@.len(),
            i <= last + 1,
            forall|j: int| 0 <= j < i ==> !occurs_at(s@, p@, j),
        decreases last + 1 - i,
    {
        if same(slice_subrange(s, i, i + p.len()), p) {
            assert(occurs_at(s@, p@, i as int));
            return true;
        }
        assert(!occurs_at(s@, p@, i as int));
        if i == last {
            return false;
        }
        i += 1;
    }
    false
}

/// Does `needle` stand somewhere in `hay`?
pub fn str_contains(hay: &str, needle: &str) -> (r: bool)
    ensures
        r == occurs(hay@, needle@),
{
    let h = chars_of(hay);
    let n = chars_of(needle);
    contains(h.as_slice(), n.as_slice())
}

/// How many characters come before the first `c`; all of them when there is
/// none.
pub open spec fn index_of(s: Seq<char>, c: char) -> int
    decreases s.len(),
{
    if s.len() == 0 || s[0] == c {
        0
    } else {
        1 + index_of(s.skip(1), c)
    }
}

pub proof fn lemma_index_of(s: Seq<char>, c: char, i: int)
    requires
        0 <= i <= s.len(),
        forall|j: int| 0 <= j < i ==> s[j] != c,
        i < s.len() ==> s[i] == c,
    ensures
        index_of(s, c) == i,
    decreases i,
{
    if i > 0 {
        assert(s[0] != c);
        lemma_index_of(s.skip(1), c, i - 1);
    }
}

/// Where the first `c` stands, or the length when there is none.
pub fn find_char(s: &[char], c: char) -> (r: usize)
    ensures
        r == index_of(s@, c),
        r <= s@.len(),
        r < s@.len() ==> s@[r as int] == c,
        forall|j: int| 0 <= j < r ==> s@[j] != c,
{
    let mut i: usize = 0;
    while i < s.len() && s[i] != c
        invariant
            i <= s@.len(),
            forall|j: int| 0 <= j < i ==> s@[j] != c,
        decreases s@.len() - i,
    {
        i += 1;
    }
    proof {
        lemma_index_of(s@, c, i as int);
    }
    i
}

/// A text as the parts before and after its first `c`, if it has one.
pub open spec fn cut_at(s: Seq<char>, c: char) -> Option<(Seq<char>, Seq<char>)> {
    let i = index_of(s, c);
    if i < s.len() {
        Some((s.take(i), s.skip(i + 1)))
    } else {
        None
    }
}

/// Split a text at its first `c`.
pub fn split_once<'a>(s: &'a [char], c: char) -> (r: Option<(&'a [char], &'a [char])>)
    ensures
        match r {
            Some((a, b)) => cut_at(s@, c) == Some((a@, b@)),
            None => cut_at(s@, c) is None,
        },
{
    let i: usize = find_char(s, c);
    if i < s.len() {
        let a = slice_subrange(s, 0, i);
        let b = slice_subrange(s, i + 1, s.len());
        assert(a@ =~= s@.take(i as int));
        assert(b@ =~= s@.skip(i + 1));
        Some((a, b))
    } else {
        None
    }
}

/// The parts of a text between its separators: one more than there are
/// separators.
pub open spec fn pieces(s: Seq<char>, sep: char) -> Seq<Seq<char>>
    decreases s.len(),
{
    if s.len() == 0 {
        seq![Seq::<char>::empty()]
    } else if s.last() == sep {
        pieces(s.drop_last(), sep).push(Seq::<char>::empty())
    } else {
        let front = pieces(s.drop_last(), sep);
        front.drop_last().push(front.last().push(s.last()))
    }
}

/// Split a text at every separator.
pub fn split(s: &[char], sep: char) -> (r: Vec<Vec<char>>)
    ensures
        r@.len() == pieces(s@, sep).len(),
        forall|k: int| 0 <= k < r@.len() ==> #[trigger] r@[k]@ == pieces(s@, sep)[k],
{
    let mut done: Vec<Vec<char>> = Vec::new();
    let mut cur: Vec<char> = Vec::new();
    let mut i: usize = 0;
    assert(s@.take(0) =~= Seq::<char>::empty());
    while i < s.len()
        invariant
            i <= s@.len(),
            pieces(s@.take(i as int), sep).len() == done@.len() + 1,
            pieces(s@.take(i as int), sep).last() == cur@,
            forall|k: int|
                0 <= k < done@.len() ==> #[trigger] done@[k]@ == pieces(s@.take(i as int), sep)[k],
        decreases s@.len() - i,
    {
        let c = s[i];
        assert(s@.take(i + 1).drop_last() =~= s@.take(i as int));
        assert(s@.take(i + 1).last() == c);
        if c == sep {
            done.push(cur);
            cur = Vec::new();
        } else {
            cur.push(c);
        }
        i += 1;
    }
    assert(s@.take(i as int) =~= s@);
    done.push(cur);
    done
}

/// Texts with a separator between any two.
pub open spec fn joined(parts: Seq<Seq<char>>, sep: Seq<char>) -> Seq<char>
    decreases parts.len(),
{
    if parts.len() == 0 {
        Seq::empty()
    } else if parts.len() == 1 {
        parts[0]
    } else {
        joined(parts.drop_last(), sep) + sep + parts.last()
    }
}

/// Join texts with a separator between any two.
pub fn join(parts: &Vec<String>, sep: &str) -> (r: String)
    ensures
        r@ == joined(views(parts@), sep@),
{
    let ghost all = views(parts@);
    let mut out = String::new();
    let mut i: usize = 0;
    assert(all.take(0) =~= Seq::<Seq<char>>::empty());
    while i < parts.len()
        invariant
            i <= parts@.len(),
            all == views(parts@),
            out@ == joined(all.take(i as int), sep@),
        decreases parts@.len() - i,
    {
        assert(all.take(i + 1).drop_last() =~= all.take(i as int));
        assert(all.take(i + 1).last() == parts@[i as int]@);
        if i > 0 {
            out.append(sep);
        }
        out.append(parts[i].as_str());
        i += 1;
        assert(out@ =~= joined(all.take(i as int), sep@));
    }
    assert(all.take(i as int) =~= all);
    out
}

// ---------------------------------------------------------------------------
// order
// ---------------------------------------------------------------------------

/// `a` does not come after `b` in the order of texts: character by character,
/// a prefix first.
pub open spec fn text_up_to(a: Seq<char>, b: Seq<char>) -> bool
    decreases a.len(),
{
    if a.len() == 0 {
        true
    } else if b.len() == 0 {
        false
    } else if a[0] != b[0] {
        a[0] < b[0]
    } else {
        text_up_to(a.skip(1), b.skip(1))
    }
}

pub proof fn lemma_text_total(a: Seq<char>, b: Seq<char>)
    ensures
        text_up_to(a, b) || text_up_to(b, a),
        text_up_to(a, b) && text_up_to(b, a) ==> a == b,
    decreases a.len(),
{
    if a.len() == 0 {
        assert(text_up_to(b, a) ==> a =~= b);
    } else if b.len() > 0 && a[0] == b[0] {
        lemma_text_total(a.skip(1), b.skip(1));
        if text_up_to(a, b) && text_up_to(b, a) {
            assert(seq![a[0]] + a.skip(1) =~= a);
            assert(seq![b[0]] + b.skip(1) =~= b);
        }
    }
}

pub proof fn lemma_text_transitive(a: Seq<char>, b: Seq<char>, c: Seq<char>)
    requires
        text_up_to(a, b),
        text_up_to(b, c),
    ensures
        text_up_to(a, c),
    decreases a.len(),
{
    if a.len() > 0 && a[0] == b[0] && b[0] == c[0] {
        lemma_text_transitive(a.skip(1), b.skip(1), c.skip(1));
    }
}

/// Does `a` not come after `b` in the order of texts?
pub fn text_not_after(a: &str, b: &str) -> (r: bool)
    ensures
        r == text_up_to(a@, b@),
{
    let x = chars_of(a);
    let y = chars_of(b);
    let mut i: usize = 0;
    assert(a@.skip(0) =~= a@ && b@.skip(0) =~= b@);
    while i < x.len() && i < y.len()
        invariant
            x@ == a@,
            y@ == b@,
            i <= x@.len(),
            i <= y@.len(),
            text_up_to(a@.skip(i as int), b@.skip(i as int)) == text_up_to(a@, b@),
        decreases x@.len() - i,
    {
        assert(a@.skip(i as int)[0] == x@[i as int] && b@.skip(i as int)[0] == y@[i as int]);
        assert(a@.skip(i as int).skip(1) =~= a@.skip(i + 1));
        assert(b@.skip(i as int).skip(1) =~= b@.skip(i + 1));
        if x[i] != y[i] {
            return x[i] < y[i];
        }
        i += 1;
    }
    x.len() == i
}

// ---------------------------------------------------------------------------
// trimming
// ---------------------------------------------------------------------------

/// What a trim takes off.
#[derive(Clone, Copy)]
pub enum Trimmed {
    White,
    Only(char),
}

/// The trim takes this character off.
pub open spec fn trims(k: Trimmed, c: char) -> bool {
    match k {
        Trimmed::White => is_white(c),
        Trimmed::Only(x) => c == x,
    }
}

/// A text without the leading characters that the trim takes off.
pub open spec fn left_trimmed(s: Seq<char>, k: Trimmed) -> Seq<char>
    decreases s.len(),
{
    if s.len() > 0 && trims(k, s[0]) {
        left_trimmed(s.skip(1), k)
    } else {
        s
    }
}

/// A text without the trailing characters that the trim takes off.
pub open spec fn right_trimmed(s: Seq<char>, k: Trimmed) -> Seq<char>
    decreases s.len(),
{
    if s.len() > 0 && trims(k, s.last()) {
        right_trimmed(s.drop_last(), k)
    } else {
        s
    }
}

/// A text without the white space around it.
pub open spec fn trimmed(s: Seq<char>) -> Seq<char> {
    right_trimmed(left_trimmed(s, Trimmed::White), Trimmed::White)
}

fn is_trimmed(k: Trimmed, c: char) -> (r: bool)
    ensures
        r == trims(k, c),
{
    match k {
        Trimmed::White => c.is_whitespace(),
        Trimmed::Only(x) => c == x,
    }
}

/// Take leading characters off.
pub fn trim_start<'a>(s: &'a [char], k: Trimmed) -> (r: &'a [char])
    ensures
        r@ == left_trimmed(s@, k),
{
    let mut i: usize = 0;
    assert(s@.skip(0) =~= s@);
    while i < s.len() && is_trimmed(k, s[i])
        invariant
            i <= s@.len(),
            left_trimmed(s@.skip(i as int), k) == left_trimmed(s@, k),
        decreases s@.len() - i,
    {
        assert(s@.skip(i as int).skip(1) =~= s@.skip(i + 1));
        i += 1;
    }
    let r = slice_subrange(s, i, s.len());
    assert(r@ =~= s@.skip(i as int));
    r
}

/// Take trailing characters off.
pub fn trim_end<'a>(s: &'a [char], k: Trimmed) -> (r: &'a [char])
    ensures
        r@ == right_trimmed(s@, k),
{
    let mut n: usize = s.len();
    assert(s@.take(n as int) =~= s@);
    while n > 0 && is_trimmed(k, s[n - 1])
        invariant
            n <= s@.len(),
            right_trimmed(s@.take(n as int), k) == right_trimmed(s@, k),
        decreases n,
    {
        assert(s@.take(n as int).drop_last() =~= s@.take(n - 1));
        n -= 1;
    }
    let r = slice_subrange(s, 0, n);
    assert(r@ =~= s@.take(n as int));
    r
}

/// Take the white space around a text off.
pub fn trim<'a>(s: &'a [char]) -> (r: &'a [char])
    ensures
        r@ == trimmed(s@),
{
    trim_end(trim_start(s, Trimmed::White), Trimmed::White)
}

// ---------------------------------------------------------------------------
// numbers
// ---------------------------------------------------------------------------

/// One decimal digit.
pub open spec fn digit(d: nat) -> char {
    (48 + d) as u8 as char
}

/// A number in decimal, without leading zeros.
pub open spec fn decimal(n: nat) -> Seq<char>
    decreases n,
{
    if n < 10 {
        seq![digit(n)]
    } else {
        decimal(n / 10).push(digit(n % 10))
    }
}

fn digit_char(d: u64) -> (r: char)
    requires
        d < 10,
    ensures
        r == digit(d as nat),
{
    (48u8 + d as u8) as char
}

/// Append a number in decimal.
pub fn push_decimal(out: &mut String, n: u64)
    ensures
        final(out)@ == old(out)@ + decimal(n as nat),
    decreases n,
{
    let ghost start = out@;
    if n < 10 {
        out.push(digit_char(n));
        assert(out@ =~= start + decimal(n as nat));
    } else {
        push_decimal(out, n / 10);
        out.push(digit_char(n % 10));
        assert(out@ =~= start + decimal(n as nat));
    }
}

/// A number in decimal.
pub fn number(n: usize) -> (r: String)
    ensures
        r@ == decimal(n as nat),
{
    let mut out = String::new();
    push_decimal(&mut out, n as u64);
    assert(Seq::<char>::empty() + decimal(n as nat) =~= decimal(n as nat));
    out
}

/// The last three decimal digits of a number, leading zeros kept.
pub open spec fn three_digits(n: nat) -> Seq<char> {
    seq![digit(n / 100 % 10), digit(n / 10 % 10), digit(n % 10)]
}

/// A number in decimal with a comma before every group of three digits that
/// has a digit before it.
pub open spec fn grouped(n: nat) -> Seq<char>
    decreases n,
{
    if n < 1000 {
        decimal(n)
    } else {
        grouped(n / 1000) + seq![','] + three_digits(n)
    }
}

fn push_grouped(out: &mut String, n: u64)
    ensures
        final(out)@ == old(out)@ + grouped(n as nat),
    decreases n,
{
    let ghost start = out@;
    if n < 1000 {
        push_decimal(out, n);
    } else {
        push_grouped(out, n / 1000);
        out.push(',');
        out.push(digit_char(n / 100 % 10));
        out.push(digit_char(n / 10 % 10));
        out.push(digit_char(n % 10));
        assert(out@ =~= start + grouped(n as nat));
    }
}

/// 137482 -> "137,482": a six-figure mailbox total is unreadable without the
/// commas.
pub fn commas(n: usize) -> (r: String)
    ensures
        r@ == grouped(n as nat),
{
    let mut out = String::new();
    push_grouped(&mut out, n as u64);
    assert(Seq::<char>::empty() + grouped(n as nat) =~= grouped(n as nat));
    out
}

/// A text without its commas.
pub open spec fn without_commas(s: Seq<char>) -> Seq<char>
    decreases s.len(),
{
    if s.len() == 0 {
        s
    } else if s.last() == ',' {
        without_commas(s.drop_last())
    } else {
        without_commas(s.drop_last()).push(s.last())
    }
}

proof fn lemma_decimal_no_commas(n: nat)
    ensures
        forall|i: int| 0 <= i < decimal(n).len() ==> #[trigger] decimal(n)[i] != ',',
        decimal(n).len() > 0,
        n < 1000 ==> decimal(n).len() <= 3,
    decreases n,
{
    if n >= 10 {
        lemma_decimal_no_commas(n / 10);
        if n < 1000 {
            if n >= 100 {
                assert(decimal(n / 10).len() == decimal(n / 100).len() + 1) by {
                    assert(n / 10 / 10 == n / 100);
                }
                assert(decimal(n / 100).len() == 1);
            } else {
                assert(decimal(n / 10).len() == 1);
            }
        }
    }
}

proof fn lemma_decimal_thousands(n: nat)
    requires
        n >= 1000,
    ensures
        decimal(n) == decimal(n / 1000) + three_digits(n),
{
    assert(n / 10 / 10 == n / 100);
    assert(n / 100 / 10 == n / 1000);
    assert(decimal(n / 100) == decimal(n / 1000).push(digit(n / 100 % 10)));
    assert(decimal(n / 10) == decimal(n / 100).push(digit(n / 10 % 10)));
    assert(decimal(n) =~= decimal(n / 1000) + three_digits(n));
}

proof fn lemma_without_commas_add(a: Seq<char>, b: Seq<char>)
    ensures
        without_commas(a + b) == without_commas(a) + without_commas(b),
    decreases b.len(),
{
    if b.len() == 0 {
        assert(a + b =~= a);
        assert(without_commas(a) + without_commas(b) =~= without_commas(a));
    } else {
        assert((a + b).drop_last() =~= a + b.drop_last());
        lemma_without_commas_add(a, b.drop_last());
        assert(without_commas(a + b) =~= without_commas(a) + without_commas(b));
    }
}

proof fn lemma_no_commas(s: Seq<char>)
    requires
        forall|i: int| 0 <= i < s.len() ==> #[trigger] s[i] != ',',
    ensures
        without_commas(s) == s,
    decreases s.len(),
{
    if s.len() > 0 {
        let front = s.drop_last();
        assert forall|i: int| 0 <= i < front.len() implies #[trigger] front[i] != ',' by {
            assert(front[i] == s[i]);
        }
        assert(s[s.len() - 1] != ',');
        lemma_no_commas(front);
        assert(front.push(s.last()) =~= s);
    }
}

/// Grouping a number adds commas and nothing else: without them its digits
/// stand as they were. Counted from the right, every fourth character is a
/// comma, and no other one is.
pub proof fn grouping_adds_only_commas(n: nat)
    ensures
        without_commas(grouped(n)) == decimal(n),
        forall|k: int|
            0 <= k < grouped(n).len() ==> (#[trigger] grouped(n)[grouped(n).len() - 1 - k] == ','
                <==> k % 4 == 3),
        grouped(n).len() > 0 && grouped(n)[0] != ',',
    decreases n,
{
    lemma_decimal_no_commas(n);
    if n < 1000 {
        lemma_no_commas(decimal(n));
    } else {
        let front = grouped(n / 1000);
        let tail = three_digits(n);
        let all = grouped(n);
        grouping_adds_only_commas(n / 1000);
        lemma_decimal_thousands(n);
        lemma_without_commas_add(front + seq![','], tail);
        lemma_without_commas_add(front, seq![',']);
        lemma_no_commas(tail);
        assert(seq![','].drop_last() =~= Seq::<char>::empty());
        reveal_with_fuel(without_commas, 2);
        assert(without_commas(seq![',']) =~= Seq::<char>::empty());
        assert(without_commas(all) =~= decimal(n));
        assert forall|k: int| 0 <= k < all.len() implies (#[trigger] all[all.len() - 1 - k] == ','
            <==> k % 4 == 3) by {
            if k < 3 {
                assert(all[all.len() - 1 - k] == tail[2 - k]);
            } else if k == 3 {
                assert(all[all.len() - 1 - k] == ',');
            } else {
                assert(all[all.len() - 1 - k] == front[front.len() - 1 - (k - 4)]);
            }
        }
        assert(all[0] == front[0]);
    }
}

// ---------------------------------------------------------------------------
// what these functions promise
// ---------------------------------------------------------------------------

/// A number as it is read: its digits from the left, each worth ten times what
/// the next one is. Anything else is no number.
pub open spec fn number_read(s: Seq<char>) -> Option<nat>
    decreases s.len(),
{
    if s.len() == 0 || !('0' <= s.last() <= '9') {
        None
    } else {
        let d = (s.last() as u32 - '0' as u32) as nat;
        if s.len() == 1 {
            Some(d)
        } else {
            match number_read(s.drop_last()) {
                Some(n) => Some(10 * n + d),
                None => None,
            }
        }
    }
}

/// A number that is written is the number that is read, it has no leading
/// zero, and its digits are all there is.
pub proof fn a_number_is_read_back(n: nat)
    ensures
        number_read(decimal(n)) == Some(n),
        decimal(n).len() > 0,
        decimal(n)[0] == '0' ==> n == 0 && decimal(n).len() == 1,
        forall|i: int| 0 <= i < decimal(n).len() ==> '0' <= #[trigger] decimal(n)[i] <= '9',
    decreases n,
{
    let d = decimal(n);
    if n >= 10 {
        let front = decimal(n / 10);
        a_number_is_read_back(n / 10);
        assert(d == front.push(digit(n % 10)));
        assert(d.drop_last() =~= front);
        assert(d[0] == front[0]);
    }
}

/// A number that is grouped is read back once its commas are out.
pub proof fn a_grouped_number_is_read_back(n: nat)
    ensures
        number_read(without_commas(grouped(n))) == Some(n),
{
    grouping_adds_only_commas(n);
    a_number_is_read_back(n);
}

/// Taking the commas out takes nothing else out, and leaves none in.
pub proof fn only_commas_are_taken_out(s: Seq<char>)
    ensures
        without_commas(s) == s.filter(|c: char| c != ','),
    decreases s.len(),
{
    reveal(Seq::filter);
    if s.len() > 0 {
        only_commas_are_taken_out(s.drop_last());
    }
}

/// A text stands in another exactly when the other is it with something before
/// and something behind it.
pub proof fn to_occur_is_to_stand_somewhere(s: Seq<char>, p: Seq<char>)
    ensures
        occurs(s, p) <==> exists|a: Seq<char>, b: Seq<char>| s == #[trigger] (a + p + b),
        forall|a: Seq<char>, b: Seq<char>| occurs(#[trigger] (a + p + b), p),
{
    assert forall|a: Seq<char>, b: Seq<char>| occurs(#[trigger] (a + p + b), p) by {
        let t = a + p + b;
        assert(t.subrange(a.len() as int, (a.len() + p.len()) as int) =~= p);
        assert(occurs_at(t, p, a.len() as int));
    }
    if occurs(s, p) {
        let i = choose|i: int| occurs_at(s, p, i);
        let a = s.take(i);
        let b = s.skip(i + p.len());
        assert forall|k: int| 0 <= k < s.len() implies s[k] == (a + p + b)[k] by {
            if i <= k < i + p.len() {
                assert(s.subrange(i, i + p.len())[k - i] == s[k]);
            }
        }
        assert(s =~= a + p + b);
    }
}

/// A text begins with another exactly when it is the other with something
/// behind it.
pub proof fn to_begin_is_to_go_on(s: Seq<char>, p: Seq<char>)
    ensures
        begins(s, p) <==> exists|b: Seq<char>| s == #[trigger] (p + b),
        begins(s, p) ==> s == p + s.skip(p.len() as int),
{
    if begins(s, p) {
        assert(s =~= s.take(p.len() as int) + s.skip(p.len() as int));
        assert(s == p + s.skip(p.len() as int));
    }
    if exists|b: Seq<char>| s == #[trigger] (p + b) {
        let b = choose|b: Seq<char>| s == #[trigger] (p + b);
        assert(s.take(p.len() as int) =~= p);
    }
}

/// A small ASCII letter and its capital.
pub open spec fn case_pair(small: char, capital: char) -> bool {
    'a' <= small <= 'z' && small as u32 == capital as u32 + 32
}

/// Texts are the same but for case exactly when they are equally long and no
/// two characters differ but for the case of an ASCII letter.
pub proof fn case_is_all_that_is_ignored(a: Seq<char>, b: Seq<char>)
    ensures
        same_ignoring_case(a, b) <==> a.len() == b.len() && forall|i: int|
            0 <= i < a.len() ==> #[trigger] a[i] == b[i] || case_pair(a[i], b[i]) || case_pair(
                b[i],
                a[i],
            ),
{
    let (x, y) = (ascii_lower_all(a), ascii_lower_all(b));
    if same_ignoring_case(a, b) {
        assert(x.len() == a.len() && y.len() == b.len());
        assert forall|i: int| 0 <= i < a.len() implies #[trigger] a[i] == b[i] || case_pair(
            a[i],
            b[i],
        ) || case_pair(b[i], a[i]) by {
            assert(x[i] == y[i]);
        }
    }
    if a.len() == b.len() && forall|i: int|
        0 <= i < a.len() ==> #[trigger] a[i] == b[i] || case_pair(a[i], b[i]) || case_pair(
            b[i],
            a[i],
        ) {
        assert forall|i: int| 0 <= i < a.len() implies x[i] == y[i] by {
            assert(a[i] == b[i] || case_pair(a[i], b[i]) || case_pair(b[i], a[i]));
        }
        assert(x =~= y);
    }
}

/// Lowercasing an ASCII text changes capitals into their small letters and
/// nothing else; a text without capitals it leaves alone.
pub proof fn lowercasing_changes_only_capitals(s: Seq<char>)
    requires
        is_ascii_chars(s),
    ensures
        lowercase(s).len() == s.len(),
        forall|i: int|
            0 <= i < s.len() ==> {
                let c = #[trigger] lowercase(s)[i];
                if 'A' <= s[i] <= 'Z' {
                    case_pair(c, s[i])
                } else {
                    c == s[i]
                }
            },
        lowercase(lowercase(s)) == lowercase(s),
{
    let low = lowercase(s);
    assert forall|i: int| 0 <= i < low.len() implies 0 <= #[trigger] low[i] as u32 <= 127 by {
        assert(0 <= s[i] as u32 <= 127);
    }
    assert(is_ascii_chars(low));
    assert(lowercase(low) =~= low);
}

/// Uppercasing an ASCII text changes small letters into their capitals and
/// nothing else.
pub proof fn uppercasing_changes_only_small_letters(s: Seq<char>)
    requires
        is_ascii_chars(s),
    ensures
        uppercase(s).len() == s.len(),
        forall|i: int|
            0 <= i < s.len() ==> {
                let c = #[trigger] uppercase(s)[i];
                if 'a' <= s[i] <= 'z' {
                    case_pair(s[i], c)
                } else {
                    c == s[i]
                }
            },
{
}

/// A text is cut at its first separator: what comes before holds none, and the
/// two parts with the separator between them are the text. It is not cut only
/// where there is none.
pub proof fn a_cut_is_at_the_first(s: Seq<char>, c: char)
    ensures
        match cut_at(s, c) {
            Some((a, b)) => s == a.push(c) + b && !a.contains(c),
            None => !s.contains(c),
        },
{
    lemma_index_found(s, c);
    let i = index_of(s, c);
    if i < s.len() {
        assert(s =~= s.take(i).push(c) + s.skip(i + 1));
    }
}

proof fn lemma_index_found(s: Seq<char>, c: char)
    ensures
        0 <= index_of(s, c) <= s.len(),
        index_of(s, c) < s.len() ==> s[index_of(s, c)] == c,
        forall|j: int| 0 <= j < index_of(s, c) ==> s[j] != c,
    decreases s.len(),
{
    if s.len() > 0 && s[0] != c {
        lemma_index_found(s.skip(1), c);
        assert forall|j: int| 0 <= j < index_of(s, c) implies s[j] != c by {
            if j > 0 {
                assert(s.skip(1)[j - 1] == s[j]);
            }
        }
    }
}

/// The pieces of a text hold no separator, there is at least one, and with the
/// separator between any two they are the text again.
pub proof fn pieces_make_the_text(s: Seq<char>, sep: char)
    ensures
        pieces(s, sep).len() > 0,
        forall|k: int| 0 <= k < pieces(s, sep).len() ==> !(#[trigger] pieces(s, sep)[k]).contains(
            sep,
        ),
        joined(pieces(s, sep), seq![sep]) == s,
    decreases s.len(),
{
    let all = pieces(s, sep);
    if s.len() == 0 {
        assert(all[0] =~= s);
    } else {
        let front = pieces(s.drop_last(), sep);
        pieces_make_the_text(s.drop_last(), sep);
        assert(s =~= s.drop_last().push(s.last()));
        if s.last() == sep {
            assert(all.drop_last() =~= front);
            assert(joined(all, seq![sep]) =~= s.drop_last() + seq![sep] + Seq::<char>::empty());
            assert(joined(all, seq![sep]) =~= s);
        } else {
            let last = front.last().push(s.last());
            assert forall|k: int| 0 <= k < all.len() implies !(#[trigger] all[k]).contains(
                sep,
            ) by {
                assert(!front[k].contains(sep));
                if k == all.len() - 1 && all[k].contains(sep) {
                    let j = choose|j: int| 0 <= j < all[k].len() && all[k][j] == sep;
                    assert(front[k][j] == sep);
                }
            }
            if front.len() > 1 {
                assert(all.drop_last() =~= front.drop_last());
                assert(all.last() == last);
            }
            assert(joined(all, seq![sep]) =~= s);
        }
    }
}

proof fn lemma_one_piece(s: Seq<char>, sep: char)
    requires
        !s.contains(sep),
    ensures
        pieces(s, sep) == seq![s],
    decreases s.len(),
{
    if s.len() == 0 {
        assert(s =~= Seq::<char>::empty());
    } else {
        let front = s.drop_last();
        assert(s[s.len() - 1] != sep);
        if front.contains(sep) {
            let j = choose|j: int| 0 <= j < front.len() && front[j] == sep;
            assert(s[j] == sep);
        }
        lemma_one_piece(front, sep);
        assert(front.push(s.last()) =~= s);
        assert(pieces(s, sep) =~= seq![s]);
    }
}

/// A piece more at the end of a text is a piece more at the end of its pieces.
pub proof fn lemma_pieces_grow(a: Seq<char>, sep: char, b: Seq<char>)
    requires
        !b.contains(sep),
    ensures
        pieces(a + seq![sep] + b, sep) == pieces(a, sep).push(b),
    decreases b.len(),
{
    let all = a + seq![sep] + b;
    if b.len() == 0 {
        assert(all.drop_last() =~= a);
        assert(b =~= Seq::<char>::empty());
    } else {
        let front = b.drop_last();
        assert(b[b.len() - 1] != sep);
        if front.contains(sep) {
            let j = choose|j: int| 0 <= j < front.len() && front[j] == sep;
            assert(b[j] == sep);
        }
        lemma_pieces_grow(a, sep, front);
        assert(all.drop_last() =~= a + seq![sep] + front);
        assert(front.push(b.last()) =~= b);
        assert(pieces(all, sep) =~= pieces(a, sep).push(b));
    }
}

/// Texts that hold no separator are the pieces of what joining them gives.
pub proof fn what_is_joined_comes_apart_again(parts: Seq<Seq<char>>, sep: char)
    requires
        parts.len() > 0,
        forall|k: int| 0 <= k < parts.len() ==> !(#[trigger] parts[k]).contains(sep),
    ensures
        pieces(joined(parts, seq![sep]), sep) == parts,
    decreases parts.len(),
{
    if parts.len() == 1 {
        assert(!parts[0].contains(sep));
        lemma_one_piece(parts[0], sep);
        assert(parts =~= seq![parts[0]]);
    } else {
        let front = parts.drop_last();
        assert forall|k: int| 0 <= k < front.len() implies !(#[trigger] front[k]).contains(
            sep,
        ) by {
            assert(front[k] == parts[k]);
        }
        what_is_joined_comes_apart_again(front, sep);
        assert(!parts[parts.len() - 1].contains(sep));
        lemma_pieces_grow(joined(front, seq![sep]), sep, parts.last());
        assert(front.push(parts.last()) =~= parts);
    }
}

/// Trimming takes off what it is told to take off at that end, all of it, and
/// nothing else.
pub proof fn a_trim_stops_at_the_first_to_stay(s: Seq<char>, k: Trimmed)
    ensures
        ({
            let r = left_trimmed(s, k);
            let n = s.len() - r.len();
            &&& 0 <= n
            &&& r == s.skip(n)
            &&& forall|i: int| 0 <= i < n ==> trims(k, #[trigger] s[i])
            &&& r.len() > 0 ==> !trims(k, r[0])
        }),
        ({
            let r = right_trimmed(s, k);
            &&& r.len() <= s.len()
            &&& r == s.take(r.len() as int)
            &&& forall|i: int| r.len() <= i < s.len() ==> trims(k, #[trigger] s[i])
            &&& r.len() > 0 ==> !trims(k, r.last())
        }),
{
    lemma_left_stop(s, k);
    lemma_right_stop(s, k);
}

proof fn lemma_left_stop(s: Seq<char>, k: Trimmed)
    ensures
        ({
            let r = left_trimmed(s, k);
            let n = s.len() - r.len();
            &&& 0 <= n
            &&& r == s.skip(n)
            &&& forall|i: int| 0 <= i < n ==> trims(k, #[trigger] s[i])
            &&& r.len() > 0 ==> !trims(k, r[0])
        }),
    decreases s.len(),
{
    let r = left_trimmed(s, k);
    if s.len() > 0 && trims(k, s[0]) {
        let rest = s.skip(1);
        lemma_left_stop(rest, k);
        let n = s.len() - r.len();
        assert(rest.skip(n - 1) =~= s.skip(n));
        assert forall|i: int| 0 <= i < n implies trims(k, #[trigger] s[i]) by {
            if i > 0 {
                assert(rest[i - 1] == s[i]);
            }
        }
    } else {
        assert(s.skip(0) =~= s);
    }
}

proof fn lemma_right_stop(s: Seq<char>, k: Trimmed)
    ensures
        ({
            let r = right_trimmed(s, k);
            &&& r.len() <= s.len()
            &&& r == s.take(r.len() as int)
            &&& forall|i: int| r.len() <= i < s.len() ==> trims(k, #[trigger] s[i])
            &&& r.len() > 0 ==> !trims(k, r.last())
        }),
    decreases s.len(),
{
    let r = right_trimmed(s, k);
    if s.len() > 0 && trims(k, s.last()) {
        let front = s.drop_last();
        lemma_right_stop(front, k);
        assert(front.take(r.len() as int) =~= s.take(r.len() as int));
        assert forall|i: int| r.len() <= i < s.len() implies trims(k, #[trigger] s[i]) by {
            if i < front.len() {
                assert(front[i] == s[i]);
            }
        }
    } else {
        assert(s.take(s.len() as int) =~= s);
    }
}

/// A trimmed text stands in the text with white space around it and none at
/// its ends.
pub proof fn white_space_is_trimmed(s: Seq<char>)
    ensures
        ({
            let r = trimmed(s);
            exists|i: int|
                {
                    &&& 0 <= i && i + r.len() <= s.len()
                    &&& r == #[trigger] s.subrange(i, i + r.len())
                    &&& forall|j: int| 0 <= j < i ==> is_white(#[trigger] s[j])
                    &&& forall|j: int| i + r.len() <= j < s.len() ==> is_white(#[trigger] s[j])
                }
        }),
        trimmed(s).len() > 0 ==> !is_white(trimmed(s)[0]) && !is_white(trimmed(s).last()),
{
    let l = left_trimmed(s, Trimmed::White);
    let r = trimmed(s);
    a_trim_stops_at_the_first_to_stay(s, Trimmed::White);
    a_trim_stops_at_the_first_to_stay(l, Trimmed::White);
    let i = s.len() - l.len();
    assert(r =~= s.subrange(i, i + r.len()));
    assert forall|j: int| 0 <= j < i implies is_white(#[trigger] s[j]) by {
        assert(trims(Trimmed::White, s[j]));
    }
    assert forall|j: int| i + r.len() <= j < s.len() implies is_white(#[trigger] s[j]) by {
        assert(l[j - i] == s[j]);
        assert(trims(Trimmed::White, l[j - i]));
    }
    if r.len() > 0 {
        assert(r[0] == l[0]);
        assert(!trims(Trimmed::White, l[0]));
        assert(!trims(Trimmed::White, r.last()));
    }
}

/// A text comes before another where it is the beginning of it, or where it
/// has the smaller character at the first place at which the two differ.
pub proof fn texts_are_ordered_by_their_first_difference(a: Seq<char>, b: Seq<char>, i: int)
    requires
        0 <= i <= a.len(),
        i <= b.len(),
        forall|j: int| 0 <= j < i ==> #[trigger] a[j] == b[j],
        i < a.len() && i < b.len() ==> a[i] != b[i],
    ensures
        text_up_to(a, b) <==> i == a.len() || (i < b.len() && a[i] < b[i]),
    decreases i,
{
    if i > 0 {
        let (x, y) = (a.skip(1), b.skip(1));
        assert(a[0] == b[0]);
        assert forall|j: int| 0 <= j < i - 1 implies #[trigger] x[j] == y[j] by {
            assert(a[j + 1] == b[j + 1]);
        }
        texts_are_ordered_by_their_first_difference(x, y, i - 1);
        assert(text_up_to(a, b) == text_up_to(x, y));
        if i < a.len() && i < b.len() {
            assert(x[i - 1] == a[i] && y[i - 1] == b[i]);
        }
    }
}

/// A right-aligned text ends with the text, has spaces before it, and is as
/// wide as asked for unless the text itself is wider.
pub proof fn right_aligning_puts_spaces_before(s: Seq<char>, w: nat)
    ensures
        ({
            let r = right_aligned(s, w);
            let pad = r.len() - s.len();
            &&& r.len() == (if s.len() > w {
                s.len()
            } else {
                w
            })
            &&& r.skip(pad) == s
            &&& forall|i: int| 0 <= i < pad ==> #[trigger] r[i] == ' '
        }),
{
    let r = right_aligned(s, w);
    assert(r.skip(r.len() - s.len()) =~= s);
}

/// A repeated character is there as often as asked for, alone.
pub proof fn repeating_is_counted(c: char, n: nat)
    ensures
        repeated(c, n).len() == n,
        forall|i: int| 0 <= i < n ==> #[trigger] repeated(c, n)[i] == c,
{
}

/// A text more to join is a separator and that text more at the end.
pub proof fn joining_goes_on(parts: Seq<Seq<char>>, p: Seq<char>, sep: Seq<char>)
    ensures
        joined(Seq::empty(), sep).len() == 0,
        joined(seq![p], sep) == p,
        parts.len() > 0 ==> joined(parts.push(p), sep) == joined(parts, sep) + sep + p,
{
    assert(parts.push(p).drop_last() =~= parts);
}

/// Bytes that are UTF-8 are the text that they encode.
pub proof fn utf8_is_read_as_it_stands(s: Seq<char>)
    ensures
        utf8_lossy(encode_utf8(s)) == s,
{
    encode_utf8_valid_utf8(s);
    encode_utf8_decode_utf8(s);
}

} // verus!
