//! Unsubscribing: reading a List-Unsubscribe header, and what is sent where
//! for each way of unsubscribing.
use crate::clock::Timestamp;
use crate::config::AccountConfig;
use crate::imap_client::{first_named, headers_are_read_by_name, meta_in};
use crate::stacks::{MsgMeta, MsgV};
use crate::text::{
    a_cut_is_at_the_first, a_trim_stops_at_the_first_to_stay, begins, chars_of, cut_at,
    eq_ignore_ascii_case, from_utf8_lossy, is_white, left_trimmed, lemma_index_of, lowercase, occurs,
    pieces,
    pieces_make_the_text, right_trimmed, same_ignoring_case, split, split_once, starts_with,
    string_of, to_occur_is_to_stand_somewhere, trim, trim_end, trim_start, trimmed, trims,
    utf8_is_read_as_it_stands, utf8_lossy, Trimmed,
};
use vstd::prelude::*;
use vstd::slice::slice_subrange;
use vstd::string::*;
use vstd::utf8::{
    encode_scalar, encode_utf8, encode_utf8_decode_utf8, encode_utf8_valid_utf8, is_ascii_chars,
    is_ascii_chars_encode_utf8,
};

verus! {

/// A way to unsubscribe.
#[derive(Debug, Clone)]
pub enum Method {
    /// RFC 8058 one-click: POST to https URL, no browser needed
    OneClick(String),
    /// send an email to the unsubscribe address
    Mailto { to: String, subject: String },
    /// plain https link — open in browser
    Browser(String),
}

/// The value of a `Method`.
pub enum MethodV {
    OneClick(Seq<char>),
    Mailto { to: Seq<char>, subject: Seq<char> },
    Browser(Seq<char>),
}

impl View for Method {
    type V = MethodV;

    open spec fn view(&self) -> MethodV {
        match self {
            Method::OneClick(url) => MethodV::OneClick(url@),
            Method::Mailto { to, subject } => MethodV::Mailto { to: to@, subject: subject@ },
            Method::Browser(url) => MethodV::Browser(url@),
        }
    }
}

impl MethodV {
    /// What the user is told about the method.
    pub open spec fn description(self) -> Seq<char> {
        match self {
            MethodV::OneClick(_) => "one-click POST"@,
            MethodV::Mailto { .. } => "unsubscribe email"@,
            MethodV::Browser(_) => "open in browser"@,
        }
    }
}

impl Method {
    /// What the user is told about the method.
    pub fn describe(&self) -> (r: &'static str)
        ensures
            r@ == self@.description(),
            self is OneClick ==> r@ == "one-click POST"@,
            self is Mailto ==> r@ == "unsubscribe email"@,
            self is Browser ==> r@ == "open in browser"@,
    {
        match self {
            Method::OneClick(_) => "one-click POST",
            Method::Mailto { .. } => "unsubscribe email",
            Method::Browser(_) => "open in browser",
        }
    }
}

// ---------------------------------------------------------------------------
// percent decoding
// ---------------------------------------------------------------------------

/// The value of a hexadecimal digit.
pub open spec fn hex_value(b: u8) -> Option<u8> {
    if 48 <= b <= 57 {
        Some((b - 48) as u8)
    } else if 97 <= b <= 102 {
        Some((b - 87) as u8)
    } else if 65 <= b <= 70 {
        Some((b - 55) as u8)
    } else {
        None
    }
}

/// The number that two characters write in hexadecimal: two digits, or a plus
/// sign and one digit.
pub open spec fn hex_pair(a: u8, b: u8) -> Option<u8> {
    match (hex_value(a), hex_value(b)) {
        (Some(x), Some(y)) => Some((16 * x + y) as u8),
        (None, Some(y)) => if a == 43 {
            Some(y)
        } else {
            None
        },
        _ => None,
    }
}

/// Bytes with `%XY` written as the byte it stands for, and `+` as a space. A
/// `%` that no number follows stays.
pub open spec fn percent_decoded(b: Seq<u8>) -> Seq<u8>
    decreases b.len(),
{
    if b.len() == 0 {
        b
    } else if b[0] == 37 && b.len() > 2 && hex_pair(b[1], b[2]) is Some {
        seq![hex_pair(b[1], b[2])->0] + percent_decoded(b.skip(3))
    } else {
        seq![
            if b[0] == 43 {
                32
            } else {
                b[0]
            },
        ] + percent_decoded(b.skip(1))
    }
}

/// A URL-encoded text as the text it stands for; bytes that are not UTF-8
/// become replacement characters.
pub open spec fn urldecoded(s: Seq<char>) -> Seq<char> {
    utf8_lossy(percent_decoded(encode_utf8(s)))
}

/// No `%` is followed by a byte and then by a character that only ends
/// further on: the two bytes behind a `%` are whole characters.
pub open spec fn escapes_whole(s: Seq<char>) -> bool {
    let b = encode_utf8(s);
    forall|i: int| #![trigger b[i]]
        0 <= i && i + 3 < b.len() && b[i] == 37 ==> !(128 <= b[i + 3] < 192)
}

fn hex_digit(b: u8) -> (r: Option<u8>)
    ensures
        r == hex_value(b),
{
    if 48 <= b && b <= 57 {
        Some(b - 48)
    } else if 97 <= b && b <= 102 {
        Some(b - 87)
    } else if 65 <= b && b <= 70 {
        Some(b - 55)
    } else {
        None
    }
}

fn hex_byte(a: u8, b: u8) -> (r: Option<u8>)
    ensures
        r == hex_pair(a, b),
{
    match (hex_digit(a), hex_digit(b)) {
        (Some(x), Some(y)) => Some(16 * x + y),
        (None, Some(y)) => if a == 43 {
            Some(y)
        } else {
            None
        },
        _ => None,
    }
}

/// There is nothing to decode in these bytes: no `%` and no `+`.
pub open spec fn nothing_encoded(b: Seq<u8>) -> bool {
    forall|i: int| 0 <= i < b.len() ==> #[trigger] b[i] != 37 && b[i] != 43
}

proof fn lemma_nothing_encoded(b: Seq<u8>)
    requires
        nothing_encoded(b),
    ensures
        percent_decoded(b) == b,
    decreases b.len(),
{
    if b.len() > 0 {
        let rest = b.skip(1);
        assert(b[0] != 37 && b[0] != 43);
        assert forall|i: int| 0 <= i < rest.len() implies #[trigger] rest[i] != 37 && rest[i]
            != 43 by {
            assert(rest[i] == b[i + 1]);
        }
        lemma_nothing_encoded(rest);
        assert(seq![b[0]] + rest =~= b);
    }
}

/// Decode percent-encoded bytes.
pub fn percent_decode(bytes: &[u8]) -> (r: Vec<u8>)
    ensures
        r@ == percent_decoded(bytes@),
{
    let mut out: Vec<u8> = Vec::new();
    let mut i: usize = 0;
    assert(bytes@.skip(0) =~= bytes@);
    while i < bytes.len()
        invariant
            i <= bytes@.len(),
            out@ + percent_decoded(bytes@.skip(i as int)) == percent_decoded(bytes@),
        decreases bytes@.len() - i,
    {
        let ghost before = out@;
        let ghost rest = bytes@.skip(i as int);
        let b: u8 = bytes[i];
        assert(rest[0] == b);
        assert(rest.len() == bytes@.len() - i);
        if b == 37 && bytes.len() - i > 2 {
            assert(rest[1] == bytes@[i + 1] && rest[2] == bytes@[i + 2]);
            if let Some(v) = hex_byte(bytes[i + 1], bytes[i + 2]) {
                out.push(v);
                assert(rest.skip(3) =~= bytes@.skip(i + 3));
                assert(before + (seq![v] + percent_decoded(rest.skip(3))) =~= out@
                    + percent_decoded(rest.skip(3)));
                i += 3;
                continue;
            }
        }
        let v: u8 = if b == 43 {
            32
        } else {
            b
        };
        out.push(v);
        assert(rest.skip(1) =~= bytes@.skip(i + 1));
        assert(before + (seq![v] + percent_decoded(rest.skip(1))) =~= out@ + percent_decoded(
            rest.skip(1),
        ));
        i += 1;
    }
    assert(bytes@.skip(i as int) =~= Seq::<u8>::empty());
    assert(out@ =~= percent_decoded(bytes@));
    out
}

/// Decode a URL-encoded text.
pub fn urldecode(s: &str) -> (r: String)
    requires
        escapes_whole(s@),
    ensures
        r@ == urldecoded(s@),
{
    let out = percent_decode(s.as_bytes());
    from_utf8_lossy(out.as_slice())
}

/// A text in which nothing is encoded decodes to itself.
pub proof fn plain_text_decodes_to_itself(s: Seq<char>)
    requires
        nothing_encoded(encode_utf8(s)),
    ensures
        urldecoded(s) == s,
{
    lemma_nothing_encoded(encode_utf8(s));
    encode_utf8_valid_utf8(s);
    encode_utf8_decode_utf8(s);
}

// ---------------------------------------------------------------------------
// the List-Unsubscribe header
// ---------------------------------------------------------------------------

/// One entry of the header: the address between the angle brackets.
pub open spec fn entry_uri(part: Seq<char>) -> Seq<char> {
    trimmed(
        right_trimmed(
            left_trimmed(trimmed(part), Trimmed::Only('<')),
            Trimmed::Only('>'),
        ),
    )
}

/// A web address.
pub open spec fn is_web(uri: Seq<char>) -> bool {
    begins(uri, "https://"@) || begins(uri, "http://"@)
}

/// A mail address, and not a web address.
pub open spec fn is_mailto(uri: Seq<char>) -> bool {
    !is_web(uri) && begins(uri, "mailto:"@)
}

/// The entry is a parameter that sets the subject; its encoded value.
pub open spec fn subject_param(kv: Seq<char>) -> Option<Seq<char>> {
    match cut_at(kv, '=') {
        Some((k, v)) => if same_ignoring_case(k, "subject"@) {
            Some(v)
        } else {
            None
        },
        None => None,
    }
}

/// The subject that the parameters ask for: the last one that sets it, or
/// "unsubscribe".
pub open spec fn asked_subject(params: Seq<Seq<char>>) -> Seq<char>
    decreases params.len(),
{
    if params.len() == 0 {
        "unsubscribe"@
    } else {
        match subject_param(params.last()) {
            Some(v) => urldecoded(v),
            None => asked_subject(params.drop_last()),
        }
    }
}

/// What stands behind "mailto:": the address and the parameters.
pub open spec fn mail_parts(uri: Seq<char>) -> (Seq<char>, Seq<char>) {
    let rest = uri.skip("mailto:"@.len() as int);
    match cut_at(rest, '?') {
        Some((to, query)) => (to, query),
        None => (rest, Seq::empty()),
    }
}

/// The message that a mailto address asks for.
pub open spec fn mail_method(uri: Seq<char>) -> MethodV {
    let (to, query) = mail_parts(uri);
    MethodV::Mailto { to, subject: asked_subject(pieces(query, '&')) }
}

/// The first web address.
pub open spec fn first_web(parts: Seq<Seq<char>>) -> Option<Seq<char>>
    decreases parts.len(),
{
    if parts.len() == 0 {
        None
    } else {
        match first_web(parts.drop_last()) {
            Some(u) => Some(u),
            None => if is_web(entry_uri(parts.last())) {
                Some(entry_uri(parts.last()))
            } else {
                None
            },
        }
    }
}

/// The first mail address, as the message it asks for.
pub open spec fn first_mail(parts: Seq<Seq<char>>) -> Option<MethodV>
    decreases parts.len(),
{
    if parts.len() == 0 {
        None
    } else {
        match first_mail(parts.drop_last()) {
            Some(m) => Some(m),
            None => if is_mailto(entry_uri(parts.last())) {
                Some(mail_method(entry_uri(parts.last())))
            } else {
                None
            },
        }
    }
}

/// The method that a header offers: one click where the sender supports it,
/// then a mail, which needs no hand either, and a page in the browser last.
pub open spec fn method_in(header: Seq<char>, one_click: bool) -> Option<MethodV> {
    let parts = pieces(header, ',');
    match (first_web(parts), first_mail(parts)) {
        (Some(url), mail) => if one_click {
            Some(MethodV::OneClick(url))
        } else {
            match mail {
                Some(m) => Some(m),
                None => Some(MethodV::Browser(url)),
            }
        },
        (None, mail) => mail,
    }
}

/// The method that a message offers.
pub open spec fn method_of(m: MsgV) -> Option<MethodV> {
    match m.list_unsubscribe {
        Some(header) => method_in(header, m.one_click),
        None => None,
    }
}

/// Every subject that a mailto address sets has its escapes whole.
pub open spec fn mail_readable(uri: Seq<char>) -> bool {
    let params = pieces(mail_parts(uri).1, '&');
    forall|i: int|
        0 <= i < params.len() ==> match #[trigger] subject_param(params[i]) {
            Some(v) => escapes_whole(v),
            None => true,
        }
}

/// Every mailto address of the header can be read.
pub open spec fn header_readable(header: Seq<char>) -> bool {
    let parts = pieces(header, ',');
    forall|i: int|
        0 <= i < parts.len() ==> (is_mailto(entry_uri(#[trigger] parts[i])) ==> mail_readable(
            entry_uri(parts[i]),
        ))
}

/// The message's List-Unsubscribe header, if it has one, can be read.
pub open spec fn readable(m: MsgV) -> bool {
    match m.list_unsubscribe {
        Some(header) => header_readable(header),
        None => true,
    }
}

fn entry<'a>(part: &'a [char]) -> (r: &'a [char])
    ensures
        r@ == entry_uri(part@),
{
    trim(trim_end(trim_start(trim(part), Trimmed::Only('<')), Trimmed::Only('>')))
}

fn web(uri: &[char]) -> (r: bool)
    ensures
        r == is_web(uri@),
{
    let https = chars_of("https://");
    let http = chars_of("http://");
    starts_with(uri, https.as_slice()) || starts_with(uri, http.as_slice())
}

fn mailto(uri: &[char]) -> (r: bool)
    ensures
        r == begins(uri@, "mailto:"@),
{
    let scheme = chars_of("mailto:");
    starts_with(uri, scheme.as_slice())
}

fn subject_value<'a>(kv: &'a [char]) -> (r: Option<&'a [char]>)
    ensures
        match r {
            Some(v) => subject_param(kv@) == Some(v@),
            None => subject_param(kv@) is None,
        },
{
    match split_once(kv, '=') {
        Some((k, v)) => {
            let name = chars_of("subject");
            if eq_ignore_ascii_case(k, name.as_slice()) {
                Some(v)
            } else {
                None
            }
        },
        None => None,
    }
}

fn mail_split<'a>(uri: &'a [char]) -> (r: (&'a [char], Vec<Vec<char>>))
    requires
        begins(uri@, "mailto:"@),
    ensures
        r.0@ == mail_parts(uri@).0,
        r.1@.len() == pieces(mail_parts(uri@).1, '&').len(),
        forall|k: int|
            0 <= k < r.1@.len() ==> #[trigger] r.1@[k]@ == pieces(mail_parts(uri@).1, '&')[k],
{
    let scheme = chars_of("mailto:");
    let rest = slice_subrange(uri, scheme.len(), uri.len());
    assert(rest@ =~= uri@.skip("mailto:"@.len() as int));
    match split_once(rest, '?') {
        Some((to, query)) => (to, split(query, '&')),
        None => {
            let none: Vec<char> = Vec::new();
            assert(none@ =~= Seq::<char>::empty());
            (rest, split(none.as_slice(), '&'))
        },
    }
}

fn mail(uri: &[char]) -> (r: Method)
    requires
        begins(uri@, "mailto:"@),
        mail_readable(uri@),
    ensures
        r@ == mail_method(uri@),
{
    let (to, params) = mail_split(uri);
    let ghost all = pieces(mail_parts(uri@).1, '&');
    let mut subject = "unsubscribe".to_owned();
    let mut i: usize = 0;
    while i < params.len()
        invariant
            i <= params@.len(),
            params@.len() == all.len(),
            forall|k: int| 0 <= k < params@.len() ==> #[trigger] params@[k]@ == all[k],
            all == pieces(mail_parts(uri@).1, '&'),
            mail_readable(uri@),
            subject@ == asked_subject(all.take(i as int)),
        decreases params@.len() - i,
    {
        assert(params@[i as int]@ == all[i as int]);
        assert(all.take(i + 1).drop_last() =~= all.take(i as int));
        assert(all.take(i + 1).last() == all[i as int]);
        if let Some(v) = subject_value(params[i].as_slice()) {
            assert(subject_param(all[i as int]) == Some(v@));
            let text = string_of(v);
            subject = urldecode(text.as_str());
        }
        i += 1;
    }
    assert(all.take(i as int) =~= all);
    Method::Mailto { to: string_of(to), subject }
}

/// Can every mailto address of the message's header be read?
pub fn is_readable(msg: &MsgMeta) -> (r: bool)
    ensures
        r == readable(msg@),
{
    match &msg.list_unsubscribe {
        Some(header) => readable_header(header.as_str()),
        None => true,
    }
}

fn whole_escapes(s: &str) -> (r: bool)
    ensures
        r == escapes_whole(s@),
{
    let b = s.as_bytes();
    let mut i: usize = 0;
    while i < b.len()
        invariant
            i <= b@.len(),
            b@ == encode_utf8(s@),
            forall|j: int| #![trigger b@[j]]
                0 <= j < i && j + 3 < b@.len() && b@[j] == 37 ==> !(128 <= b@[j + 3] < 192),
        decreases b@.len() - i,
    {
        if b[i] == 37 && b.len() - i > 3 {
            let next: u8 = b[i + 3];
            if 128 <= next && next < 192 {
                assert(b@[i as int] == 37);
                return false;
            }
        }
        i += 1;
    }
    true
}

fn readable_mail(uri: &[char]) -> (r: bool)
    requires
        begins(uri@, "mailto:"@),
    ensures
        r == mail_readable(uri@),
{
    let (_to, params) = mail_split(uri);
    let ghost all = pieces(mail_parts(uri@).1, '&');
    let mut i: usize = 0;
    while i < params.len()
        invariant
            i <= params@.len(),
            params@.len() == all.len(),
            forall|k: int| 0 <= k < params@.len() ==> #[trigger] params@[k]@ == all[k],
            all == pieces(mail_parts(uri@).1, '&'),
            forall|j: int|
                0 <= j < i ==> match #[trigger] subject_param(all[j]) {
                    Some(v) => escapes_whole(v),
                    None => true,
                },
        decreases params@.len() - i,
    {
        assert(params@[i as int]@ == all[i as int]);
        if let Some(v) = subject_value(params[i].as_slice()) {
            let text = string_of(v);
            assert(subject_param(all[i as int]) == Some(v@));
            if !whole_escapes(text.as_str()) {
                return false;
            }
        }
        i += 1;
    }
    true
}

fn readable_header(header: &str) -> (r: bool)
    ensures
        r == header_readable(header@),
{
    let chars = chars_of(header);
    let parts = split(chars.as_slice(), ',');
    let ghost all = pieces(header@, ',');
    let mut i: usize = 0;
    while i < parts.len()
        invariant
            i <= parts@.len(),
            parts@.len() == all.len(),
            forall|k: int| 0 <= k < parts@.len() ==> #[trigger] parts@[k]@ == all[k],
            all == pieces(header@, ','),
            forall|j: int|
                0 <= j < i ==> (is_mailto(entry_uri(#[trigger] all[j])) ==> mail_readable(
                    entry_uri(all[j]),
                )),
        decreases parts@.len() - i,
    {
        assert(parts@[i as int]@ == all[i as int]);
        let uri = entry(parts[i].as_slice());
        if !web(uri) && mailto(uri) && !readable_mail(uri) {
            assert(is_mailto(entry_uri(all[i as int])));
            return false;
        }
        i += 1;
    }
    true
}

/// Pick the method that a List-Unsubscribe header offers: comma-separated
/// `<uri>` entries.
pub fn pick_method(msg: &MsgMeta) -> (r: Option<Method>)
    requires
        readable(msg@),
    ensures
        match r {
            Some(m) => method_of(msg@) == Some(m@),
            None => method_of(msg@) is None,
        },
        msg.list_unsubscribe is None ==> r is None,
        msg.list_unsubscribe matches Some(header) ==> {
            let parts = pieces(header@, ',');
            match r {
                Some(Method::OneClick(url)) => msg.one_click && exists|i: int| #[trigger]
                    first_web_entry(parts, i) && url@ == entry_uri(parts[i]),
                Some(Method::Browser(url)) => !msg.one_click && exists|i: int| #[trigger]
                    first_web_entry(parts, i) && url@ == entry_uri(parts[i]),
                Some(Method::Mailto { to, subject }) => {
                    &&& exists|i: int| #[trigger]
                        first_mail_entry(parts, i) && to@ == mail_parts(entry_uri(parts[i])).0
                            && subject@ == asked_subject(
                            pieces(mail_parts(entry_uri(parts[i])).1, '&'),
                        )
                    &&& msg.one_click ==> forall|i: int| !first_web_entry(parts, i)
                },
                None => forall|i: int| !first_web_entry(parts, i) && !first_mail_entry(parts, i),
            }
        },
{
    proof {
        if let Some(header) = msg@.list_unsubscribe {
            the_first_entry_is_used_whole(header, msg@.one_click);
        }
    }
    let header = match &msg.list_unsubscribe {
        Some(h) => h,
        None => return None,
    };
    let chars = chars_of(header.as_str());
    let parts = split(chars.as_slice(), ',');
    let ghost all = pieces(header@, ',');
    let mut https_url: Option<String> = None;
    let mut mail_to: Option<Method> = None;
    let mut i: usize = 0;
    while i < parts.len()
        invariant
            i <= parts@.len(),
            parts@.len() == all.len(),
            forall|k: int| 0 <= k < parts@.len() ==> #[trigger] parts@[k]@ == all[k],
            all == pieces(header@, ','),
            header_readable(header@),
            match https_url {
                Some(u) => first_web(all.take(i as int)) == Some(u@),
                None => first_web(all.take(i as int)) is None,
            },
            match mail_to {
                Some(m) => first_mail(all.take(i as int)) == Some(m@),
                None => first_mail(all.take(i as int)) is None,
            },
        decreases parts@.len() - i,
    {
        assert(parts@[i as int]@ == all[i as int]);
        assert(all.take(i + 1).drop_last() =~= all.take(i as int));
        assert(all.take(i + 1).last() == all[i as int]);
        let uri = entry(parts[i].as_slice());
        if web(uri) {
            if https_url.is_none() {
                https_url = Some(string_of(uri));
            }
        } else if mailto(uri) {
            assert(is_mailto(entry_uri(all[i as int])));
            let m = mail(uri);
            if mail_to.is_none() {
                mail_to = Some(m);
            }
        }
        i += 1;
    }
    assert(all.take(i as int) =~= all);
    match https_url {
        Some(url) => if msg.one_click {
            Some(Method::OneClick(url))
        } else {
            // prefer mailto over browser: fully automatic
            match mail_to {
                Some(m) => Some(m),
                None => Some(Method::Browser(url)),
            }
        },
        None => mail_to,
    }
}

/// The header has a web address.
pub open spec fn any_web(parts: Seq<Seq<char>>) -> bool {
    exists|i: int| 0 <= i < parts.len() && is_web(entry_uri(#[trigger] parts[i]))
}

/// The header has a mail address.
pub open spec fn any_mail(parts: Seq<Seq<char>>) -> bool {
    exists|i: int| 0 <= i < parts.len() && is_mailto(entry_uri(#[trigger] parts[i]))
}

proof fn lemma_first(parts: Seq<Seq<char>>)
    ensures
        first_web(parts) is Some == any_web(parts),
        first_mail(parts) is Some == any_mail(parts),
        first_mail(parts) matches Some(m) ==> m is Mailto,
    decreases parts.len(),
{
    if parts.len() > 0 {
        let front = parts.drop_last();
        lemma_first(front);
        if any_web(front) {
            let i = choose|i: int| 0 <= i < front.len() && is_web(entry_uri(#[trigger] front[i]));
            assert(is_web(entry_uri(parts[i])));
        }
        if any_mail(front) {
            let i = choose|i: int|
                0 <= i < front.len() && is_mailto(entry_uri(#[trigger] front[i]));
            assert(is_mailto(entry_uri(parts[i])));
        }
        assert(parts[parts.len() - 1] == parts.last());
        if any_web(parts) && !is_web(entry_uri(parts.last())) {
            let i = choose|i: int| 0 <= i < parts.len() && is_web(entry_uri(#[trigger] parts[i]));
            assert(front[i] == parts[i]);
        }
        if any_mail(parts) && !is_mailto(entry_uri(parts.last())) {
            let i = choose|i: int|
                0 <= i < parts.len() && is_mailto(entry_uri(#[trigger] parts[i]));
            assert(front[i] == parts[i]);
        }
    }
}

/// A header offers a method exactly when one of its entries is a web or a mail
/// address. One click is used whenever the sender supports it and gave a web
/// address; otherwise a mail address wins over a web address, and the browser
/// is the last resort.
pub proof fn the_least_work_is_picked(header: Seq<char>, one_click: bool)
    ensures
        ({
            let parts = pieces(header, ',');
            let m = method_in(header, one_click);
            &&& m is Some <==> any_web(parts) || any_mail(parts)
            &&& (m matches Some(MethodV::OneClick(_))) <==> one_click && any_web(parts)
            &&& (m matches Some(MethodV::Mailto { .. })) <==> any_mail(parts) && !(one_click
                && any_web(parts))
            &&& (m matches Some(MethodV::Browser(_))) <==> any_web(parts) && !one_click
                && !any_mail(parts)
        }),
{
    lemma_first(pieces(header, ','));
}

proof fn lemma_left_trimmed(a: Seq<char>, b: Seq<char>, k: Trimmed)
    requires
        forall|i: int| 0 <= i < a.len() ==> trims(k, #[trigger] a[i]),
        b.len() > 0 ==> !trims(k, b[0]),
    ensures
        left_trimmed(a + b, k) == b,
    decreases a.len(),
{
    let s = a + b;
    if a.len() == 0 {
        assert(s =~= b);
    } else {
        assert(trims(k, a[0]));
        let rest = a.skip(1);
        assert forall|i: int| 0 <= i < rest.len() implies trims(k, #[trigger] rest[i]) by {
            assert(rest[i] == a[i + 1]);
        }
        lemma_left_trimmed(rest, b, k);
        assert(s.skip(1) =~= rest + b);
    }
}

proof fn lemma_right_trimmed(a: Seq<char>, b: Seq<char>, k: Trimmed)
    requires
        forall|i: int| 0 <= i < b.len() ==> trims(k, #[trigger] b[i]),
        a.len() > 0 ==> !trims(k, a.last()),
    ensures
        right_trimmed(a + b, k) == a,
    decreases b.len(),
{
    let s = a + b;
    if b.len() == 0 {
        assert(s =~= a);
    } else {
        let front = b.drop_last();
        assert(trims(k, b[b.len() - 1]));
        assert forall|i: int| 0 <= i < front.len() implies trims(k, #[trigger] front[i]) by {
            assert(front[i] == b[i]);
        }
        lemma_right_trimmed(a, front, k);
        assert(s.drop_last() =~= a + front);
    }
}

proof fn lemma_trimmed(a: Seq<char>, u: Seq<char>, b: Seq<char>)
    requires
        forall|i: int| 0 <= i < a.len() ==> is_white(#[trigger] a[i]),
        forall|i: int| 0 <= i < b.len() ==> is_white(#[trigger] b[i]),
        u.len() > 0,
        !is_white(u[0]) && !is_white(u.last()),
    ensures
        trimmed(a + u + b) == u,
{
    assert(a + u + b =~= a + (u + b));
    assert forall|i: int| 0 <= i < a.len() implies trims(Trimmed::White, #[trigger] a[i]) by {
        assert(is_white(a[i]));
    }
    assert forall|i: int| 0 <= i < b.len() implies trims(Trimmed::White, #[trigger] b[i]) by {
        assert(is_white(b[i]));
    }
    lemma_left_trimmed(a, u + b, Trimmed::White);
    lemma_right_trimmed(u, b, Trimmed::White);
}

/// The address of an entry is, character for character, what stands between
/// the angle brackets; white space around them and inside of them does not
/// count, and an entry without brackets is taken as it is.
pub proof fn an_entry_is_what_the_brackets_hold(
    a: Seq<char>,
    c: Seq<char>,
    u: Seq<char>,
    d: Seq<char>,
    b: Seq<char>,
)
    requires
        forall|i: int| 0 <= i < a.len() ==> is_white(#[trigger] a[i]),
        forall|i: int| 0 <= i < b.len() ==> is_white(#[trigger] b[i]),
        forall|i: int| 0 <= i < c.len() ==> is_white(#[trigger] c[i]),
        forall|i: int| 0 <= i < d.len() ==> is_white(#[trigger] d[i]),
        u.len() > 0,
        !is_white(u[0]) && u[0] != '<',
        !is_white(u.last()) && u.last() != '>',
    ensures
        entry_uri(a + seq!['<'] + c + u + d + seq!['>'] + b) == u,
        entry_uri(a + u + b) == u,
{
    let none = Seq::<char>::empty();
    let held = c + u + d;
    let inner = seq!['<'] + held + seq!['>'];
    assert(a + seq!['<'] + c + u + d + seq!['>'] + b =~= a + inner + b);
    assert(inner[0] == '<' && inner.last() == '>');
    lemma_trimmed(a, inner, b);
    assert(inner =~= seq!['<'] + (held + seq!['>']));
    assert(held[0] != '<') by {
        if c.len() > 0 {
            assert(held[0] == c[0] && is_white(c[0]));
        } else {
            assert(held[0] == u[0]);
        }
    }
    assert(held.last() != '>') by {
        if d.len() > 0 {
            assert(held.last() == d[d.len() - 1] && is_white(d[d.len() - 1]));
        } else {
            assert(held.last() == u.last());
        }
    }
    lemma_left_trimmed(seq!['<'], held + seq!['>'], Trimmed::Only('<'));
    lemma_right_trimmed(held, seq!['>'], Trimmed::Only('>'));
    lemma_trimmed(c, u, d);
    lemma_trimmed(none, u, none);
    assert(none + u + none =~= u);
    lemma_trimmed(a, u, b);
    assert(none + u =~= u);
    lemma_left_trimmed(none, u, Trimmed::Only('<'));
    assert(u + none =~= u);
    lemma_right_trimmed(u, none, Trimmed::Only('>'));
}

/// The entry at this place is a web address, and none before it is.
pub open spec fn first_web_entry(parts: Seq<Seq<char>>, i: int) -> bool {
    &&& 0 <= i < parts.len()
    &&& begins(entry_uri(parts[i]), "https://"@) || begins(entry_uri(parts[i]), "http://"@)
    &&& forall|j: int|
        0 <= j < i ==> !begins(entry_uri(#[trigger] parts[j]), "https://"@) && !begins(
            entry_uri(parts[j]),
            "http://"@,
        )
}

/// The entry at this place is a mail address, and none before it is.
pub open spec fn first_mail_entry(parts: Seq<Seq<char>>, i: int) -> bool {
    &&& 0 <= i < parts.len()
    &&& begins(entry_uri(parts[i]), "mailto:"@)
    &&& forall|j: int| 0 <= j < i ==> !begins(entry_uri(#[trigger] parts[j]), "mailto:"@)
}

proof fn lemma_schemes_differ(uri: Seq<char>)
    requires
        begins(uri, "mailto:"@),
    ensures
        !is_web(uri),
{
    reveal_strlit("mailto:");
    reveal_strlit("https://");
    reveal_strlit("http://");
    assert(uri.take(7)[0] == 'm');
    if begins(uri, "https://"@) {
        assert(uri.take(8)[0] == 'h');
    }
    if begins(uri, "http://"@) {
        assert(uri.take(7)[0] == 'h');
    }
}

proof fn lemma_first_web(parts: Seq<Seq<char>>, i: int)
    requires
        first_web_entry(parts, i),
    ensures
        first_web(parts) == Some(entry_uri(parts[i])),
    decreases parts.len(),
{
    let front = parts.drop_last();
    lemma_first(front);
    if i < front.len() {
        assert(front[i] == parts[i]);
        assert forall|j: int| 0 <= j < i implies !begins(
            entry_uri(#[trigger] front[j]),
            "https://"@,
        ) && !begins(entry_uri(front[j]), "http://"@) by {
            assert(front[j] == parts[j]);
        }
        lemma_first_web(front, i);
    } else {
        if any_web(front) {
            let j = choose|j: int| 0 <= j < front.len() && is_web(entry_uri(#[trigger] front[j]));
            assert(front[j] == parts[j]);
        }
    }
}

proof fn lemma_first_mail(parts: Seq<Seq<char>>, i: int)
    requires
        first_mail_entry(parts, i),
    ensures
        first_mail(parts) == Some(mail_method(entry_uri(parts[i]))),
    decreases parts.len(),
{
    let front = parts.drop_last();
    lemma_first(front);
    lemma_schemes_differ(entry_uri(parts[i]));
    if i < front.len() {
        assert(front[i] == parts[i]);
        assert forall|j: int| 0 <= j < i implies !begins(
            entry_uri(#[trigger] front[j]),
            "mailto:"@,
        ) by {
            assert(front[j] == parts[j]);
        }
        lemma_first_mail(front, i);
    } else {
        if any_mail(front) {
            let j = choose|j: int|
                0 <= j < front.len() && is_mailto(entry_uri(#[trigger] front[j]));
            assert(front[j] == parts[j]);
        }
    }
}

proof fn lemma_some_first(parts: Seq<Seq<char>>)
    ensures
        any_web(parts) ==> exists|i: int| first_web_entry(parts, i),
        any_mail(parts) ==> exists|i: int| first_mail_entry(parts, i),
    decreases parts.len(),
{
    if parts.len() > 0 {
        let front = parts.drop_last();
        let n = parts.len() - 1;
        lemma_some_first(front);
        lemma_first(front);
        if any_web(parts) {
            if any_web(front) {
                let i = choose|i: int| first_web_entry(front, i);
                assert(front[i] == parts[i]);
                assert forall|j: int| 0 <= j < i implies !begins(
                    entry_uri(#[trigger] parts[j]),
                    "https://"@,
                ) && !begins(entry_uri(parts[j]), "http://"@) by {
                    assert(front[j] == parts[j]);
                }
                assert(first_web_entry(parts, i));
            } else {
                let i = choose|i: int|
                    0 <= i < parts.len() && is_web(entry_uri(#[trigger] parts[i]));
                if i < n {
                    assert(is_web(entry_uri(front[i])));
                }
                assert forall|j: int| 0 <= j < n implies !begins(
                    entry_uri(#[trigger] parts[j]),
                    "https://"@,
                ) && !begins(entry_uri(parts[j]), "http://"@) by {
                    assert(!is_web(entry_uri(front[j])));
                }
                assert(first_web_entry(parts, n));
            }
        }
        if any_mail(parts) {
            if any_mail(front) {
                let i = choose|i: int| first_mail_entry(front, i);
                assert(front[i] == parts[i]);
                assert forall|j: int| 0 <= j < i implies !begins(
                    entry_uri(#[trigger] parts[j]),
                    "mailto:"@,
                ) by {
                    assert(front[j] == parts[j]);
                }
                assert(first_mail_entry(parts, i));
            } else {
                let i = choose|i: int|
                    0 <= i < parts.len() && is_mailto(entry_uri(#[trigger] parts[i]));
                if i < n {
                    assert(is_mailto(entry_uri(front[i])));
                }
                assert forall|j: int| 0 <= j < n implies !begins(
                    entry_uri(#[trigger] parts[j]),
                    "mailto:"@,
                ) by {
                    if begins(entry_uri(parts[j]), "mailto:"@) {
                        lemma_schemes_differ(entry_uri(parts[j]));
                        assert(is_mailto(entry_uri(front[j])));
                    }
                }
                assert(first_mail_entry(parts, n));
            }
        }
    }
}

/// The link that is posted to or opened is the first web entry of the header,
/// character for character; the mail that is sent is the one that the first
/// mail entry asks for, and where one click is on offer a mail is sent only for
/// want of a web entry.
pub proof fn the_first_entry_is_used_whole(header: Seq<char>, one_click: bool)
    ensures
        ({
            let parts = pieces(header, ',');
            match method_in(header, one_click) {
                Some(MethodV::OneClick(url)) => one_click && exists|i: int| #[trigger]
                    first_web_entry(parts, i) && url == entry_uri(parts[i]),
                Some(MethodV::Browser(url)) => !one_click && exists|i: int| #[trigger]
                    first_web_entry(parts, i) && url == entry_uri(parts[i]),
                Some(mail) => {
                    &&& exists|i: int| #[trigger]
                        first_mail_entry(parts, i) && mail == mail_method(entry_uri(parts[i]))
                    &&& one_click ==> forall|i: int| !first_web_entry(parts, i)
                },
                None => forall|i: int| !first_web_entry(parts, i) && !first_mail_entry(parts, i),
            }
        }),
{
    let parts = pieces(header, ',');
    lemma_first(parts);
    lemma_some_first(parts);
    if any_web(parts) {
        let i = choose|i: int| first_web_entry(parts, i);
        lemma_first_web(parts, i);
    }
    if any_mail(parts) {
        let i = choose|i: int| first_mail_entry(parts, i);
        lemma_first_mail(parts, i);
    }
    assert forall|i: int| first_web_entry(parts, i) implies any_web(parts) by {
        assert(is_web(entry_uri(parts[i])));
    }
    assert forall|i: int| first_mail_entry(parts, i) implies any_mail(parts) by {
        lemma_schemes_differ(entry_uri(parts[i]));
        assert(is_mailto(entry_uri(parts[i])));
    }
}

/// A mail goes to the whole address behind "mailto:", up to the question mark
/// where there is one.
pub proof fn a_mail_goes_to_the_address_given(to: Seq<char>, query: Seq<char>)
    requires
        !to.contains('?'),
    ensures
        mail_method("mailto:"@ + to) matches MethodV::Mailto { to: t, subject } && t == to
            && subject == "unsubscribe"@,
        mail_method("mailto:"@ + to + seq!['?'] + query) matches MethodV::Mailto {
            to: t,
            subject,
        } && t == to && subject == asked_subject(pieces(query, '&')),
{
    let scheme = "mailto:"@;
    let plain = scheme + to;
    let full = scheme + to + seq!['?'] + query;
    assert(plain.skip(scheme.len() as int) =~= to);
    lemma_index_of(to, '?', to.len() as int);
    let rest = full.skip(scheme.len() as int);
    assert(rest =~= to + seq!['?'] + query);
    assert(rest[to.len() as int] == '?');
    assert forall|j: int| 0 <= j < to.len() implies rest[j] != '?' by {
        assert(rest[j] == to[j]);
    }
    lemma_index_of(rest, '?', to.len() as int);
    assert(rest.take(to.len() as int) =~= to);
    assert(rest.skip(to.len() as int + 1) =~= query);
    let none = pieces(Seq::<char>::empty(), '&');
    assert(none.len() == 1 && none[0] =~= Seq::<char>::empty());
    lemma_index_of(none[0], '=', 0);
    assert(none.last() == none[0]);
    assert(subject_param(none.last()) is None);
    assert(none.drop_last() =~= Seq::<Seq<char>>::empty());
    reveal_with_fuel(asked_subject, 2);
}

/// A parameter sets the subject exactly when it has "subject", in whatever
/// case, before its first equals sign; what it sets is all that stands behind.
pub proof fn a_subject_is_set_by_name(k: Seq<char>, v: Seq<char>)
    requires
        !k.contains('='),
    ensures
        subject_param(k + seq!['='] + v) == (if same_ignoring_case(k, "subject"@) {
            Some(v)
        } else {
            None
        }),
        subject_param(k) is None,
{
    let kv = k + seq!['='] + v;
    assert(kv[k.len() as int] == '=');
    assert forall|j: int| 0 <= j < k.len() implies kv[j] != '=' by {
        assert(kv[j] == k[j]);
    }
    lemma_index_of(kv, '=', k.len() as int);
    assert(kv.take(k.len() as int) =~= k);
    assert(kv.skip(k.len() as int + 1) =~= v);
    lemma_index_of(k, '=', k.len() as int);
}

/// The last parameter that sets the subject counts; where none does, the
/// subject is "unsubscribe".
pub proof fn the_last_subject_counts(params: Seq<Seq<char>>, i: int)
    requires
        -1 <= i < params.len(),
        i >= 0 ==> subject_param(params[i]) is Some,
        forall|j: int| i < j < params.len() ==> subject_param(#[trigger] params[j]) is None,
    ensures
        i >= 0 ==> asked_subject(params) == urldecoded(subject_param(params[i])->0),
        i < 0 ==> asked_subject(params) == "unsubscribe"@,
    decreases params.len(),
{
    if params.len() > 0 && i < params.len() - 1 {
        let front = params.drop_last();
        assert(subject_param(params[params.len() - 1]) is None);
        assert forall|j: int| i < j < front.len() implies subject_param(
            #[trigger] front[j],
        ) is None by {
            assert(front[j] == params[j]);
        }
        the_last_subject_counts(front, i);
    }
}

/// The hexadecimal digit for a number below sixteen.
pub open spec fn hex_written(n: u8) -> u8 {
    if n < 10 {
        (48 + n) as u8
    } else {
        (55 + n) as u8
    }
}

/// Bytes with every byte written as a `%` and two hexadecimal digits.
pub open spec fn percent_encoded(b: Seq<u8>) -> Seq<u8>
    decreases b.len(),
{
    if b.len() == 0 {
        b
    } else {
        seq![37u8, hex_written((b[0] / 16) as u8), hex_written((b[0] % 16) as u8)]
            + percent_encoded(b.skip(1))
    }
}

/// What is percent-encoded decodes to what it was, whatever the bytes.
pub proof fn what_is_encoded_is_decoded(b: Seq<u8>)
    ensures
        percent_decoded(percent_encoded(b)) == b,
    decreases b.len(),
{
    if b.len() > 0 {
        let e = percent_encoded(b);
        let rest = percent_encoded(b.skip(1));
        what_is_encoded_is_decoded(b.skip(1));
        assert(e.skip(3) =~= rest);
        assert(hex_pair(e[1], e[2]) == Some(b[0]));
        assert(seq![b[0]] + b.skip(1) =~= b);
    }
}

/// The byte is the hexadecimal digit for the number, in either case.
pub open spec fn is_digit_for(h: u8, n: u8) -> bool {
    (n < 10 && h == 48 + n) || (10 <= n < 16 && (h == 55 + n || h == 87 + n))
}

/// A `%` with two hexadecimal digits behind it, in whatever case, is the byte
/// they write; a plus sign in place of the first stands for none. What comes
/// behind is decoded by itself.
pub proof fn an_escape_is_the_byte_it_writes(h: u8, l: u8, x: u8, y: u8, rest: Seq<u8>)
    requires
        is_digit_for(l, y),
    ensures
        is_digit_for(h, x) ==> percent_decoded(seq![37u8, h, l] + rest) == seq![(16 * x + y) as u8]
            + percent_decoded(rest),
        h == 43 ==> percent_decoded(seq![37u8, h, l] + rest) == seq![y] + percent_decoded(rest),
{
    let all = seq![37u8, h, l] + rest;
    assert(all[0] == 37 && all[1] == h && all[2] == l);
    assert(all.skip(3) =~= rest);
    assert(hex_value(l) == Some(y));
    if is_digit_for(h, x) {
        assert(hex_value(h) == Some(x));
    }
}

/// A plus sign stands for a space, a byte that is neither that nor `%` for
/// itself, and so does a `%` that no two digits follow; what comes behind is
/// decoded by itself.
pub proof fn other_bytes_stand_for_themselves(b: u8, rest: Seq<u8>)
    ensures
        b == 43 ==> percent_decoded(seq![b] + rest) == seq![32u8] + percent_decoded(rest),
        b != 43 && b != 37 ==> percent_decoded(seq![b] + rest) == seq![b] + percent_decoded(rest),
        b == 37 && (rest.len() < 2 || (forall|n: u8| !is_digit_for(rest[1], n)) || (rest[0] != 43
            && forall|n: u8| !is_digit_for(rest[0], n))) ==> percent_decoded(seq![b] + rest)
            == seq![b] + percent_decoded(rest),
{
    let all = seq![b] + rest;
    assert(all.skip(1) =~= rest);
    if rest.len() >= 2 {
        assert(all[1] == rest[0] && all[2] == rest[1]);
        if let Some(n) = hex_value(rest[0]) {
            assert(is_digit_for(rest[0], n));
        }
        if let Some(n) = hex_value(rest[1]) {
            assert(is_digit_for(rest[1], n));
        }
    }
}

// ---------------------------------------------------------------------------
// carrying a method out
// ---------------------------------------------------------------------------

pub const USER_AGENT: &'static str = "mailstack/0.1";

pub const POST_TIMEOUT_SECS: u64 = 15;

pub const POST_CONTENT_TYPE: &'static str = "application/x-www-form-urlencoded";

pub const POST_BODY: &'static str = "List-Unsubscribe=One-Click";

pub const MAIL_BODY: &'static str = "unsubscribe";

/// What has to be done to unsubscribe.
#[derive(Debug, Clone)]
pub enum Request {
    /// an HTTP POST of `POST_BODY`
    Post { url: String },
    /// a mail with `MAIL_BODY` in it, sent as the account's owner
    Mail {
        from: String,
        to: String,
        subject: String,
        smtp_host: String,
        password: String,
    },
    /// a page for the browser
    Open { url: String },
}

/// Where an attempt failed.
#[derive(Debug, Clone, Copy, PartialEq, Eq, Structural)]
pub enum Stage {
    /// before anything was addressed
    Setup,
    /// the address to write to is none
    Recipient,
    /// while sending, posting or opening
    Delivery,
}

/// What came of a request.
#[derive(Debug, Clone)]
pub enum Reply {
    /// the server's answer to a POST: the status code, and how it reads
    Status { code: u16, text: String },
    /// the mail was taken, the page was opened
    Done,
    Failed { stage: Stage, why: String },
}

/// What has to be done to carry a method out.
pub fn request(method: &Method, account: &AccountConfig, password: &str) -> (r: Request)
    ensures
        match (method@, r) {
            (MethodV::OneClick(u), Request::Post { url }) => url@ == u,
            (
                MethodV::Mailto { to: t, subject: s },
                Request::Mail { from, to, subject, smtp_host, password: p },
            ) => {
                &&& from@ == account@.email
                &&& to@ == t
                &&& subject@ == s
                &&& smtp_host@ == account@.smtp_host
                &&& p@ == password@
            },
            (MethodV::Browser(u), Request::Open { url }) => url@ == u,
            _ => false,
        },
{
    match method {
        Method::OneClick(url) => Request::Post { url: url.clone() },
        Method::Mailto { to, subject } => Request::Mail {
            from: account.email.clone(),
            to: to.clone(),
            subject: subject.clone(),
            smtp_host: account.smtp_host.clone(),
            password: password.to_owned(),
        },
        Method::Browser(url) => Request::Open { url: url.clone() },
    }
}

/// The error that a failure is reported as.
pub open spec fn failure_text(method: MethodV, stage: Stage, why: Seq<char>) -> Seq<char> {
    match (stage, method) {
        (Stage::Delivery, MethodV::OneClick(url)) => "POST "@ + url + ": "@ + why,
        (Stage::Delivery, MethodV::Mailto { .. }) => "sending unsubscribe email: "@ + why,
        (Stage::Delivery, MethodV::Browser(url)) => "opening "@ + url + ": "@ + why,
        (Stage::Recipient, MethodV::Mailto { to, .. }) => "bad mailto address "@ + to + ": "@ + why,
        _ => why,
    }
}

/// The reply is one that the method's request can get: a POST is answered
/// with a status, a mail or a page is not.
pub open spec fn answers(method: MethodV, reply: Reply) -> bool {
    match reply {
        Reply::Status { .. } => method is OneClick,
        Reply::Done => !(method is OneClick),
        Reply::Failed { .. } => true,
    }
}

/// What a reply means: a status from 200 to 299 is a success, any other is
/// not; a failure says what was being done.
pub open spec fn outcome_text(method: MethodV, reply: Reply) -> Result<Seq<char>, Seq<char>> {
    match reply {
        Reply::Status { code, text } => if 200 <= code <= 299 {
            Ok("unsubscribed (one-click, HTTP "@ + text@ + ")"@)
        } else {
            Err("one-click POST returned HTTP "@ + text@)
        },
        Reply::Done => match method {
            MethodV::Mailto { to, .. } => Ok("unsubscribe email sent to "@ + to),
            _ => Ok("opened unsubscribe page in browser"@),
        },
        Reply::Failed { stage, why } => Err(failure_text(method, stage, why@)),
    }
}

fn joined(a: &str, b: &str, c: &str) -> (r: String)
    ensures
        r@ == a@ + b@ + c@,
{
    let mut out = a.to_owned();
    out.append(b);
    out.append(c);
    out
}

fn failure(method: &Method, stage: Stage, why: String) -> (r: String)
    ensures
        r@ == failure_text(method@, stage, why@),
{
    match (stage, method) {
        (Stage::Delivery, Method::OneClick(url)) => {
            let mut out = joined("POST ", url.as_str(), ": ");
            out.append(why.as_str());
            out
        },
        (Stage::Delivery, Method::Mailto { .. }) => {
            let mut out = "sending unsubscribe email: ".to_owned();
            out.append(why.as_str());
            out
        },
        (Stage::Delivery, Method::Browser(url)) => {
            let mut out = joined("opening ", url.as_str(), ": ");
            out.append(why.as_str());
            out
        },
        (Stage::Recipient, Method::Mailto { to, .. }) => {
            let mut out = joined("bad mailto address ", to.as_str(), ": ");
            out.append(why.as_str());
            out
        },
        _ => why,
    }
}

/// Read a reply: what the user is told of a success, or of a failure.
pub fn conclude(method: &Method, reply: Reply) -> (r: Result<String, String>)
    requires
        answers(method@, reply),
    ensures
        match (r, outcome_text(method@, reply)) {
            (Ok(s), Ok(t)) => s@ == t,
            (Err(s), Err(t)) => s@ == t,
            _ => false,
        },
{
    match reply {
        Reply::Status { code, text } => if 200 <= code && code <= 299 {
            Ok(joined("unsubscribed (one-click, HTTP ", text.as_str(), ")"))
        } else {
            let mut out = "one-click POST returned HTTP ".to_owned();
            out.append(text.as_str());
            Err(out)
        },
        Reply::Done => match method {
            Method::Mailto { to, .. } => {
                let mut out = "unsubscribe email sent to ".to_owned();
                out.append(to.as_str());
                Ok(out)
            },
            _ => Ok("opened unsubscribe page in browser".to_owned()),
        },
        Reply::Failed { stage, why } => Err(failure(method, stage, why)),
    }
}

/// A POST succeeded exactly when its status is one of the 200s, a mail or a
/// page when it went out, and a failure never does. The status is told as the
/// server put it, a mail's receiver by address, and a failure ends with what
/// went wrong.
pub proof fn a_reply_is_told_for_what_it_is(method: MethodV, reply: Reply)
    requires
        answers(method, reply),
    ensures
        ({
            let told = outcome_text(method, reply);
            match reply {
                Reply::Status { code, text } => {
                    &&& told is Ok <==> 200 <= code < 300
                    &&& told matches Ok(s) ==> occurs(s, text@)
                    &&& told matches Err(s) ==> occurs(s, text@)
                },
                Reply::Done => told matches Ok(s) && (method matches MethodV::Mailto { to, .. }
                    ==> occurs(s, to)),
                Reply::Failed { why, .. } => told matches Err(s) && exists|head: Seq<char>|
                    s == #[trigger] (head + why@),
            }
        }),
{
    match reply {
        Reply::Status { code, text } => {
            to_occur_is_to_stand_somewhere(outcome_text(method, reply)->Ok_0, text@);
            to_occur_is_to_stand_somewhere(outcome_text(method, reply)->Err_0, text@);
            let bad = "one-click POST returned HTTP "@;
            assert(bad + text@ =~= bad + text@ + Seq::<char>::empty());
        },
        Reply::Done => {
            if let MethodV::Mailto { to, .. } = method {
                let sent = "unsubscribe email sent to "@;
                to_occur_is_to_stand_somewhere(sent + to, to);
                assert(sent + to =~= sent + to + Seq::<char>::empty());
            }
        },
        Reply::Failed { stage, why } => {
            let none = Seq::<char>::empty();
            assert(none + why@ =~= why@);
        },
    }
}

/// All of these characters stand in the text.
spec fn drawn_from(part: Seq<char>, s: Seq<char>) -> bool {
    forall|i: int| 0 <= i < part.len() ==> s.contains(#[trigger] part[i])
}

proof fn lemma_drawn_through(a: Seq<char>, b: Seq<char>, c: Seq<char>)
    requires
        drawn_from(a, b),
        drawn_from(b, c),
    ensures
        drawn_from(a, c),
{
    assert forall|i: int| 0 <= i < a.len() implies c.contains(#[trigger] a[i]) by {
        assert(b.contains(a[i]));
        let j = choose|j: int| 0 <= j < b.len() && b[j] == a[i];
        assert(c.contains(b[j]));
    }
}

proof fn lemma_pieces_drawn(s: Seq<char>, sep: char, k: int)
    requires
        0 <= k < pieces(s, sep).len(),
    ensures
        drawn_from(pieces(s, sep)[k], s),
    decreases s.len(),
{
    if s.len() > 0 {
        let front = s.drop_last();
        let before = pieces(front, sep);
        let part = pieces(s, sep)[k];
        assert(drawn_from(front, s)) by {
            assert forall|i: int| 0 <= i < front.len() implies s.contains(#[trigger] front[i]) by {
                assert(s[i] == front[i]);
            }
        }
        assert(s.contains(s[s.len() - 1]));
        pieces_make_the_text(front, sep);
        if k < before.len() {
            lemma_pieces_drawn(front, sep, k);
            lemma_drawn_through(before[k], front, s);
        }
        assert forall|i: int| 0 <= i < part.len() implies s.contains(#[trigger] part[i]) by {
            if k < before.len() && i < before[k].len() {
                assert(part[i] == before[k][i]);
            }
        }
    }
}

proof fn lemma_entry_drawn(part: Seq<char>)
    ensures
        drawn_from(entry_uri(part), part),
{
    let a = trimmed(part);
    let b = left_trimmed(a, Trimmed::Only('<'));
    let c = right_trimmed(b, Trimmed::Only('>'));
    let d = trimmed(c);
    lemma_trimmed_drawn(part);
    lemma_trimmed_drawn(c);
    a_trim_stops_at_the_first_to_stay(a, Trimmed::Only('<'));
    a_trim_stops_at_the_first_to_stay(b, Trimmed::Only('>'));
    let n = a.len() - b.len();
    assert forall|i: int| 0 <= i < b.len() implies a.contains(#[trigger] b[i]) by {
        assert(a[i + n] == b[i]);
    }
    assert forall|i: int| 0 <= i < c.len() implies b.contains(#[trigger] c[i]) by {
        assert(b[i] == c[i]);
    }
    lemma_drawn_through(d, c, b);
    lemma_drawn_through(d, b, a);
    lemma_drawn_through(d, a, part);
}

proof fn lemma_trimmed_drawn(s: Seq<char>)
    ensures
        drawn_from(trimmed(s), s),
{
    let l = left_trimmed(s, Trimmed::White);
    let r = trimmed(s);
    a_trim_stops_at_the_first_to_stay(s, Trimmed::White);
    a_trim_stops_at_the_first_to_stay(l, Trimmed::White);
    let n = s.len() - l.len();
    assert forall|i: int| 0 <= i < r.len() implies s.contains(#[trigger] r[i]) by {
        assert(s[i + n] == r[i]);
    }
}

proof fn lemma_cut_drawn(s: Seq<char>, c: char)
    ensures
        cut_at(s, c) matches Some((a, b)) ==> drawn_from(a, s) && drawn_from(b, s),
{
    a_cut_is_at_the_first(s, c);
    if let Some((a, b)) = cut_at(s, c) {
        assert forall|i: int| 0 <= i < a.len() implies s.contains(#[trigger] a[i]) by {
            assert(s[i] == a[i]);
        }
        assert forall|i: int| 0 <= i < b.len() implies s.contains(#[trigger] b[i]) by {
            assert(s[i + a.len() + 1] == b[i]);
        }
    }
}

proof fn lemma_header_readable(header: Seq<char>)
    requires
        forall|v: Seq<char>| #[trigger] drawn_from(v, header) ==> escapes_whole(v),
    ensures
        header_readable(header),
{
    let parts = pieces(header, ',');
    assert forall|i: int|
        0 <= i < parts.len() && is_mailto(entry_uri(#[trigger] parts[i])) implies mail_readable(
        entry_uri(parts[i]),
    ) by {
        let uri = entry_uri(parts[i]);
        lemma_pieces_drawn(header, ',', i);
        lemma_entry_drawn(parts[i]);
        lemma_drawn_through(uri, parts[i], header);
        let rest = uri.skip("mailto:"@.len() as int);
        let query = mail_parts(uri).1;
        assert forall|j: int| 0 <= j < rest.len() implies uri.contains(#[trigger] rest[j]) by {
            assert(uri[j + "mailto:"@.len()] == rest[j]);
        }
        lemma_cut_drawn(rest, '?');
        assert(drawn_from(query, rest));
        lemma_drawn_through(query, rest, uri);
        lemma_drawn_through(query, uri, header);
        let params = pieces(query, '&');
        assert forall|k: int| 0 <= k < params.len() implies match #[trigger] subject_param(
            params[k],
        ) {
            Some(v) => escapes_whole(v),
            None => true,
        } by {
            if let Some(v) = subject_param(params[k]) {
                lemma_pieces_drawn(query, '&', k);
                lemma_cut_drawn(params[k], '=');
                lemma_drawn_through(v, params[k], query);
                lemma_drawn_through(v, query, header);
            }
        }
    }
}

/// A header of ASCII characters alone can always be read.
pub proof fn a_plain_header_can_be_read(header: Seq<char>)
    requires
        is_ascii_chars(header),
    ensures
        header_readable(header),
{
    assert forall|v: Seq<char>| #[trigger] drawn_from(v, header) implies escapes_whole(v) by {
        assert(is_ascii_chars(v)) by {
            assert forall|j: int| 0 <= j < v.len() implies 0 <= #[trigger] v[j] as u32 <= 127 by {
                assert(header.contains(v[j]));
                let q = choose|q: int| 0 <= q < header.len() && header[q] == v[j];
                assert(0 <= header[q] as u32 <= 127);
            }
        }
        is_ascii_chars_encode_utf8(v);
    }
    lemma_header_readable(header);
}

proof fn lemma_percent_of(c: u32)
    ensures
        forall|i: int| 0 <= i < encode_scalar(c).len() && #[trigger] encode_scalar(c)[i] == 37
            ==> c == 37,
{
    assert(0xC0u8 | ((c >> 6) & 0x1F) as u8 >= 128) by (bit_vector);
    assert(0xE0u8 | ((c >> 12) & 0x0F) as u8 >= 128) by (bit_vector);
    assert(0xF0u8 | ((c >> 18) & 0x7) as u8 >= 128) by (bit_vector);
    assert(0x80u8 | (c & 0x3F) as u8 >= 128) by (bit_vector);
    assert(0x80u8 | ((c >> 6) & 0x3F) as u8 >= 128) by (bit_vector);
    assert(0x80u8 | ((c >> 12) & 0x3F) as u8 >= 128) by (bit_vector);
    assert(c <= 0x7F ==> (c & 0x7F) as u8 == c as u8) by (bit_vector);
}

proof fn lemma_percent_char(c: char)
    requires
        c != '%',
    ensures
        c as u32 != 37,
{
}

proof fn lemma_no_percent(s: Seq<char>)
    requires
        !s.contains('%'),
    ensures
        forall|i: int| 0 <= i < encode_utf8(s).len() ==> #[trigger] encode_utf8(s)[i] != 37,
    decreases s.len(),
{
    if s.len() > 0 {
        let rest = s.drop_first();
        let first = encode_scalar(s[0] as u32);
        if rest.contains('%') {
            let j = choose|j: int| 0 <= j < rest.len() && rest[j] == '%';
            assert(s[j + 1] == '%');
        }
        lemma_no_percent(rest);
        lemma_percent_of(s[0] as u32);
        assert(s[0] != '%');
        lemma_percent_char(s[0]);
        assert forall|i: int| 0 <= i < encode_utf8(s).len() implies #[trigger] encode_utf8(s)[i]
            != 37 by {
            if i < first.len() {
                assert(encode_utf8(s)[i] == first[i]);
            } else {
                assert(encode_utf8(s)[i] == encode_utf8(rest)[i - first.len()]);
            }
        }
    }
}

/// A header without a percent sign can always be read, whatever characters it
/// has.
pub proof fn a_header_without_escapes_can_be_read(header: Seq<char>)
    requires
        !header.contains('%'),
    ensures
        header_readable(header),
{
    assert forall|v: Seq<char>| #[trigger] drawn_from(v, header) implies escapes_whole(v) by {
        assert(!v.contains('%')) by {
            if v.contains('%') {
                let j = choose|j: int| 0 <= j < v.len() && v[j] == '%';
                assert(header.contains(v[j]));
            }
        }
        lemma_no_percent(v);
    }
    lemma_header_readable(header);
}

/// A text whose bytes are the percent-encoding of another's is decoded to that
/// other one, whatever characters it has.
pub proof fn what_is_urlencoded_is_read_back(s: Seq<char>, text: Seq<char>)
    requires
        encode_utf8(s) == percent_encoded(encode_utf8(text)),
    ensures
        urldecoded(s) == text,
{
    what_is_encoded_is_decoded(encode_utf8(text));
    utf8_is_read_as_it_stands(text);
}

/// What a one-click unsubscribe posts is what the header that offers it says: a
/// message with that text in its List-Unsubscribe-Post header is one that one
/// click is used for, wherever it has a web address.
pub proof fn what_is_posted_is_what_is_offered(
    uid: u32,
    seen: bool,
    date: Option<Timestamp>,
    fields: Seq<(Seq<char>, Seq<char>)>,
    sender: (Seq<char>, Seq<char>),
    i: int,
)
    requires
        first_named(fields, "List-Unsubscribe-Post"@, i),
        fields[i].1 == POST_BODY@,
    ensures
        POST_BODY@ == "List-Unsubscribe=One-Click"@,
        ({
            let m = meta_in(uid, seen, date, fields, sender);
            &&& m.one_click
            &&& m.list_unsubscribe matches Some(header) ==> any_web(pieces(header, ','))
                ==> method_of(m) matches Some(MethodV::OneClick(_))
        }),
{
    headers_are_read_by_name(uid, seen, date, fields, sender);
    reveal_strlit("List-Unsubscribe=One-Click");
    reveal_strlit("one-click");
    let low = lowercase(POST_BODY@);
    assert(is_ascii_chars(POST_BODY@));
    assert(low =~= low.take(17) + "one-click"@ + Seq::<char>::empty());
    if let Some(header) = meta_in(uid, seen, date, fields, sender).list_unsubscribe {
        the_least_work_is_picked(header, true);
    }
}

} // verus!
