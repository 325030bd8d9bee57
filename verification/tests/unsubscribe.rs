use mailprune::config::AccountConfig;
use mailprune::stacks::MsgMeta;
use mailprune::unsubscribe::{
    conclude, is_readable, percent_decode, pick_method, request, urldecode, Method, Reply, Request, Stage,
};

fn msg(header: Option<&str>, one_click: bool) -> MsgMeta {
    MsgMeta {
        uid: 1,
        sender_email: "a@x.com".into(),
        sender_name: String::new(),
        subject: "s".into(),
        date: None,
        unread: false,
        list_unsubscribe: header.map(|h| h.into()),
        one_click,
    }
}

fn pick(header: &str, one_click: bool) -> Option<Method> {
    pick_method(&msg(Some(header), one_click))
}

fn account() -> AccountConfig {
    AccountConfig::new("t".into(), "me@x.com".into(), None, None)
}

#[test]
fn no_header_means_no_method() {
    assert!(pick_method(&msg(None, true)).is_none());
    assert!(pick("", true).is_none());
    assert!(pick("<ftp://x>, nonsense", true).is_none());
}

#[test]
fn one_click_wins_then_mail_then_the_browser() {
    let both = "<mailto:u@x.com>, <https://x.com/u?a=b>";
    match pick(both, true) {
        Some(Method::OneClick(url)) => assert_eq!(url, "https://x.com/u?a=b"),
        other => panic!("{other:?}"),
    }
    match pick(both, false) {
        Some(Method::Mailto { to, subject }) => {
            assert_eq!((to.as_str(), subject.as_str()), ("u@x.com", "unsubscribe"))
        }
        other => panic!("{other:?}"),
    }
    match pick("<http://x.com/u>", false) {
        Some(Method::Browser(url)) => assert_eq!(url, "http://x.com/u"),
        other => panic!("{other:?}"),
    }
    assert!(matches!(pick("<mailto:u@x.com>", true), Some(Method::Mailto { .. })));
}

#[test]
fn the_first_entry_of_its_kind_counts() {
    match pick(" <<https://one>> , <https://two>", false) {
        Some(Method::Browser(url)) => assert_eq!(url, "https://one"),
        other => panic!("{other:?}"),
    }
}

#[test]
fn a_mailto_address_can_set_the_subject() {
    let subject = |h: &str| match pick(h, false) {
        Some(Method::Mailto { subject, .. }) => subject,
        other => panic!("{other:?}"),
    };
    assert_eq!(subject("<mailto:u@x.com?subject=stop%20it>"), "stop it");
    assert_eq!(subject("<mailto:u@x.com?body=x&SUBJECT=a+b&x=y>"), "a b");
    assert_eq!(subject("<mailto:u@x.com?subject=1&subject=2>"), "2", "the last one counts");
    assert_eq!(subject("<mailto:u@x.com?nothing>"), "unsubscribe");
    match pick("<mailto:u@x.com?subject=x>", false) {
        Some(Method::Mailto { to, .. }) => assert_eq!(to, "u@x.com"),
        other => panic!("{other:?}"),
    }
}

#[test]
fn percent_escapes_are_decoded() {
    assert_eq!(urldecode("a%41b"), "aAb");
    assert_eq!(urldecode("%e2%82%AC"), "€");
    assert_eq!(urldecode("1+1"), "1 1");
    assert_eq!(urldecode("100%"), "100%");
    assert_eq!(urldecode("50%4"), "50%4");
    assert_eq!(urldecode("%zz%41"), "%zzA");
    assert_eq!(urldecode("%%41"), "%A");
    assert_eq!(urldecode("%+f"), "\u{f}", "a plus sign and one digit is a number too");
    assert_eq!(urldecode("%é"), "%é");
    assert_eq!(urldecode("%ff"), "\u{fffd}");
    assert_eq!(urldecode("plain text, grüße"), "plain text, grüße");
    assert_eq!(percent_decode(b"%00+%7f%"), [0, 32, 127, 37]);
}

#[test]
fn a_cut_escape_before_a_long_character_is_told_apart() {
    assert!(is_readable(&msg(None, false)));
    assert!(is_readable(&msg(Some("<mailto:u@x.com?subject=%41>"), false)));
    assert!(!is_readable(&msg(Some("<mailto:u@x.com?subject=%a€>"), false)));
    assert!(is_readable(&msg(Some("<mailto:u@x.com?body=%a€>"), false)));
    assert!(is_readable(&msg(Some("<https://x.com/%a€>"), false)));
}

#[test]
fn each_method_has_a_description() {
    assert_eq!(Method::OneClick("u".into()).describe(), "one-click POST");
    let mail = Method::Mailto { to: "a".into(), subject: "b".into() };
    assert_eq!(mail.describe(), "unsubscribe email");
    assert_eq!(Method::Browser("u".into()).describe(), "open in browser");
}

#[test]
fn each_method_has_its_request() {
    match request(&Method::OneClick("https://x".into()), &account(), "pw") {
        Request::Post { url } => assert_eq!(url, "https://x"),
        other => panic!("{other:?}"),
    }
    let mail = Method::Mailto { to: "u@x.com".into(), subject: "bye".into() };
    match request(&mail, &account(), "pw") {
        Request::Mail { from, to, subject, smtp_host, password } => {
            assert_eq!((from.as_str(), to.as_str()), ("me@x.com", "u@x.com"));
            assert_eq!((subject.as_str(), password.as_str()), ("bye", "pw"));
            assert_eq!(smtp_host, "smtp.gmail.com");
        }
        other => panic!("{other:?}"),
    }
    assert!(matches!(
        request(&Method::Browser("https://x".into()), &account(), ""),
        Request::Open { .. }
    ));
}

#[test]
fn each_reply_reads_as_success_or_failure() {
    let click = Method::OneClick("https://x".into());
    let mail = Method::Mailto { to: "u@x.com".into(), subject: "bye".into() };
    let page = Method::Browser("https://x".into());
    let status = |code: u16, text: &str| Reply::Status { code, text: text.into() };
    let failed = |stage, why: &str| Reply::Failed { stage, why: why.into() };

    assert_eq!(
        conclude(&click, status(200, "200 OK")).unwrap(),
        "unsubscribed (one-click, HTTP 200 OK)"
    );
    assert!(conclude(&click, status(299, "299")).is_ok());
    assert_eq!(
        conclude(&click, status(404, "404 Not Found")).unwrap_err(),
        "one-click POST returned HTTP 404 Not Found"
    );
    assert!(conclude(&click, status(300, "300")).is_err());
    assert!(conclude(&click, status(199, "199")).is_err());
    assert_eq!(conclude(&mail, Reply::Done).unwrap(), "unsubscribe email sent to u@x.com");
    assert_eq!(conclude(&page, Reply::Done).unwrap(), "opened unsubscribe page in browser");
    assert_eq!(
        conclude(&click, failed(Stage::Delivery, "dns")).unwrap_err(),
        "POST https://x: dns"
    );
    assert_eq!(
        conclude(&mail, failed(Stage::Recipient, "no @")).unwrap_err(),
        "bad mailto address u@x.com: no @"
    );
    assert_eq!(
        conclude(&mail, failed(Stage::Delivery, "550")).unwrap_err(),
        "sending unsubscribe email: 550"
    );
    assert_eq!(
        conclude(&page, failed(Stage::Delivery, "no browser")).unwrap_err(),
        "opening https://x: no browser"
    );
    assert_eq!(conclude(&click, failed(Stage::Setup, "tls")).unwrap_err(), "tls");
}
