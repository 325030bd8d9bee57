use mailprune::cli::{answer, command, help_message, password_prompt, stored_message, Command};
use mailprune::config::{
    account_for, clean, config_path, default_imap_host, default_smtp_host, join_path,
    password_step, password_variable, AccountConfig, Config, LoadFailure, PasswordPlace,
    PasswordStep, SAMPLE_CONFIG,
};
use mailprune::debuglog::{debug_path, log_line, needs_rotation, rotated_path};

fn account(name: &str, email: &str) -> AccountConfig {
    AccountConfig::new(name.into(), email.into(), None, None)
}

#[test]
fn hosts_default_to_gmail() {
    let a = account("t", "me@x.com");
    assert_eq!((a.imap_host.as_str(), a.smtp_host.as_str()), ("imap.gmail.com", "smtp.gmail.com"));
    assert_eq!(default_imap_host(), "imap.gmail.com");
    assert_eq!(default_smtp_host(), "smtp.gmail.com");
    let b = AccountConfig::new("t".into(), "me@x.com".into(), Some("i".into()), Some("s".into()));
    assert_eq!((b.imap_host.as_str(), b.smtp_host.as_str()), ("i", "s"));
}

#[test]
fn a_config_needs_an_account_and_logs_unless_told_not_to() {
    assert_eq!(Config::new(vec![], None).unwrap_err(), "config has no [[accounts]] entries");
    assert!(Config::new(vec![account("a", "a@x")], None).unwrap().action_log);
    assert!(Config::new(vec![account("a", "a@x")], Some(true)).unwrap().action_log);
    assert!(!Config::new(vec![account("a", "a@x")], Some(false)).unwrap().action_log);
}

#[test]
fn the_account_to_log_in_to_is_the_configured_one() {
    let all = [account("one", "a@x"), account("two", "b@x"), account("three", "b@x")];
    assert_eq!(account_for(&all, "b@x").name, "two");
    let fresh = account_for(&all, "c@x");
    assert_eq!((fresh.name.as_str(), fresh.imap_host.as_str()), ("c@x", "imap.gmail.com"));
}

#[test]
fn the_config_lives_below_the_home_directory() {
    assert_eq!(config_path(Some("/home/me")).unwrap(), "/home/me/.config/mailprune/config.toml");
    assert_eq!(config_path(None).unwrap_err(), "cannot determine home directory");
    assert_eq!(join_path("", "x"), "x");
    assert_eq!(join_path("/", "x"), "/x");
}

#[test]
fn a_config_that_cannot_be_loaded_says_why() {
    let missing = LoadFailure::Missing.message("/c");
    assert!(missing.starts_with("no config found at /c\n\ncreate it with:\n\n# mailprune config"));
    assert!(missing.ends_with(SAMPLE_CONFIG));
    assert_eq!(LoadFailure::Unreadable("denied".into()).message("/c"), "reading /c: denied");
    assert_eq!(LoadFailure::Unparsable("line 1".into()).message("/c"), "parsing /c: line 1");
}

#[test]
fn app_passwords_are_cleaned_of_their_spaces() {
    assert_eq!(clean("abcd efgh ijkl mnop"), "abcdefghijklmnop");
    assert_eq!(clean(" \t a\u{a0}b\n"), "ab");
    assert_eq!(clean(&clean("a b")), "ab");
    assert_eq!(clean(""), "");
}

#[test]
fn the_password_variable_is_the_address_in_underscores() {
    assert_eq!(password_variable("you+me@g-mail.com"), "MAILPRUNE_PASSWORD_YOU_ME_G_MAIL_COM");
    assert_eq!(password_variable("straße"), "MAILPRUNE_PASSWORD_STRASSE");
}

#[test]
fn a_password_is_looked_for_in_three_places() {
    let none = || Err::<String, String>("not there".into());
    assert!(matches!(
        password_step("me@x", PasswordPlace::Environment, none()),
        PasswordStep::Look(PasswordPlace::Keychain)
    ));
    assert!(matches!(
        password_step("me@x", PasswordPlace::Keychain, none()),
        PasswordStep::Look(PasswordPlace::OldKeychain)
    ));
    match password_step("me@x", PasswordPlace::OldKeychain, none()) {
        PasswordStep::Missing(text) => assert_eq!(
            text,
            "no app password stored for me@x.\nrun: mailprune auth me@x\n(generate one at https://myaccount.google.com/apppasswords): not there"
        ),
        other => panic!("{other:?}"),
    }
    for place in [PasswordPlace::Environment, PasswordPlace::Keychain] {
        match password_step("me@x", place, Ok("a b".into())) {
            PasswordStep::Use(p) => assert_eq!(p, "ab"),
            other => panic!("{other:?}"),
        }
    }
    match password_step("me@x", PasswordPlace::OldKeychain, Ok("a b".into())) {
        PasswordStep::Migrate(p) => assert_eq!(p, "ab", "moved to the present service"),
        other => panic!("{other:?}"),
    }
}

#[test]
fn the_debug_log_rotates_past_two_megabytes() {
    assert!(!needs_rotation(2_097_152));
    assert!(needs_rotation(2_097_153));
    assert_eq!(
        debug_path(false, None, Some("/home/me")).unwrap(),
        "/home/me/.local/state/mailprune/debug.log"
    );
    assert_eq!(debug_path(true, None, Some("/home/me")), None);
    assert_eq!(rotated_path("/s/debug.log"), "/s/debug.log.1");
    assert_eq!(log_line("12:00", "imap select"), "12:00 imap select\n");
}

fn args(words: &[&str]) -> Vec<String> {
    words.iter().map(|w| w.to_string()).collect()
}

#[test]
fn the_command_line_picks_what_to_do() {
    assert!(matches!(command(&args(&["mailprune"])), Command::Run));
    assert!(matches!(command(&args(&["mailprune", "what"])), Command::Run));
    assert!(matches!(command(&args(&["mailprune", "stacks"])), Command::Stacks));
    for word in ["help", "--help", "-h"] {
        assert!(matches!(command(&args(&["mailprune", word])), Command::Help));
    }
    assert!(matches!(command(&args(&["mailprune", "auth"])), Command::Auth(None)));
    match command(&args(&["mailprune", "auth", "me@x"])) {
        Command::Auth(Some(email)) => assert_eq!(email, "me@x"),
        other => panic!("{other:?}"),
    }
}

#[test]
fn the_command_line_answers_in_words() {
    assert!(help_message().starts_with("mailprune — email triage TUI\n\n  mailprune  "));
    assert!(help_message().ends_with(SAMPLE_CONFIG));
    assert_eq!(answer("  me@x.com\r\n"), "me@x.com");
    assert_eq!(password_prompt("me@x"), "app password for me@x: ");
    assert_eq!(
        stored_message("me@x"),
        "stored in keychain (service \"mailprune\", account me@x)"
    );
}
