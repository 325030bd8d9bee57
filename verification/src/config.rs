//! Accounts, where the configuration lives, and where a password comes from.
use crate::sort::views;
use crate::text::{
    chars_of, is_white, occurs, string_of, to_occur_is_to_stand_somewhere, to_upper, uppercase,
};
use vstd::prelude::*;
use vstd::string::*;

verus! {

/// One mail account.
#[derive(Debug, Clone)]
pub struct AccountConfig {
    pub name: String,
    pub email: String,
    pub imap_host: String,
    pub smtp_host: String,
}

/// The value of an `AccountConfig`.
pub struct AccountConfigV {
    pub name: Seq<char>,
    pub email: Seq<char>,
    pub imap_host: Seq<char>,
    pub smtp_host: Seq<char>,
}

impl View for AccountConfig {
    type V = AccountConfigV;

    open spec fn view(&self) -> AccountConfigV {
        AccountConfigV {
            name: self.name@,
            email: self.email@,
            imap_host: self.imap_host@,
            smtp_host: self.smtp_host@,
        }
    }
}

pub const DEFAULT_IMAP_HOST: &'static str = "imap.gmail.com";

pub const DEFAULT_SMTP_HOST: &'static str = "smtp.gmail.com";

/// The IMAP server of an account that names none.
pub fn default_imap_host() -> (r: String)
    ensures
        r@ == DEFAULT_IMAP_HOST@,
{
    DEFAULT_IMAP_HOST.to_owned()
}

/// The SMTP server of an account that names none.
pub fn default_smtp_host() -> (r: String)
    ensures
        r@ == DEFAULT_SMTP_HOST@,
{
    DEFAULT_SMTP_HOST.to_owned()
}

/// The text given, or the default.
pub open spec fn given_or(o: Option<String>, default: Seq<char>) -> Seq<char> {
    match o {
        Some(s) => s@,
        None => default,
    }
}

impl AccountConfig {
    /// An account as the configuration file states it: hosts that it leaves
    /// out are Gmail's.
    pub fn new(
        name: String,
        email: String,
        imap_host: Option<String>,
        smtp_host: Option<String>,
    ) -> (r: AccountConfig)
        ensures
            r@ == (AccountConfigV {
                name: name@,
                email: email@,
                imap_host: given_or(imap_host, DEFAULT_IMAP_HOST@),
                smtp_host: given_or(smtp_host, DEFAULT_SMTP_HOST@),
            }),
            r.name == name,
            r.email == email,
            imap_host matches Some(h) ==> r.imap_host == h,
            smtp_host matches Some(h) ==> r.smtp_host == h,
            imap_host is None ==> r.imap_host@ == "imap.gmail.com"@,
            smtp_host is None ==> r.smtp_host@ == "smtp.gmail.com"@,
    {
        AccountConfig {
            name,
            email,
            imap_host: match imap_host {
                Some(h) => h,
                None => default_imap_host(),
            },
            smtp_host: match smtp_host {
                Some(h) => h,
                None => default_smtp_host(),
            },
        }
    }

    /// The same account again.
    pub fn copy(&self) -> (r: AccountConfig)
        ensures
            r@ == self@,
    {
        AccountConfig {
            name: self.name.clone(),
            email: self.email.clone(),
            imap_host: self.imap_host.clone(),
            smtp_host: self.smtp_host.clone(),
        }
    }
}

/// Where the first account with this address stands; the number of accounts
/// when there is none.
pub open spec fn account_at(accounts: Seq<AccountConfigV>, email: Seq<char>) -> int
    decreases accounts.len(),
{
    if accounts.len() == 0 || accounts[0].email == email {
        0
    } else {
        1 + account_at(accounts.skip(1), email)
    }
}

/// The account to log in to for an address: the configured one, or one at
/// Gmail.
pub open spec fn account_chosen(
    accounts: Seq<AccountConfigV>,
    email: Seq<char>,
) -> AccountConfigV {
    let i = account_at(accounts, email);
    if i < accounts.len() {
        accounts[i]
    } else {
        AccountConfigV {
            name: email,
            email,
            imap_host: DEFAULT_IMAP_HOST@,
            smtp_host: DEFAULT_SMTP_HOST@,
        }
    }
}

proof fn lemma_account_at(accounts: Seq<AccountConfigV>, email: Seq<char>, i: int)
    requires
        0 <= i <= accounts.len(),
        forall|j: int| 0 <= j < i ==> (#[trigger] accounts[j]).email != email,
        i < accounts.len() ==> accounts[i].email == email,
    ensures
        account_at(accounts, email) == i,
    decreases i,
{
    if i > 0 {
        assert(accounts[0].email != email);
        assert forall|j: int| 0 <= j < i - 1 implies (#[trigger] accounts.skip(1)[j]).email
            != email by {
            assert(accounts.skip(1)[j] == accounts[j + 1]);
        }
        lemma_account_at(accounts.skip(1), email, i - 1);
    }
}

/// The account to log in to for an address.
pub fn account_for(accounts: &[AccountConfig], email: &str) -> (r: AccountConfig)
    ensures
        r@ == account_chosen(views(accounts@), email@),
        r.email@ == email@,
        forall|i: int|
            {
                &&& 0 <= i < accounts@.len()
                &&& (#[trigger] accounts@[i]).email@ == email@
                &&& forall|j: int| 0 <= j < i ==> (#[trigger] accounts@[j]).email@ != email@
            } ==> r@ == accounts@[i]@,
        (forall|i: int| 0 <= i < accounts@.len() ==> (#[trigger] accounts@[i]).email@ != email@)
            ==> r.name@ == email@ && r.imap_host@ == "imap.gmail.com"@ && r.smtp_host@
            == "smtp.gmail.com"@,
{
    let wanted = email.to_owned();
    let mut i: usize = 0;
    while i < accounts.len()
        invariant
            i <= accounts@.len(),
            wanted@ == email@,
            forall|j: int| 0 <= j < i ==> (#[trigger] views(accounts@)[j]).email != email@,
            forall|j: int| 0 <= j < i ==> (#[trigger] accounts@[j]).email@ != email@,
        decreases accounts@.len() - i,
    {
        if accounts[i].email == wanted {
            proof {
                lemma_account_at(views(accounts@), email@, i as int);
            }
            return accounts[i].copy();
        }
        i += 1;
    }
    proof {
        lemma_account_at(views(accounts@), email@, i as int);
    }
    AccountConfig::new(email.to_owned(), email.to_owned(), None, None)
}

/// The configuration file's contents.
#[derive(Debug, Clone)]
pub struct Config {
    pub accounts: Vec<AccountConfig>,
    /// write triage decisions to the action log
    pub action_log: bool,
}

pub const NO_ACCOUNTS: &'static str = "config has no [[accounts]] entries";

impl Config {
    /// A configuration as the file states it. One without accounts is refused;
    /// the action log is on unless it was switched off.
    pub fn new(accounts: Vec<AccountConfig>, action_log: Option<bool>) -> (r: Result<
        Config,
        String,
    >)
        ensures
            match r {
                Ok(c) => accounts@.len() > 0 && c.accounts@ == accounts@ && c.action_log == (
                action_log != Some(false)),
                Err(e) => accounts@.len() == 0 && e@ == NO_ACCOUNTS@,
            },
    {
        if accounts.len() == 0 {
            return Err(NO_ACCOUNTS.to_owned());
        }
        let action_log = match action_log {
            Some(b) => b,
            None => true,
        };
        Ok(Config { accounts, action_log })
    }
}

pub const SAMPLE_CONFIG: &'static str = r#"# mailprune config
[[accounts]]
name = "personal"
email = "you@gmail.com"
# imap_host = "imap.gmail.com"   # default
# smtp_host = "smtp.gmail.com"   # default

# [[accounts]]
# name = "work"
# email = "you@yourdomain.com"
"#;

// ---------------------------------------------------------------------------
// paths
// ---------------------------------------------------------------------------

/// A relative path below a directory, as Unix joins them.
pub open spec fn joined_path(base: Seq<char>, rel: Seq<char>) -> Seq<char> {
    if base.len() == 0 || base.last() == '/' {
        base + rel
    } else {
        base + "/"@ + rel
    }
}

/// Join a relative path to a directory.
pub fn join_path(base: &str, rel: &str) -> (r: String)
    ensures
        r@ == joined_path(base@, rel@),
{
    let mut out = base.to_owned();
    let n: usize = base.unicode_len();
    if n > 0 && base.get_char(n - 1) != '/' {
        out.append("/");
    }
    out.append(rel);
    out
}

pub const NO_HOME: &'static str = "cannot determine home directory";

pub const CONFIG_FILE: &'static str = ".config/mailprune/config.toml";

/// Where the configuration lives, given the home directory.
pub fn config_path(home: Option<&str>) -> (r: Result<String, String>)
    ensures
        match (home, r) {
            (Some(h), Ok(p)) => p@ == joined_path(h@, CONFIG_FILE@),
            (None, Err(e)) => e@ == NO_HOME@,
            _ => false,
        },
{
    match home {
        Some(h) => Ok(join_path(h, CONFIG_FILE)),
        None => Err(NO_HOME.to_owned()),
    }
}

/// Why no configuration was read.
#[derive(Debug, Clone)]
pub enum LoadFailure {
    Missing,
    Unreadable(String),
    Unparsable(String),
}

impl LoadFailure {
    pub open spec fn text(self, path: Seq<char>) -> Seq<char> {
        match self {
            LoadFailure::Missing => "no config found at "@ + path + "\n\ncreate it with:\n\n"@
                + SAMPLE_CONFIG@,
            LoadFailure::Unreadable(why) => "reading "@ + path + ": "@ + why@,
            LoadFailure::Unparsable(why) => "parsing "@ + path + ": "@ + why@,
        }
    }

    /// What the user is told.
    pub fn message(&self, path: &str) -> (r: String)
        ensures
            r@ == self.text(path@),
    {
        match self {
            LoadFailure::Missing => {
                let mut out = "no config found at ".to_owned();
                out.append(path);
                out.append("\n\ncreate it with:\n\n");
                out.append(SAMPLE_CONFIG);
                out
            },
            LoadFailure::Unreadable(why) => {
                let mut out = "reading ".to_owned();
                out.append(path);
                out.append(": ");
                out.append(why.as_str());
                out
            },
            LoadFailure::Unparsable(why) => {
                let mut out = "parsing ".to_owned();
                out.append(path);
                out.append(": ");
                out.append(why.as_str());
                out
            },
        }
    }
}

// ---------------------------------------------------------------------------
// passwords
// ---------------------------------------------------------------------------

/// A text without its white space.
pub open spec fn without_white(s: Seq<char>) -> Seq<char>
    decreases s.len(),
{
    if s.len() == 0 {
        s
    } else if is_white(s.last()) {
        without_white(s.drop_last())
    } else {
        without_white(s.drop_last()).push(s.last())
    }
}

/// Gmail app passwords are 16 letters; Google displays them with spaces.
/// Strip all whitespace so pasted "xxxx xxxx xxxx xxxx" still works.
pub fn clean(password: &str) -> (r: String)
    ensures
        r@ == without_white(password@),
{
    let mut out = String::new();
    let ghost all = password@;
    for c in it: password.chars()
        invariant
            it.seq() == all,
            out@ == without_white(all.take(it.index() as int)),
    {
        let ghost i = it.index() as int;
        assert(all.take(i + 1).drop_last() =~= all.take(i));
        if !c.is_whitespace() {
            out.push(c);
        }
    }
    assert(all.take(all.len() as int) =~= all);
    out
}

/// Cleaning leaves no white space, and a password without any as it is; so
/// cleaning twice does what cleaning once does.
pub proof fn cleaning_is_idempotent(s: Seq<char>)
    ensures
        forall|i: int| 0 <= i < without_white(s).len() ==> !is_white(#[trigger] without_white(s)[i]),
        (forall|i: int| 0 <= i < s.len() ==> !is_white(#[trigger] s[i])) ==> without_white(s) == s,
        without_white(without_white(s)) == without_white(s),
    decreases s.len(),
{
    if s.len() > 0 {
        let front = s.drop_last();
        cleaning_is_idempotent(front);
        if forall|i: int| 0 <= i < s.len() ==> !is_white(#[trigger] s[i]) {
            assert forall|i: int| 0 <= i < front.len() implies !is_white(#[trigger] front[i]) by {
                assert(front[i] == s[i]);
            }
            assert(!is_white(s[s.len() - 1]));
            assert(front.push(s.last()) =~= s);
        }
        if !is_white(s.last()) {
            let kept = without_white(front);
            assert(kept.push(s.last()).drop_last() =~= kept);
        }
    }
}

/// An address with its punctuation as underscores.
pub open spec fn underscored(s: Seq<char>) -> Seq<char> {
    Seq::new(
        s.len(),
        |i: int|
            if s[i] == '@' || s[i] == '.' || s[i] == '-' || s[i] == '+' {
                '_'
            } else {
                s[i]
            },
    )
}

/// The environment variable that overrides the stored password of an address.
pub fn password_variable(email: &str) -> (r: String)
    ensures
        r@ == "MAILPRUNE_PASSWORD_"@ + uppercase(underscored(email@)),
{
    let chars = chars_of(email);
    let mut plain: Vec<char> = Vec::new();
    let mut i: usize = 0;
    while i < chars.len()
        invariant
            i <= chars@.len(),
            chars@ == email@,
            plain@ == underscored(email@).take(i as int),
        decreases chars@.len() - i,
    {
        let c = chars[i];
        plain.push(
            if c == '@' || c == '.' || c == '-' || c == '+' {
                '_'
            } else {
                c
            },
        );
        i += 1;
        assert(plain@ =~= underscored(email@).take(i as int));
    }
    assert(plain@ =~= underscored(email@));
    let name = string_of(plain.as_slice());
    let mut out = "MAILPRUNE_PASSWORD_".to_owned();
    let upper = to_upper(name.as_str());
    out.append(upper.as_str());
    out
}

/// The keychain service that passwords are stored under.
pub const KEYRING_SERVICE: &'static str = "mailprune";

/// The keychain service of versions that still had another name.
pub const OLD_KEYRING_SERVICE: &'static str = "mailstack";

/// The places a password is looked for, in this order.
#[derive(Debug, Clone, Copy, PartialEq, Eq, Structural)]
pub enum PasswordPlace {
    Environment,
    Keychain,
    OldKeychain,
}

/// What to do after one place was looked at.
#[derive(Debug, Clone)]
pub enum PasswordStep {
    /// look there next
    Look(PasswordPlace),
    /// this is the password
    Use(String),
    /// this is the password; store it under the present service, and if that
    /// worked, delete it from the old one
    Migrate(String),
    /// there is none: what the user is told, and why the last lookup failed
    Missing(String),
}

/// What a user without a stored password is told.
pub open spec fn missing_password(email: Seq<char>, why: Seq<char>) -> Seq<char> {
    "no app password stored for "@ + email + ".\nrun: mailprune auth "@ + email
        + "\n(generate one at https://myaccount.google.com/apppasswords): "@ + why
}

/// Where a password comes from: the environment, then the keychain, then the
/// keychain under the old service name, from which it is moved. `found` is what
/// the lookup at `place` gave, or why it gave nothing.
pub fn password_step(
    email: &str,
    place: PasswordPlace,
    found: Result<String, String>,
) -> (r: PasswordStep)
    ensures
        match (place, found) {
            (PasswordPlace::OldKeychain, Ok(p)) => r matches PasswordStep::Migrate(s) && s@
                == without_white(p@),
            (_, Ok(p)) => r matches PasswordStep::Use(s) && s@ == without_white(p@),
            (PasswordPlace::Environment, Err(_)) => r == PasswordStep::Look(
                PasswordPlace::Keychain,
            ),
            (PasswordPlace::Keychain, Err(_)) => r == PasswordStep::Look(
                PasswordPlace::OldKeychain,
            ),
            (PasswordPlace::OldKeychain, Err(why)) => r matches PasswordStep::Missing(s) && s@
                == missing_password(email@, why@),
        },
{
    match (place, found) {
        (PasswordPlace::OldKeychain, Ok(p)) => PasswordStep::Migrate(clean(p.as_str())),
        (_, Ok(p)) => PasswordStep::Use(clean(p.as_str())),
        (PasswordPlace::Environment, Err(_)) => PasswordStep::Look(PasswordPlace::Keychain),
        (PasswordPlace::Keychain, Err(_)) => PasswordStep::Look(PasswordPlace::OldKeychain),
        (PasswordPlace::OldKeychain, Err(why)) => {
            let mut out = "no app password stored for ".to_owned();
            out.append(email);
            out.append(".\nrun: mailprune auth ");
            out.append(email);
            out.append("\n(generate one at https://myaccount.google.com/apppasswords): ");
            out.append(why.as_str());
            PasswordStep::Missing(out)
        },
    }
}

/// Cleaning takes the white space out and nothing else: every other character
/// stays, in its order.
pub proof fn cleaning_takes_out_only_white_space(s: Seq<char>)
    ensures
        without_white(s) == s.filter(|c: char| !is_white(c)),
    decreases s.len(),
{
    reveal(Seq::filter);
    if s.len() > 0 {
        cleaning_takes_out_only_white_space(s.drop_last());
    }
}

/// In the name of a password's variable the signs that an address may hold and
/// a variable may not are underscores; every other character is that of the
/// address.
pub proof fn only_punctuation_is_underscored(s: Seq<char>, i: int)
    requires
        0 <= i < s.len(),
    ensures
        underscored(s).len() == s.len(),
        "@.-+"@.contains(s[i]) ==> underscored(s)[i] == '_',
        !"@.-+"@.contains(s[i]) ==> underscored(s)[i] == s[i],
{
    reveal_strlit("@.-+");
    let signs = "@.-+"@;
    assert(signs[0] == '@' && signs[1] == '.' && signs[2] == '-' && signs[3] == '+');
    if signs.contains(s[i]) {
        let k = choose|k: int| 0 <= k < signs.len() && signs[k] == s[i];
        assert(k == 0 || k == 1 || k == 2 || k == 3);
    }
}

/// A path below a directory is the directory, the relative path at its end, and
/// one slash between the two unless the directory brings its own or is empty.
pub proof fn a_path_lies_below_its_directory(base: Seq<char>, rel: Seq<char>)
    ensures
        ({
            let p = joined_path(base, rel);
            &&& p.take(base.len() as int) == base
            &&& p.skip(p.len() - rel.len()) == rel
            &&& base.len() > 0 && base.last() != '/' ==> p == base.push('/') + rel
            &&& base.len() == 0 || base.last() == '/' ==> p.len() == base.len() + rel.len()
        }),
{
    reveal_strlit("/");
    let p = joined_path(base, rel);
    assert(p.take(base.len() as int) =~= base);
    assert(p.skip(p.len() - rel.len()) =~= rel);
    if base.len() > 0 && base.last() != '/' {
        assert(p =~= base.push('/') + rel);
    }
}

/// Whoever has no configuration or no password is told for which path or
/// address, and a failure ends with what went wrong.
pub proof fn what_is_missing_is_named(f: LoadFailure, path: Seq<char>, why: Seq<char>)
    ensures
        occurs(f.text(path), path),
        f matches LoadFailure::Unreadable(w) ==> exists|head: Seq<char>|
            f.text(path) == #[trigger] (head + w@),
        f matches LoadFailure::Unparsable(w) ==> exists|head: Seq<char>|
            f.text(path) == #[trigger] (head + w@),
        f matches LoadFailure::Missing ==> exists|head: Seq<char>|
            f.text(path) == #[trigger] (head + SAMPLE_CONFIG@),
        occurs(missing_password(path, why), "mailprune auth "@ + path),
        exists|head: Seq<char>| missing_password(path, why) == #[trigger] (head + why),
{
    let t = f.text(path);
    to_occur_is_to_stand_somewhere(t, path);
    match f {
        LoadFailure::Missing => {
            let rest = "\n\ncreate it with:\n\n"@ + SAMPLE_CONFIG@;
            assert(t =~= "no config found at "@ + path + rest);
        },
        LoadFailure::Unreadable(w) => {
            assert(t =~= "reading "@ + path + (": "@ + w@));
        },
        LoadFailure::Unparsable(w) => {
            assert(t =~= "parsing "@ + path + (": "@ + w@));
        },
    }
    let told = missing_password(path, why);
    let p = "mailprune auth "@ + path;
    to_occur_is_to_stand_somewhere(told, p);
    reveal_strlit(".\nrun: mailprune auth ");
    reveal_strlit("mailprune auth ");
    let run = ".\nrun: mailprune auth "@;
    assert(run =~= run.take(7) + "mailprune auth "@);
    let before = "no app password stored for "@ + path + run.take(7);
    let after = "\n(generate one at https://myaccount.google.com/apppasswords): "@ + why;
    assert(told =~= before + p + after);
}

} // verus!
