//! Timestamped debug log for postmortems — a TUI can't print, so network
//! operations log start/done lines. When the UI hangs, the last line names the
//! operation that never came back.
//!
//! Always on, best-effort. What is decided here is where it goes, when it is
//! rotated and what a line looks like.
use crate::action_log::{state_dir, state_dir_text, str_text};
use crate::config::{join_path, joined_path};
use vstd::prelude::*;
use vstd::string::*;

verus! {

/// The environment variable that switches the log off.
pub const OPT_OUT: &'static str = "MAILPRUNE_NO_DEBUG_LOG";

pub const ROTATE_BYTES: u64 = 2 * 1024 * 1024;

/// Keep one previous generation instead of growing forever.
pub fn needs_rotation(len: u64) -> (r: bool)
    ensures
        r == (len > ROTATE_BYTES),
        r == (len > 2_097_152),
{
    len > ROTATE_BYTES
}

/// Where the log is, unless it was switched off.
pub fn debug_path(opted_out: bool, xdg_state_home: Option<&str>, home: Option<&str>) -> (r: Option<
    String,
>)
    ensures
        match r {
            Some(p) => !opted_out && p@ == joined_path(
                state_dir_text(str_text(xdg_state_home), str_text(home)),
                "debug.log"@,
            ),
            None => opted_out,
        },
{
    if opted_out {
        return None;
    }
    let dir = state_dir(xdg_state_home, home);
    Some(join_path(dir.as_str(), "debug.log"))
}

/// Where the previous generation goes.
pub fn rotated_path(path: &str) -> (r: String)
    ensures
        r@ == path@ + ".1"@,
{
    let mut out = path.to_owned();
    out.append(".1");
    out
}

/// A line of the log.
pub fn log_line(time: &str, msg: &str) -> (r: String)
    ensures
        r@ == time@ + " "@ + msg@ + "\n"@,
{
    let mut out = time.to_owned();
    out.append(" ");
    out.append(msg);
    out.append("\n");
    out
}

} // verus!
