//! External tools: their names, and how long they are waited for.
use vstd::prelude::*;

use crate::text::{ends_with, has_suffix, plus};

verus! {

/// The file name of a program on a system whose programs end with `suffix`.
pub open spec fn program_file(name: Seq<char>, suffix: Seq<char>) -> Seq<char> {
    if has_suffix(name, suffix) {
        name
    } else {
        name + suffix
    }
}

pub fn with_exe_suffix(name: &str, suffix: &str) -> (r: String)
    ensures
        r@ == program_file(name@, suffix@),
{
    if ends_with(name, suffix) {
        name.to_owned()
    } else {
        plus(name.to_owned(), suffix)
    }
}

/// The time between two looks at a tool that is waited for, in milliseconds.
pub const POLL_MILLIS: u64 = 200;

/// What to do about a tool that is waited for.
#[derive(Debug, Clone, Copy, PartialEq, Eq, Structural)]
pub enum WaitStep {
    /// It has ended: take what it left.
    Collect,
    /// It has taken too long: kill it.
    Kill,
    /// Look again after so many milliseconds.
    Sleep(u64),
}

/// The next step in waiting for a tool until the deadline. One that has ended
/// by then is never killed.
pub fn wait_step(exited: bool, now_ms: u64, deadline_ms: u64) -> (r: WaitStep)
    ensures
        r == (if exited {
            WaitStep::Collect
        } else if now_ms >= deadline_ms {
            WaitStep::Kill
        } else {
            WaitStep::Sleep(POLL_MILLIS)
        }),
{
    if exited {
        WaitStep::Collect
    } else if now_ms >= deadline_ms {
        WaitStep::Kill
    } else {
        WaitStep::Sleep(POLL_MILLIS)
    }
}

/// The file of a program ends with the suffix of programs, once: it is put behind a name
/// that does not end with it, and a name that does stays as it is.
pub proof fn programs_end_with_the_suffix_once(name: Seq<char>, suffix: Seq<char>)
    ensures
        has_suffix(program_file(name, suffix), suffix),
        program_file(program_file(name, suffix), suffix) == program_file(name, suffix),
        program_file(name + suffix, suffix) == name + suffix,
        !has_suffix(name, suffix) ==> program_file(name, suffix) == name + suffix,
{
    assert((name + suffix).skip(name.len() as int) =~= suffix);
}

/// A tool that has ended is never killed, however late; one that has not is killed from
/// the deadline on and not before, and until then it is looked at five times a second.
pub proof fn only_late_tools_are_killed(
    exited: bool,
    now_ms: u64,
    deadline_ms: u64,
    step: WaitStep,
)
    requires
        call_ensures(wait_step, (exited, now_ms, deadline_ms), step),
    ensures
        step == WaitStep::Collect <==> exited,
        step == WaitStep::Kill <==> !exited && now_ms >= deadline_ms,
        step matches WaitStep::Sleep(ms) ==> ms * 5 == 1000,
{
}

} // verus!
