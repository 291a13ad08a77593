//! Lines of the debug log.
use vstd::prelude::*;

use crate::number;

verus! {

broadcast use vstd::string::group_string_axioms;

/// The milliseconds of a reading of the monotonic clock.
pub open spec fn millis(sec: int, nsec: int) -> int {
    sec * 1000 + nsec / 1_000_000
}

/// A log line: the time since the start of the machine in milliseconds, and the
/// message.
pub fn debug_line(sec: u64, nsec: u64, msg: &str) -> (r: String)
    requires
        millis(sec as int, nsec as int) <= u64::MAX,
    ensures
        r@ == seq!['['] + number::dec(millis(sec as int, nsec as int) as nat) + "] "@ + msg@
            + seq!['\n'],
{
    let ms: u64 = sec * 1000 + nsec / 1_000_000;
    let mut line = String::new();
    line.push('[');
    number::push_u64(&mut line, ms);
    line.append("] ");
    line.append(msg);
    line.push('\n');
    assert(line@ =~= seq!['['] + number::dec(ms as nat) + "] "@ + msg@ + seq!['\n']);
    line
}

} // verus!
