//! Progress-line handling and percentage arithmetic.
//!
//! While a job runs, the external tool emits `key=value` status lines; the
//! elapsed-time lines are prefixed `out_time=` and carry a clock token.  A
//! well-formed elapsed-time line yields the job's progress as a fraction of
//! the probed total duration, scaled to thousandths of a percent; every other
//! line, and every line arriving while the duration is zero or unknown,
//! yields nothing and is silently skipped.

use crate::timecode::clock_micros;
use crate::timecode::find_char;
use crate::timecode::first_index;
use crate::timecode::is_clock_token;
use crate::timecode::lemma_clock_micros_nonneg;
use crate::timecode::lemma_first_index_is;
use crate::timecode::parse_time;
use vstd::prelude::*;
use vstd::string::StrSliceExecFns;

verus! {

/// The marker that opens an elapsed-time line.
pub open spec fn out_time_prefix() -> Seq<char> {
    seq!['o', 'u', 't', '_', 't', 'i', 'm', 'e', '=']
}

pub open spec fn has_out_time_prefix(line: Seq<char>) -> bool {
    line.len() >= 9 && line.take(9) == out_time_prefix()
}

/// The timestamp text of an elapsed-time line: what stands between the
/// first `=` and the next `=` or the end of the line.
pub open spec fn progress_token(line: Seq<char>) -> Seq<char>
    recommends
        has_out_time_prefix(line),
{
    let rest = line.skip(9);
    rest.take(first_index(rest, '='))
}

/// The ratio `elapsed / duration` scaled to thousandths of a percent and
/// rounded toward zero, saturating at `u64::MAX`.
pub open spec fn percent_milli_spec(elapsed: int, duration: int) -> int
    recommends
        duration > 0,
{
    let exact = elapsed * 100_000 / duration;
    if exact > u64::MAX as int {
        u64::MAX as int
    } else {
        exact
    }
}

/// The progress a status line reports, in thousandths of a percent of the
/// job's total duration — or nothing, for a line that is not a well-formed
/// elapsed-time line or when no positive duration is known.
pub open spec fn progress_milli_spec(line: Seq<char>, duration_micros: int) -> Option<int> {
    if has_out_time_prefix(line) && is_clock_token(progress_token(line)) && clock_micros(
        progress_token(line),
    ) <= u64::MAX as int && duration_micros > 0 {
        Some(percent_milli_spec(clock_micros(progress_token(line)), duration_micros))
    } else {
        None
    }
}

/// How far a job has come, in thousandths of a percent of its total duration.
pub fn percent_milli(elapsed_micros: u64, duration_micros: u64) -> (r: u64)
    requires
        duration_micros > 0,
    ensures
        r == percent_milli_spec(elapsed_micros as int, duration_micros as int),
{
    proof {
        assert((elapsed_micros as int) * 100_000 <= (u64::MAX as int) * 100_000) by (nonlinear_arith)
            requires
                elapsed_micros <= u64::MAX,
        ;
    }
    let wide: u128 = (elapsed_micros as u128) * 100_000 / (duration_micros as u128);
    if wide > u64::MAX as u128 {
        u64::MAX
    } else {
        wide as u64
    }
}

/// Judge one line of the progress stream: the event percentage it carries,
/// in thousandths of a percent, or nothing for a line to be skipped.
pub fn progress_update(line: &str, duration_micros: u64) -> (r: Option<u64>)
    ensures
        r == (match progress_milli_spec(line@, duration_micros as int) {
            Some(v) => Some(v as u64),
            None => None::<u64>,
        }),
{
    let n = line.unicode_len();
    if n < 9 {
        return None;
    }
    if !(line.get_char(0) == 'o' && line.get_char(1) == 'u' && line.get_char(2) == 't'
        && line.get_char(3) == '_' && line.get_char(4) == 't' && line.get_char(5) == 'i'
        && line.get_char(6) == 'm' && line.get_char(7) == 'e' && line.get_char(8) == '=') {
        proof {
            assert(forall|k: int| 0 <= k < 9 ==> line@.take(9)[k] == line@[k]);
            assert(!has_out_time_prefix(line@));
        }
        return None;
    }
    proof {
        assert(line@.take(9) =~= out_time_prefix());
    }
    let e = find_char(line, 9, n, '=');
    let token = line.substring_char(9, e);
    proof {
        let rest = line@.skip(9);
        assert(forall|j: int| 0 <= j < e - 9 ==> rest[j] != '=');
        lemma_first_index_is(rest, '=', e - 9);
        assert(token@ =~= rest.take(e - 9));
    }
    proof {
        assert(progress_token(line@) == token@);
    }
    match parse_time(token) {
        Some(elapsed) => {
            proof {
                lemma_clock_micros_nonneg(token@);
            }
            if duration_micros > 0 {
                Some(percent_milli(elapsed, duration_micros))
            } else {
                None
            }
        },
        None => None,
    }
}

} // verus!
