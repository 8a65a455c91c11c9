//! When the sending process started, out of the kernel's account of it.

use vstd::prelude::*;

use crate::text::{
    chars_of, find_last, last_index, lemma_last_index_unique, parse_u64, parsed_u64, split_words, tail_from,
    texts, words,
};

verus! {

/// The position of the start time among the fields behind the process name.
pub const STARTTIME_FIELD: usize = 19;

/// The start time in a `stat` line, in clock ticks. The process name is in parentheses and may
/// hold parentheses and spaces itself, so the fields are counted from the last `)`.
pub open spec fn start_of(stat: Seq<char>) -> Option<u64> {
    let k = last_index(stat, ')');
    let fields = words(stat.skip(k + 1));
    if k >= 0 && fields.len() > STARTTIME_FIELD {
        parsed_u64(fields[STARTTIME_FIELD as int])
    } else {
        None
    }
}

/// The start time in a `stat` line; nothing for anything that does not look like one.
pub fn starttime_ticks(stat: &str) -> (r: Option<u64>)
    ensures
        r == start_of(stat@),
{
    let cs = chars_of(stat);
    match find_last(cs.as_slice(), ')') {
        None => None,
        Some(k) => {
            let fields = split_words(tail_from(stat, k + 1));
            assert(texts(fields@).len() == fields@.len());
            if fields.len() > STARTTIME_FIELD {
                assert(texts(fields@)[STARTTIME_FIELD as int] == fields@[STARTTIME_FIELD as int]@);
                parse_u64(fields[STARTTIME_FIELD].as_str())
            } else {
                None
            }
        },
    }
}

/// Clock ticks in nanoseconds, the fraction dropped; nothing without a tick rate, or where the
/// result does not fit.
pub open spec fn nanos_of_ticks(ticks: u64, ticks_per_second: i64) -> Option<i64> {
    let nanos = ticks as int * 1_000_000_000 / ticks_per_second as int;
    if ticks_per_second > 0 && nanos <= i64::MAX {
        Some(nanos as i64)
    } else {
        None
    }
}

pub fn ticks_to_nanos(ticks: u64, ticks_per_second: i64) -> (r: Option<i64>)
    ensures
        r == nanos_of_ticks(ticks, ticks_per_second),
{
    if ticks_per_second <= 0 {
        return None;
    }
    let nanos: u128 = ticks as u128 * 1_000_000_000 / ticks_per_second as u128;
    if nanos <= i64::MAX as u128 {
        Some(nanos as i64)
    } else {
        None
    }
}

/// Why there is no start time to be had of a process.
#[derive(Debug, Clone, Copy, PartialEq, Eq, Structural)]
pub enum StartError {
    /// The line has no start time that can be read.
    NoField,
    /// The start time does not fit in nanoseconds.
    OutOfRange,
}

/// The boot time at which the process of this `stat` line started, in nanoseconds.
pub fn started_at(stat: &str, ticks_per_second: i64) -> (r: Result<i64, StartError>)
    ensures
        r == match start_of(stat@) {
            None => Err::<i64, StartError>(StartError::NoField),
            Some(ticks) => match nanos_of_ticks(ticks, ticks_per_second) {
                Some(nanos) => Ok(nanos),
                None => Err(StartError::OutOfRange),
            },
        },
{
    match starttime_ticks(stat) {
        None => Err(StartError::NoField),
        Some(ticks) => match ticks_to_nanos(ticks, ticks_per_second) {
            Some(nanos) => Ok(nanos),
            None => Err(StartError::OutOfRange),
        },
    }
}

/// Whatever a process is called, its name does not shift the fields behind it.
pub proof fn law_process_names_do_not_shift_fields(before: Seq<char>, fields: Seq<char>)
    requires
        forall|i: int| 0 <= i < fields.len() ==> #[trigger] fields[i] != ')',
    ensures
        start_of(before.push(')') + fields) == if words(fields).len() > STARTTIME_FIELD {
            parsed_u64(words(fields)[STARTTIME_FIELD as int])
        } else {
            None
        },
{
    let stat = before.push(')') + fields;
    assert forall|i: int| before.len() < i < stat.len() implies #[trigger] stat[i] != ')' by {
        assert(stat[i] == fields[i - before.len() - 1]);
    }
    lemma_last_index_unique(stat, ')', before.len() as int);
    assert(stat.skip(before.len() as int + 1) =~= fields);
}

} // verus!
