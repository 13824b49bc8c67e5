//! Memory and processor time of the running process, as Linux reports them.

use vstd::prelude::*;

use crate::chars;
use crate::scan;
use crate::text;

verus! {

/// The first line that starts with `prefix`, without it.
pub open spec fn value_behind(lines: Seq<Seq<char>>, prefix: Seq<char>) -> Option<Seq<char>>
    decreases lines.len(),
{
    if lines.len() == 0 {
        None
    } else if scan::starts_with(lines[0], prefix) {
        Some(lines[0].skip(prefix.len() as int))
    } else {
        value_behind(lines.drop_first(), prefix)
    }
}

/// The resident memory that a `status` file reports, in KiB: the number that
/// follows `VmRSS:`.
pub open spec fn resident_kib(status: Seq<char>) -> Option<nat> {
    match value_behind(scan::lines_of(status), "VmRSS:"@) {
        Some(rest) => {
            let words = scan::words_of(rest);
            if words.len() > 0 {
                scan::number_in(words[0], u64::MAX as nat)
            } else {
                None
            }
        },
        None => None,
    }
}

/// The fields of a `stat` file that follow the command name. The name stands in
/// parentheses and may hold anything, parentheses too.
pub open spec fn fields_behind_name(stat: Seq<char>) -> Seq<Seq<char>> {
    let k = chars::last_index(stat, ')');
    if k < 0 {
        Seq::empty()
    } else {
        scan::words_of(stat.skip(k + 2))
    }
}

/// A field as a number of clock ticks; one that is no number counts as 0.
pub open spec fn ticks_in(field: Seq<char>) -> nat {
    match scan::number_in(field, u64::MAX as nat) {
        Some(v) => v,
        None => 0,
    }
}

/// The user and system time that a `stat` file reports, in clock ticks.
pub open spec fn cpu_ticks(stat: Seq<char>) -> Option<(nat, nat)> {
    let fields = fields_behind_name(stat);
    if fields.len() > 12 {
        Some((ticks_in(fields[11]), ticks_in(fields[12])))
    } else {
        None
    }
}

/// Read the resident memory, in KiB, from the text of `/proc/self/status`.
pub fn parse_resident_kib(status: &str) -> (kib: Option<u64>)
    ensures
        match kib {
            Some(v) => resident_kib(status@) == Some(v as nat),
            None => resident_kib(status@) is None,
        },
{
    let all: Vec<char> = text::chars_of(status);
    let lines: Vec<&[char]> = scan::lines(all.as_slice());
    let ghost texts = scan::lines_of(status@);
    let prefix: Vec<char> = text::chars_of("VmRSS:");
    let n: usize = lines.len();
    let mut i: usize = 0;
    assert(texts.skip(0) =~= texts);
    while i < n
        invariant
            i <= n,
            n == lines@.len(),
            n == texts.len(),
            texts == scan::lines_of(status@),
            prefix@ == "VmRSS:"@,
            forall|k: int| 0 <= k < n ==> #[trigger] lines@[k]@ == texts[k],
            value_behind(texts, prefix@) == value_behind(texts.skip(i as int), prefix@),
        decreases n - i,
    {
        let line: &[char] = lines[i];
        assert(texts.skip(i as int)[0] == line@);
        if scan::begins_with(line, prefix.as_slice()) {
            let rest: &[char] = chars::part(line, prefix.len(), line.len());
            assert(rest@ =~= line@.skip(prefix@.len() as int));
            let words: Vec<Vec<char>> = scan::words(rest);
            if words.len() == 0 {
                return None;
            }
            return scan::parse_number(words[0].as_slice(), u64::MAX);
        }
        assert(texts.skip(i as int).drop_first() =~= texts.skip(i + 1));
        i = i + 1;
    }
    None
}

fn parse_ticks(field: &[char]) -> (v: u64)
    ensures
        v == ticks_in(field@),
{
    match scan::parse_number(field, u64::MAX) {
        Some(v) => v,
        None => 0,
    }
}

/// Read the user and system time, in clock ticks, from the text of
/// `/proc/self/stat`.
pub fn parse_cpu_ticks(stat: &str) -> (ticks: Option<(u64, u64)>)
    requires
        chars::last_index(stat@, ')') >= 0 ==> {
            &&& chars::last_index(stat@, ')') + 2 <= stat@.len()
            &&& (stat@[chars::last_index(stat@, ')') + 1] as u32) < 128
        },
    ensures
        match ticks {
            Some(t) => cpu_ticks(stat@) == Some((t.0 as nat, t.1 as nat)),
            None => cpu_ticks(stat@) is None,
        },
{
    let all: Vec<char> = text::chars_of(stat);
    match chars::find_last(all.as_slice(), ')') {
        Some(k) => {
            let n: usize = all.len();
            let rest: &[char] = chars::part(all.as_slice(), k + 2, n);
            assert(rest@ =~= stat@.skip(k + 2));
            let fields: Vec<Vec<char>> = scan::words(rest);
            if fields.len() > 12 {
                Some((parse_ticks(fields[11].as_slice()), parse_ticks(fields[12].as_slice())))
            } else {
                None
            }
        },
        None => None,
    }
}

} // verus!
