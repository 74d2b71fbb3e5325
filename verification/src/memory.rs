//! Memory counters of one process, read from the lines of its status text.
//!
//! The status text holds one counter per line: a key that ends in a colon,
//! white space, a number, and the unit `kB`. Four counters are read: the
//! resident size and its high-water mark, and the virtual size and its
//! high-water mark.

use crate::numeral::{long_of, parse_long, push_numeral, signed_numeral};
use crate::text::{
    chars_of, ends_with, has_prefix, has_suffix, starts_with, texts, trim, trim_bounds,
};
use vstd::prelude::*;
use vstd::string::StringExecFns;

verus! {

/// One sample of the memory counters of a process, in kilobytes.
#[derive(Debug)]
pub struct TopicalUsage(u64, u64, u64, u64);

/// Why no sample could be taken.
#[derive(Clone, Copy, Debug, PartialEq, Eq)]
pub enum MemoryError {
    /// The status text of the process could not be had: the process is gone,
    /// or never was.
    NotFound,
    /// The status text was read to its end and every counter stayed at zero.
    NoData,
}

/// The unit that follows the number of a counter.
pub open spec fn unit() -> Seq<char> {
    "kB"@
}

/// The key of the resident size.
pub open spec fn resident_size_key() -> Seq<char> {
    "VmRSS:"@
}

/// The key of the high-water mark of the resident size.
pub open spec fn resident_peak_key() -> Seq<char> {
    "VmHWM:"@
}

/// The key of the virtual size.
pub open spec fn virtual_size_key() -> Seq<char> {
    "VmSize:"@
}

/// The key of the high-water mark of the virtual size.
pub open spec fn virtual_peak_key() -> Seq<char> {
    "VmPeak:"@
}

/// The number that `line` gives the counter `prefix`: `line` begins with
/// `prefix` and ends with the unit, and what stands between them, without the
/// white space around it, reads as an unsigned integer. `None` otherwise.
pub open spec fn extracted(line: Seq<char>, prefix: Seq<char>) -> Option<u64> {
    let rest = line.skip(prefix.len() as int);
    if has_prefix(line, prefix) && has_suffix(rest, unit()) {
        long_of(trim(rest.take(rest.len() - unit().len())))
    } else {
        None
    }
}

/// The value of the counter `key` after `lines`: the number that the last line
/// to give it one gives it, and zero where no line does.
pub open spec fn counter(lines: Seq<Seq<char>>, key: Seq<char>) -> u64
    decreases lines.len(),
{
    if lines.len() == 0 {
        0
    } else {
        match extracted(lines.last(), key) {
            Some(n) => n,
            None => counter(lines.drop_last(), key),
        }
    }
}

/// The path of the status text of the process `pid`.
pub open spec fn status_path(pid: int) -> Seq<char> {
    "/proc/"@ + signed_numeral(pid) + "/status"@
}

impl TopicalUsage {
    /// The resident size.
    pub closed spec fn spec_r_size(&self) -> u64 {
        self.0
    }

    /// The high-water mark of the resident size.
    pub closed spec fn spec_r_peak(&self) -> u64 {
        self.1
    }

    /// The virtual size.
    pub closed spec fn spec_v_size(&self) -> u64 {
        self.2
    }

    /// The high-water mark of the virtual size.
    pub closed spec fn spec_v_peak(&self) -> u64 {
        self.3
    }

    /// Whether every counter is zero.
    pub open spec fn spec_empty(&self) -> bool {
        self.r_size() == 0 && self.r_peak() == 0 && self.v_size() == 0 && self.v_peak() == 0
    }

    /// A sample of the first four numbers of `data`: the resident size, its
    /// high-water mark, the virtual size, and its high-water mark.
    pub fn from(data: &Vec<u64>) -> (usage: TopicalUsage)
        requires
            data.len() > 3,
        ensures
            usage.r_size() == data[0],
            usage.r_peak() == data[1],
            usage.v_size() == data[2],
            usage.v_peak() == data[3],
    {
        TopicalUsage(data[0], data[1], data[2], data[3])
    }

    /// The resident size.
    #[verifier::when_used_as_spec(spec_r_size)]
    pub fn r_size(&self) -> (n: u64)
        ensures
            n == self.r_size(),
    {
        self.0
    }

    /// The high-water mark of the resident size.
    #[verifier::when_used_as_spec(spec_r_peak)]
    pub fn r_peak(&self) -> (n: u64)
        ensures
            n == self.r_peak(),
    {
        self.1
    }

    /// The virtual size.
    #[verifier::when_used_as_spec(spec_v_size)]
    pub fn v_size(&self) -> (n: u64)
        ensures
            n == self.v_size(),
    {
        self.2
    }

    /// The high-water mark of the virtual size.
    #[verifier::when_used_as_spec(spec_v_peak)]
    pub fn v_peak(&self) -> (n: u64)
        ensures
            n == self.v_peak(),
    {
        self.3
    }

    /// Whether every counter is zero.
    #[verifier::when_used_as_spec(spec_empty)]
    pub fn empty(&self) -> (nothing: bool)
        ensures
            nothing == self.empty(),
    {
        self.0 == 0 && self.1 == 0 && self.2 == 0 && self.3 == 0
    }
}

/// The path of the status text of the process `pid`.
pub fn procfile(pid: i32) -> (path: String)
    ensures
        path@ == status_path(pid as int),
{
    let mut path = String::from_str("/proc/");
    if pid < 0 {
        path.push('-');
        push_numeral(&mut path, (-(pid as i64)) as u64);
    } else {
        push_numeral(&mut path, pid as u64);
    }
    path.append("/status");
    assert(path@ =~= status_path(pid as int));
    path
}

/// The number that the characters `line` give the counter `key`.
fn extract(line: &Vec<char>, key: &Vec<char>) -> (r: Option<u64>)
    ensures
        r == extracted(line@, key@),
{
    let end = line.len();
    if !starts_with(line, 0, end, key) {
        assert(line@.subrange(0, end as int) =~= line@);
        return None;
    }
    assert(line@.subrange(0, end as int) =~= line@);
    let from = key.len();
    let unit = chars_of("kB");
    let ghost rest = line@.skip(from as int);
    assert(line@.subrange(from as int, end as int) =~= rest);
    if !ends_with(line, from, end, &unit) {
        return None;
    }
    let (lo, hi) = trim_bounds(line, from, end - unit.len());
    assert(line@.subrange(from as int, end - unit.len()) =~= rest.take(rest.len() - unit.len()));
    parse_long(line, lo, hi)
}

/// The number that `line` gives the counter `prefix`, where it gives it one.
pub fn extract_number(line: &str, prefix: &str) -> (r: Option<u64>)
    ensures
        r == extracted(line@, prefix@),
{
    let chars = chars_of(line);
    let key = chars_of(prefix);
    extract(&chars, &key)
}

/// Takes one sample from the status text of a process, given by its lines in
/// order; `None` stands for a status text that could not be had.
///
/// Each counter gets the number of the last line that gives it one, and stays
/// at zero where no line does. Fails with `NotFound` where there is no status
/// text, and with `NoData` where every counter stayed at zero.
pub fn peek(status: Option<&Vec<String>>) -> (r: Result<TopicalUsage, MemoryError>)
    ensures
        status is None ==> r == Err::<TopicalUsage, MemoryError>(MemoryError::NotFound),
        status matches Some(lines) ==> {
            let r_size = counter(texts(lines@), resident_size_key());
            let r_peak = counter(texts(lines@), resident_peak_key());
            let v_size = counter(texts(lines@), virtual_size_key());
            let v_peak = counter(texts(lines@), virtual_peak_key());
            if r_size == 0 && r_peak == 0 && v_size == 0 && v_peak == 0 {
                r == Err::<TopicalUsage, MemoryError>(MemoryError::NoData)
            } else {
                &&& r matches Ok(usage)
                &&& usage.r_size() == r_size
                &&& usage.r_peak() == r_peak
                &&& usage.v_size() == v_size
                &&& usage.v_peak() == v_peak
            }
        },
{
    let lines = match status {
        Some(lines) => lines,
        None => {
            return Err(MemoryError::NotFound);
        },
    };
    let r_size_key = chars_of("VmRSS:");
    let r_peak_key = chars_of("VmHWM:");
    let v_size_key = chars_of("VmSize:");
    let v_peak_key = chars_of("VmPeak:");
    let mut r_size: u64 = 0;
    let mut r_peak: u64 = 0;
    let mut v_size: u64 = 0;
    let mut v_peak: u64 = 0;
    let ghost all = texts(lines@);
    let mut i: usize = 0;
    assert(all.take(0) =~= Seq::<Seq<char>>::empty());
    while i < lines.len()
        invariant
            i <= lines.len(),
            all == texts(lines@),
            r_size_key@ == resident_size_key(),
            r_peak_key@ == resident_peak_key(),
            v_size_key@ == virtual_size_key(),
            v_peak_key@ == virtual_peak_key(),
            r_size == counter(all.take(i as int), resident_size_key()),
            r_peak == counter(all.take(i as int), resident_peak_key()),
            v_size == counter(all.take(i as int), virtual_size_key()),
            v_peak == counter(all.take(i as int), virtual_peak_key()),
        decreases lines.len() - i,
    {
        let line = chars_of(lines[i].as_str());
        assert(all.take(i + 1).drop_last() =~= all.take(i as int));
        assert(all.take(i + 1).last() == line@);
        if let Some(n) = extract(&line, &r_size_key) {
            r_size = n;
        }
        if let Some(n) = extract(&line, &r_peak_key) {
            r_peak = n;
        }
        if let Some(n) = extract(&line, &v_size_key) {
            v_size = n;
        }
        if let Some(n) = extract(&line, &v_peak_key) {
            v_peak = n;
        }
        i = i + 1;
    }
    assert(all.take(lines.len() as int) =~= all);
    let usage = TopicalUsage(r_size, r_peak, v_size, v_peak);
    if usage.empty() {
        Err(MemoryError::NoData)
    } else {
        Ok(usage)
    }
}

} // verus!
