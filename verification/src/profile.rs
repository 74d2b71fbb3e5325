//! The series of samples of one run, as lines of text, and its summary.
//!
//! A profile text begins with a header line; one line for each sample follows,
//! in the order in which the samples were taken. Lines are only ever appended.
//! The summary of a profile is the time of its last sample and the largest
//! high-water marks seen.

use crate::memory::TopicalUsage;
use crate::text::texts;
use crate::tsv::{
    decoded, encoded, lemma_decoded_matches, lemma_line_round_trip, lemma_number_plain, line_of,
    parse, row, Field, Value,
};
use vstd::prelude::*;
use vstd::string::StringExecFns;

verus! {

/// The summary of one run.
#[derive(Clone, Copy, Debug, PartialEq, Eq)]
pub struct Profile {
    /// The time of the last sample, in millionths of a second since the run
    /// began.
    pub elapsed: u64,
    /// The largest high-water mark of the resident size, in kilobytes.
    pub real_peak: u64,
    /// The largest high-water mark of the virtual size, in kilobytes.
    pub virtual_peak: u64,
}

/// How the summary of a profile text was recovered.
#[derive(Clone, Copy, Debug, PartialEq, Eq)]
pub enum Recovery {
    /// From the last line of the text.
    Recovered,
    /// Not at all: the text holds no line of a sample.
    NoRows,
    /// Not at all: the last line of the text does not decode.
    Unreadable,
}

/// One sample as it stands in a line: the time in millionths of a second, the
/// resident size, its high-water mark, the virtual size, and its high-water
/// mark.
pub type Record = (u64, u64, u64, u64, u64);

/// The row of the header line.
pub open spec fn header_row() -> Seq<Value> {
    seq![
        Value::Text("Time (s)"@),
        Value::Text("Real Size (kB)"@),
        Value::Text("Real Peak (kB)"@),
        Value::Text("Virtual Size (kB)"@),
        Value::Text("Virtual Peak (kB)"@),
    ]
}

/// The schema of the line of a sample.
pub open spec fn sample_schema() -> Seq<Value> {
    seq![Value::Float(0), Value::Long(0), Value::Long(0), Value::Long(0), Value::Long(0)]
}

/// The row of a sample taken at `elapsed`.
pub open spec fn sample_row(elapsed: u64, data: TopicalUsage) -> Seq<Value> {
    seq![
        Value::Float(elapsed),
        Value::Long(data.r_size()),
        Value::Long(data.r_peak()),
        Value::Long(data.v_size()),
        Value::Long(data.v_peak()),
    ]
}

/// The sample that stands in a row of five fields.
pub open spec fn record_of(r: Seq<Value>) -> Record {
    (
        crate::tsv::millionths_of(r[0]),
        crate::tsv::whole_of(r[1]),
        crate::tsv::whole_of(r[2]),
        crate::tsv::whole_of(r[3]),
        crate::tsv::whole_of(r[4]),
    )
}

/// The larger of two numbers.
pub open spec fn larger(a: u64, b: u64) -> u64 {
    if a >= b {
        a
    } else {
        b
    }
}

/// The summary of a profile with no sample.
pub open spec fn blank() -> Profile {
    Profile { elapsed: 0, real_peak: 0, virtual_peak: 0 }
}

/// The summary that stands in the last line of a profile text, and how it was
/// recovered. The first line is the header. Where the text holds no line of a
/// sample, or its last line does not decode as one, the summary is blank.
pub open spec fn recovered(lines: Seq<Seq<char>>) -> (Profile, Recovery) {
    if lines.len() < 2 {
        (blank(), Recovery::NoRows)
    } else {
        match decoded(sample_schema(), lines.last()) {
            Some(r) => (
                Profile {
                    elapsed: record_of(r).0,
                    real_peak: record_of(r).2,
                    virtual_peak: record_of(r).4,
                },
                Recovery::Recovered,
            ),
            None => (blank(), Recovery::Unreadable),
        }
    }
}

/// The lines of a profile text that follow the header.
pub open spec fn sample_lines(lines: Seq<Seq<char>>) -> Seq<Seq<char>> {
    if lines.len() == 0 {
        lines
    } else {
        lines.drop_first()
    }
}

/// Whether each of `lines` decodes as the line of a sample.
pub open spec fn all_decode(lines: Seq<Seq<char>>) -> bool {
    forall|i: int| 0 <= i < lines.len() ==> decoded(sample_schema(), #[trigger] lines[i]) is Some
}

/// The samples that stand in `lines`, in order.
pub open spec fn records_of(lines: Seq<Seq<char>>) -> Seq<Record> {
    Seq::new(lines.len(), |i: int| record_of(decoded(sample_schema(), lines[i]).unwrap()))
}

/// The line of a sample decodes to the row of the sample.
pub proof fn lemma_sample_round_trip(elapsed: u64, data: TopicalUsage)
    ensures
        decoded(sample_schema(), line_of(sample_row(elapsed, data))) == Some(
            sample_row(elapsed, data),
        ),
{
    let r = sample_row(elapsed, data);
    lemma_number_plain(r.last());
    lemma_line_round_trip(sample_schema(), r);
}

/// Reopening a profile recovers the time and the high-water marks of the
/// sample that was recorded last: of the sample whose line is the last of the
/// text.
pub proof fn lemma_reopen_after_record(lines: Seq<Seq<char>>, elapsed: u64, data: TopicalUsage)
    requires
        lines.len() >= 2,
        lines.last() == line_of(sample_row(elapsed, data)),
    ensures
        recovered(lines) == (
            Profile { elapsed, real_peak: data.r_peak(), virtual_peak: data.v_peak() },
            Recovery::Recovered,
        ),
{
    lemma_sample_round_trip(elapsed, data);
}

impl Profile {
    /// The summary after one more sample, taken at `elapsed`: the time is that
    /// of the sample, and each peak is the larger of what it was and the
    /// high-water mark of the sample.
    pub open spec fn after(self, elapsed: u64, data: TopicalUsage) -> Profile {
        Profile {
            elapsed,
            real_peak: larger(self.real_peak, data.r_peak()),
            virtual_peak: larger(self.virtual_peak, data.v_peak()),
        }
    }

    /// The schema of the line of a sample.
    pub fn schema() -> (fields: Vec<Field>)
        ensures
            row(fields@) == sample_schema(),
    {
        let fields = vec![
            Field::Float(0),
            Field::Long(0),
            Field::Long(0),
            Field::Long(0),
            Field::Long(0),
        ];
        assert(row(fields@) =~= sample_schema());
        fields
    }

    /// A new profile: its blank summary, and the header line that its text
    /// begins with.
    pub fn new() -> (r: (Profile, String))
        ensures
            r.0 == blank(),
            r.1@ == encoded(header_row()),
    {
        let header = vec![
            Field::Text(String::from_str("Time (s)")),
            Field::Text(String::from_str("Real Size (kB)")),
            Field::Text(String::from_str("Real Peak (kB)")),
            Field::Text(String::from_str("Virtual Size (kB)")),
            Field::Text(String::from_str("Virtual Peak (kB)")),
        ];
        assert(row(header@) =~= header_row());
        (Profile { elapsed: 0, real_peak: 0, virtual_peak: 0 }, crate::tsv::format(&header))
    }

    /// The summary of an existing profile, recovered from the last of the
    /// lines of its text, and how it was recovered.
    pub fn from(lines: &Vec<String>) -> (r: (Profile, Recovery))
        ensures
            r == recovered(texts(lines@)),
    {
        let mut profile = Profile { elapsed: 0, real_peak: 0, virtual_peak: 0 };
        let recovery = profile.relevant(lines);
        (profile, recovery)
    }

    /// Records one sample, taken at `elapsed` millionths of a second since the
    /// run began: brings the summary up to date, and gives the line to append
    /// to the text of the profile.
    pub fn record(&mut self, data: TopicalUsage, elapsed: u64) -> (line: String)
        ensures
            *final(self) == old(self).after(elapsed, data),
            line@ == encoded(sample_row(elapsed, data)),
    {
        let record = vec![
            Field::Float(elapsed),
            Field::Long(data.r_size()),
            Field::Long(data.r_peak()),
            Field::Long(data.v_size()),
            Field::Long(data.v_peak()),
        ];
        assert(row(record@) =~= sample_row(elapsed, data));
        self.elapsed = elapsed;
        if data.r_peak() > self.real_peak {
            self.real_peak = data.r_peak();
        }
        if data.v_peak() > self.virtual_peak {
            self.virtual_peak = data.v_peak();
        }
        crate::tsv::format(&record)
    }

    /// Sets the summary to what stands in the last of `lines`, where that is
    /// the line of a sample; leaves it blank otherwise.
    pub fn relevant(&mut self, lines: &Vec<String>) -> (recovery: Recovery)
        ensures
            (*final(self), recovery) == recovered(texts(lines@)),
    {
        *self = Profile { elapsed: 0, real_peak: 0, virtual_peak: 0 };
        if lines.len() < 2 {
            return Recovery::NoRows;
        }
        let last = &lines[lines.len() - 1];
        assert(texts(lines@).last() == last@);
        match parse(&Profile::schema(), last) {
            Some(fields) => {
                proof {
                    lemma_decoded_matches(sample_schema(), last@);
                }
                assert(fields.len() == 5);
                self.elapsed = fields[0].to_float();
                self.real_peak = fields[2].to_long();
                self.virtual_peak = fields[4].to_long();
                Recovery::Recovered
            },
            None => Recovery::Unreadable,
        }
    }

    /// The samples of a profile, from the lines of its text: every line after
    /// the header, decoded. `None` where one of them does not decode.
    pub fn records(lines: &Vec<String>) -> (all: Option<Vec<Record>>)
        ensures
            match all {
                Some(records) => all_decode(sample_lines(texts(lines@))) && records@ == records_of(
                    sample_lines(texts(lines@)),
                ),
                None => !all_decode(sample_lines(texts(lines@))),
            },
    {
        let ghost data = sample_lines(texts(lines@));
        let schema = Profile::schema();
        let mut all: Vec<Record> = Vec::new();
        let mut i: usize = 1;
        while i < lines.len()
            invariant
                1 <= i,
                i <= lines.len() || i == 1,
                all.len() == i - 1,
                data == sample_lines(texts(lines@)),
                row(schema@) == sample_schema(),
                forall|k: int|
                    0 <= k < all.len() ==> decoded(sample_schema(), #[trigger] data[k]) is Some,
                forall|k: int|
                    0 <= k < all.len() ==> #[trigger] all[k] == record_of(
                        decoded(sample_schema(), data[k]).unwrap(),
                    ),
            decreases lines.len() - i,
        {
            assert(data[i - 1] == lines[i as int]@);
            let fields = match parse(&schema, &lines[i]) {
                Some(fields) => fields,
                None => {
                    return None;
                },
            };
            proof {
                lemma_decoded_matches(sample_schema(), lines[i as int]@);
            }
            assert(row(fields@).len() == 5);
            all.push(
                (
                    fields[0].to_float(),
                    fields[1].to_long(),
                    fields[2].to_long(),
                    fields[3].to_long(),
                    fields[4].to_long(),
                ),
            );
            i = i + 1;
        }
        assert(all@ =~= records_of(data));
        Some(all)
    }
}

} // verus!
