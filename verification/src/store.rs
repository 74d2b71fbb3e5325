//! The store of all runs: an index text with one line for each run, oldest
//! first, and one profile text for each run, named by the address of the run.
//!
//! The address of a run is a hash of the time at which it began and of the
//! arguments of its command, each kept apart from the next. It names the
//! profile text of the run, and stands in the line of the run in the index.

use crate::numeral::{numeral, push_numeral};
use crate::profile::{blank, header_row, Profile};
use crate::numeral::{lemma_numeral, numeral_value};
use crate::text::{free_of, join, lemma_join_free, lemma_join_push, texts};
use crate::tsv::{
    decoded, delimiter_free, encoded, lemma_decoded_matches, lemma_line_round_trip,
    lemma_number_plain, line_of, parse, rendered, row, whole_of, Field, Value, DELIMITER,
};
use std::collections::hash_map::DefaultHasher;
use std::hash::Hasher;
use vstd::prelude::*;
use vstd::std_specs::hash::DefaultHasherAdditionalSpecFns;
use vstd::string::StringExecFns;
use vstd::utf8::encode_utf8;

verus! {

/// The store of all runs, given by the directory it is rooted at.
pub struct Store(String);

/// Why the store could not do what was asked of it.
#[derive(Clone, Copy, Debug, PartialEq, Eq)]
pub enum StoreError {
    /// The home directory of the user could not be found.
    HomeNotFound,
    /// The index is there, and is not a regular file.
    Corrupt,
    /// The index could not be examined.
    Inaccessible,
    /// The line of the run at this position in the index does not decode.
    DecodeFailure(usize),
    /// There is no run at this position in the index.
    IndexBoundsFailure(u32),
}

/// What stands at the path of the index.
#[derive(Clone, Copy, Debug, PartialEq, Eq)]
pub enum IndexState {
    /// Nothing.
    Missing,
    /// A regular file.
    File,
    /// Something that is not a regular file.
    Other,
    /// It could not be examined.
    Unknown,
}

/// One run, as it stands in the index.
#[derive(Clone, Debug, PartialEq, Eq)]
pub struct IndexEntry {
    /// When the run began, in seconds since the epoch.
    pub timestamp: u64,
    /// The command of the run, its arguments separated by spaces.
    pub command: String,
    /// The address of the run.
    pub address: String,
}

/// What one line of the index holds.
pub ghost struct Entry {
    /// When the run began, in seconds since the epoch.
    pub timestamp: u64,
    /// The command of the run.
    pub command: Seq<char>,
    /// The address of the run.
    pub address: Seq<char>,
}

impl View for IndexEntry {
    type V = Entry;

    open spec fn view(&self) -> Entry {
        Entry { timestamp: self.timestamp, command: self.command@, address: self.address@ }
    }
}

/// What a new run begins with.
#[derive(Clone, Debug, PartialEq, Eq)]
pub struct Recording {
    /// The address of the run.
    pub address: String,
    /// The line to append to the index.
    pub entry: String,
    /// The path of the profile text to create.
    pub path: String,
    /// The header line to begin the profile text with.
    pub header: String,
    /// The summary of the run so far.
    pub profile: Profile,
}

/// The character between the names of a path.
pub const SEPARATOR: char = '/';

/// The path of `name` under the directory `base`: `name` itself where it
/// begins at the root; otherwise `base`, a separator unless `base` is empty or
/// ends with one, and `name`.
pub open spec fn joined_path(base: Seq<char>, name: Seq<char>) -> Seq<char> {
    if name.len() > 0 && name[0] == SEPARATOR {
        name
    } else if base.len() == 0 || base.last() == SEPARATOR {
        base + name
    } else {
        base.push(SEPARATOR) + name
    }
}

/// The name of the index under the root of a store.
pub open spec fn index_name() -> Seq<char> {
    "index.tsv"@
}

/// The name of the directory of the profile texts under the root of a store.
pub open spec fn cache_name() -> Seq<char> {
    "runs"@
}

/// What follows the address in the name of a profile text.
pub open spec fn profile_suffix() -> Seq<char> {
    ".tsv"@
}

/// The path of the profile text of the run at `address`, in a store rooted at
/// `root`.
pub open spec fn profile_path(root: Seq<char>, address: Seq<char>) -> Seq<char> {
    joined_path(joined_path(root, cache_name()), address + profile_suffix())
}

/// The row of the header line of the index.
pub open spec fn index_header() -> Seq<Value> {
    seq![Value::Text("Date"@), Value::Text("Command"@), Value::Text("File"@)]
}

/// The schema of the line of a run in the index.
pub open spec fn index_schema() -> Seq<Value> {
    seq![Value::Long(0), Value::Text(Seq::empty()), Value::Text(Seq::empty())]
}

/// The arguments of a command: all of it but the name of the program, which
/// comes first.
pub open spec fn arguments(command: Seq<Seq<char>>) -> Seq<Seq<char>> {
    command.drop_first()
}

/// The byte that ends each text of what is hashed. No text holds it among its
/// bytes.
pub const END: u8 = 0xff;

/// The bytes of the texts `parts`, one text after the other, each followed by
/// the byte that ends it.
pub open spec fn ended(parts: Seq<Seq<char>>) -> Seq<u8>
    decreases parts.len(),
{
    if parts.len() == 0 {
        Seq::empty()
    } else {
        ended(parts.drop_last()) + encode_utf8(parts.last()).push(END)
    }
}

/// What the address of a run is the hash of: the numeral of the time at which
/// the run began, and then each argument of its command, every one of them
/// ended on its own.
pub open spec fn hashed(timestamp: u64, command: Seq<Seq<char>>) -> Seq<u8> {
    ended(seq![numeral(timestamp as nat)] + arguments(command))
}

/// The hash of `bytes`: what the default hasher of the standard library gives
/// after one write of them.
pub open spec fn digest(bytes: Seq<u8>) -> u64 {
    DefaultHasher::spec_finish(seq![bytes])
}

/// The address of the run of `command` that began at `timestamp`: the numeral
/// of the hash of what is hashed for it.
pub open spec fn address_of(timestamp: u64, command: Seq<Seq<char>>) -> Seq<char> {
    numeral(digest(hashed(timestamp, command)) as nat)
}

/// The row of the run of `command` that began at `timestamp`, as it stands in
/// the index.
pub open spec fn entry_row(timestamp: u64, command: Seq<Seq<char>>) -> Seq<Value> {
    seq![
        Value::Long(timestamp),
        Value::Text(join(arguments(command), ' ')),
        Value::Text(address_of(timestamp, command)),
    ]
}

/// What the entries of an index hold, in order.
pub open spec fn views(entries: Seq<IndexEntry>) -> Seq<Entry> {
    Seq::new(entries.len(), |i: int| entries[i]@)
}

/// What a row of the index holds.
pub open spec fn entry_of(r: Seq<Value>) -> Entry {
    Entry { timestamp: whole_of(r[0]), command: rendered(r[1]), address: rendered(r[2]) }
}

/// The lines of the runs in an index text: all but the header, which comes
/// first.
pub open spec fn run_lines(index: Seq<Seq<char>>) -> Seq<Seq<char>> {
    if index.len() == 0 {
        index
    } else {
        index.drop_first()
    }
}

/// Whether the line of a run decodes.
pub open spec fn readable(line: Seq<char>) -> bool {
    decoded(index_schema(), line) is Some
}

/// What the lines of runs hold, in order.
pub open spec fn entries_of(lines: Seq<Seq<char>>) -> Seq<Entry> {
    Seq::new(lines.len(), |i: int| entry_of(decoded(index_schema(), lines[i]).unwrap()))
}

/// The row of a run in a listing: its address, when it began, its command, and
/// its summary.
pub open spec fn listing_row(entry: Entry, profile: Profile) -> Seq<Value> {
    seq![
        Value::Text(entry.address),
        Value::Long(entry.timestamp),
        Value::Text(entry.command),
        Value::Float(profile.elapsed),
        Value::Long(profile.real_peak),
        Value::Long(profile.virtual_peak),
    ]
}

/// Whether no argument of `command` holds the delimiter of fields.
pub open spec fn plain(command: Seq<Seq<char>>) -> bool {
    forall|i: int|
        0 <= i < arguments(command).len() ==> free_of(#[trigger] arguments(command)[i], DELIMITER)
}

/// The line of a run in the index decodes to the row of the run, where no
/// argument of its command holds the delimiter of fields.
pub proof fn lemma_entry_round_trip(timestamp: u64, command: Seq<Seq<char>>)
    requires
        plain(command),
    ensures
        decoded(index_schema(), line_of(entry_row(timestamp, command))) == Some(
            entry_row(timestamp, command),
        ),
        entry_of(entry_row(timestamp, command)) == (Entry {
            timestamp,
            command: join(arguments(command), ' '),
            address: address_of(timestamp, command),
        }),
{
    let r = entry_row(timestamp, command);
    let hash = digest(hashed(timestamp, command));
    lemma_join_free(arguments(command), ' ', DELIMITER);
    lemma_number_plain(Value::Long(hash));
    assert(delimiter_free(r));
    assert(rendered(r.last()) == numeral(hash as nat));
    lemma_line_round_trip(index_schema(), r);
}

/// The bytes of one character do not hold the byte that ends a text.
proof fn lemma_scalar_holds_no_end(scalar: u32)
    ensures
        forall|i: int|
            0 <= i < vstd::utf8::encode_scalar(scalar).len() ==> vstd::utf8::encode_scalar(
                scalar,
            )[i] != END,
{
    assert((scalar & 0x7F) as u8 != 0xffu8) by (bit_vector);
    assert(0xC0u8 | ((scalar >> 6) & 0x1F) as u8 != 0xffu8) by (bit_vector);
    assert(0xE0u8 | ((scalar >> 12) & 0x0F) as u8 != 0xffu8) by (bit_vector);
    assert(0xF0u8 | ((scalar >> 18) & 0x7) as u8 != 0xffu8) by (bit_vector);
    assert(0x80u8 | (scalar & 0x3F) as u8 != 0xffu8) by (bit_vector);
    assert(0x80u8 | ((scalar >> 6) & 0x3F) as u8 != 0xffu8) by (bit_vector);
    assert(0x80u8 | ((scalar >> 12) & 0x3F) as u8 != 0xffu8) by (bit_vector);
}

/// The bytes of a text do not hold the byte that ends a text.
pub proof fn lemma_text_holds_no_end(text: Seq<char>)
    ensures
        forall|i: int| 0 <= i < encode_utf8(text).len() ==> encode_utf8(text)[i] != END,
    decreases text.len(),
{
    if text.len() > 0 {
        let head = vstd::utf8::encode_scalar(text[0] as u32);
        let tail = encode_utf8(text.drop_first());
        lemma_scalar_holds_no_end(text[0] as u32);
        lemma_text_holds_no_end(text.drop_first());
        assert(encode_utf8(text) == head + tail);
        assert forall|i: int| 0 <= i < encode_utf8(text).len() implies encode_utf8(text)[i]
            != END by {
            if i < head.len() {
                assert(encode_utf8(text)[i] == head[i]);
            } else {
                assert(encode_utf8(text)[i] == tail[i - head.len()]);
            }
        }
    }
}

/// Texts that are ended to the same bytes are the same texts.
pub proof fn lemma_ended_apart(a: Seq<Seq<char>>, b: Seq<Seq<char>>)
    requires
        ended(a) == ended(b),
    ensures
        a == b,
    decreases a.len(),
{
    broadcast use vstd::utf8::encode_utf8_decode_utf8;

    let s = ended(a);
    if a.len() == 0 || b.len() == 0 {
        assert(a.len() == 0 ==> s.len() == 0);
        assert(b.len() == 0 ==> s.len() == 0);
        assert(a =~= b);
    } else {
        let x = encode_utf8(a.last());
        let y = encode_utf8(b.last());
        let front = ended(a.drop_last());
        let other = ended(b.drop_last());
        lemma_text_holds_no_end(a.last());
        lemma_text_holds_no_end(b.last());
        assert(s.len() == front.len() + x.len() + 1);
        assert(s.len() == other.len() + y.len() + 1);
        if x.len() < y.len() {
            assert(a.drop_last().len() > 0);
            assert(front.last() == END);
            assert(s[front.len() - 1] == front.last());
            assert(s[front.len() - 1] == y[front.len() - 1 - other.len()]);
        } else if y.len() < x.len() {
            assert(b.drop_last().len() > 0);
            assert(other.last() == END);
            assert(s[other.len() - 1] == other.last());
            assert(s[other.len() - 1] == x[other.len() - 1 - front.len()]);
        }
        assert(x.len() == y.len());
        assert(x =~= y) by {
            assert forall|i: int| 0 <= i < x.len() implies x[i] == y[i] by {
                assert(s[front.len() + i] == x[i]);
                assert(ended(b)[other.len() + i] == y[i]);
            }
        }
        assert(front =~= other) by {
            assert forall|i: int| 0 <= i < front.len() implies front[i] == other[i] by {
                assert(s[i] == front[i]);
                assert(ended(b)[i] == other[i]);
            }
        }
        assert(vstd::utf8::decode_utf8(x) == a.last());
        assert(vstd::utf8::decode_utf8(y) == b.last());
        lemma_ended_apart(a.drop_last(), b.drop_last());
        assert(a =~= a.drop_last().push(a.last()));
        assert(b =~= b.drop_last().push(b.last()));
    }
}

/// Runs that differ are hashed apart: where the same bytes are hashed for two
/// runs, the runs began at the same time and their commands have the same
/// arguments. So two runs that differ get one address only where the hash
/// itself gives two inputs one value.
pub proof fn lemma_hashed_apart(
    timestamp: u64,
    command: Seq<Seq<char>>,
    other_timestamp: u64,
    other_command: Seq<Seq<char>>,
)
    requires
        command.len() >= 1,
        other_command.len() >= 1,
        hashed(timestamp, command) == hashed(other_timestamp, other_command),
    ensures
        timestamp == other_timestamp,
        arguments(command) == arguments(other_command),
{
    let a = seq![numeral(timestamp as nat)] + arguments(command);
    let b = seq![numeral(other_timestamp as nat)] + arguments(other_command);
    lemma_ended_apart(a, b);
    assert(a[0] == numeral(timestamp as nat));
    assert(b[0] == numeral(other_timestamp as nat));
    lemma_numeral(timestamp as nat);
    lemma_numeral(other_timestamp as nat);
    assert(numeral_value(a[0]) == numeral_value(b[0]));
    assert forall|k: int| 0 <= k < arguments(command).len() implies arguments(command)[k]
        == arguments(other_command)[k] by {
        assert(a[k + 1] == arguments(command)[k]);
        assert(b[k + 1] == arguments(other_command)[k]);
    }
    assert(arguments(command) =~= arguments(other_command));
}

/// Runs are listed in the order in which they were recorded: where the lines
/// of the runs of an index are those of the runs of `commands` that began at
/// `stamps`, in order, every line decodes, and the entries of the index are
/// those runs, in that order.
pub proof fn lemma_listed_in_order(
    index: Seq<Seq<char>>,
    stamps: Seq<u64>,
    commands: Seq<Seq<Seq<char>>>,
)
    requires
        index.len() == stamps.len() + 1,
        commands.len() == stamps.len(),
        forall|i: int| 0 <= i < commands.len() ==> plain(#[trigger] commands[i]),
        forall|i: int|
            0 <= i < stamps.len() ==> #[trigger] run_lines(index)[i] == line_of(
                entry_row(stamps[i], commands[i]),
            ),
    ensures
        forall|i: int| 0 <= i < stamps.len() ==> readable(#[trigger] run_lines(index)[i]),
        entries_of(run_lines(index)) == Seq::new(
            stamps.len(),
            |i: int| entry_of(entry_row(stamps[i], commands[i])),
        ),
{
    assert forall|i: int| 0 <= i < stamps.len() implies decoded(
        index_schema(),
        #[trigger] run_lines(index)[i],
    ) == Some(entry_row(stamps[i], commands[i])) by {
        lemma_entry_round_trip(stamps[i], commands[i]);
    }
    assert(entries_of(run_lines(index)) =~= Seq::new(
        stamps.len(),
        |i: int| entry_of(entry_row(stamps[i], commands[i])),
    ));
}

/// The home directory of the user, by `dirs::home_dir`: `None` where it cannot
/// be found, or where its path is no text. Nothing is claimed of the path: it
/// depends on the environment of the process.
#[verifier::external_body]
fn home_dir() -> (home: Option<String>) {
    match dirs::home_dir() {
        Some(path) => path.into_os_string().into_string().ok(),
        None => None,
    }
}

/// The path of `name` under the directory `base`.
pub fn join_path(base: &String, name: &str) -> (path: String)
    ensures
        path@ == joined_path(base@, name@),
{
    let base_len = base.as_str().unicode_len();
    let name_len = name.unicode_len();
    if name_len > 0 && name.get_char(0) == SEPARATOR {
        return String::from_str(name);
    }
    let mut path = base.clone();
    if base_len > 0 && base.as_str().get_char(base_len - 1) != SEPARATOR {
        path.push(SEPARATOR);
    }
    path.append(name);
    path
}

/// The fields of the schema of the line of a run in the index.
fn schema() -> (fields: Vec<Field>)
    ensures
        row(fields@) == index_schema(),
{
    let fields = vec![Field::Long(0), Field::Text(String::new()), Field::Text(String::new())];
    assert(row(fields@) =~= index_schema());
    fields
}

impl IndexEntry {
    /// The row of the run in a listing: its address, when it began, its
    /// command, and the summary of its profile.
    pub fn listing(&self, profile: &Profile) -> (fields: Vec<Field>)
        ensures
            row(fields@) == listing_row(self@, *profile),
    {
        let fields = vec![
            Field::Text(self.address.clone()),
            Field::Long(self.timestamp),
            Field::Text(self.command.clone()),
            Field::Float(profile.elapsed),
            Field::Long(profile.real_peak),
            Field::Long(profile.virtual_peak),
        ];
        assert(row(fields@) =~= listing_row(self@, *profile));
        fields
    }
}

impl Store {
    /// The directory that the store is rooted at.
    pub closed spec fn root(&self) -> Seq<char> {
        self.0@
    }

    /// The path of the index.
    pub open spec fn spec_index_file(&self) -> Seq<char> {
        joined_path(self.root(), index_name())
    }

    /// The path of the directory of the profile texts.
    pub open spec fn spec_cache_dir(&self) -> Seq<char> {
        joined_path(self.root(), cache_name())
    }

    /// A store rooted at the empty path.
    pub fn new() -> (store: Store)
        ensures
            store.root() == Seq::<char>::empty(),
    {
        Store(String::new())
    }

    /// The path of the index.
    pub fn index_file(&self) -> (path: String)
        ensures
            path@ == self.spec_index_file(),
    {
        join_path(&self.0, "index.tsv")
    }

    /// The path of the directory of the profile texts.
    pub fn cache_dir(&self) -> (path: String)
        ensures
            path@ == self.spec_cache_dir(),
    {
        join_path(&self.0, "runs")
    }

    /// The path of the profile text of the run at `address`.
    pub fn profile_file(&self, address: &String) -> (path: String)
        ensures
            path@ == profile_path(self.root(), address@),
    {
        let mut name = address.clone();
        name.append(".tsv");
        join_path(&self.cache_dir(), name.as_str())
    }

    /// The address of the run of `command` that began at `timestamp`.
    pub fn address(timestamp: u64, command: &Vec<String>) -> (address: String)
        requires
            command.len() >= 1,
        ensures
            address@ == address_of(timestamp, texts(command@)),
    {
        let ghost parts = seq![numeral(timestamp as nat)] + arguments(texts(command@));
        let mut time = String::new();
        push_numeral(&mut time, timestamp);
        let mut bytes: Vec<u8> = Vec::new();
        proof {
            reveal_with_fuel(ended, 2);
            assert(parts.take(1).drop_last() =~= Seq::<Seq<char>>::empty());
        }
        bytes.extend_from_slice(time.as_str().as_bytes());
        bytes.push(END);
        assert(bytes@ =~= ended(parts.take(1)));
        let mut i: usize = 1;
        while i < command.len()
            invariant
                1 <= i <= command.len(),
                parts == seq![numeral(timestamp as nat)] + arguments(texts(command@)),
                bytes@ == ended(parts.take(i as int)),
            decreases command.len() - i,
        {
            let ghost before = bytes@;
            assert(parts[i as int] == command[i as int]@);
            assert(parts.take(i + 1).drop_last() =~= parts.take(i as int));
            assert(parts.take(i + 1).last() == parts[i as int]);
            bytes.extend_from_slice(command[i].as_str().as_bytes());
            bytes.push(END);
            assert(bytes@ =~= before + encode_utf8(parts[i as int]).push(END));
            i = i + 1;
        }
        assert(parts.take(command.len() as int) =~= parts);
        let mut hasher = DefaultHasher::new();
        hasher.write(bytes.as_slice());
        assert(hasher@ =~= seq![hashed(timestamp, texts(command@))]);
        let mut address = String::new();
        push_numeral(&mut address, hasher.finish());
        address
    }

    /// Begins the record of the run of `command` at `timestamp`, in seconds
    /// since the epoch. The first text of `command` is the name of the
    /// program; the rest are its arguments.
    ///
    /// Gives the address of the run, the line to append to the index, the path
    /// of the profile text to create and the header line to begin it with, and
    /// the blank summary of the run.
    pub fn create_record(&self, timestamp: u64, command: &Vec<String>) -> (recording: Recording)
        requires
            command.len() >= 1,
        ensures
            recording.address@ == address_of(timestamp, texts(command@)),
            recording.entry@ == encoded(entry_row(timestamp, texts(command@))),
            recording.path@ == profile_path(self.root(), recording.address@),
            recording.header@ == encoded(header_row()),
            recording.profile == blank(),
    {
        let ghost args = arguments(texts(command@));
        let address = Store::address(timestamp, command);
        let mut joined = String::new();
        let mut i: usize = 1;
        assert(args.take(0) =~= Seq::<Seq<char>>::empty());
        while i < command.len()
            invariant
                1 <= i <= command.len(),
                args == arguments(texts(command@)),
                joined@ == join(args.take(i - 1), ' '),
            decreases command.len() - i,
        {
            proof {
                lemma_join_push(args.take(i - 1), args[i - 1], ' ');
                assert(args.take(i as int) =~= args.take(i - 1).push(args[i - 1]));
            }
            if i > 1 {
                joined.push(' ');
            }
            joined.append(command[i].as_str());
            i = i + 1;
        }
        assert(args.take(command.len() - 1) =~= args);
        let fields = vec![Field::Long(timestamp), Field::Text(joined), Field::Text(address.clone())];
        assert(row(fields@) =~= entry_row(timestamp, texts(command@)));
        let entry = crate::tsv::format(&fields);
        let path = self.profile_file(&address);
        let (profile, header) = Profile::new();
        Recording { address, entry, path, header, profile }
    }

    /// The path of the profile text of the run at `position` in the index,
    /// whose lines are `index`; the oldest run is at position zero.
    ///
    /// Fails with `IndexBoundsFailure` where the index holds no more than
    /// `position` runs, and with `DecodeFailure` where the line of the run does
    /// not decode.
    pub fn get_profile(&self, index: &Vec<String>, position: u32) -> (r: Result<String, StoreError>)
        ensures
            position >= run_lines(texts(index@)).len() ==> r == Err::<String, StoreError>(
                StoreError::IndexBoundsFailure(position),
            ),
            position < run_lines(texts(index@)).len() ==> {
                let line = run_lines(texts(index@))[position as int];
                match decoded(index_schema(), line) {
                    Some(fields) => r matches Ok(path) && path@ == profile_path(
                        self.root(),
                        entry_of(fields).address,
                    ),
                    None => r == Err::<String, StoreError>(
                        StoreError::DecodeFailure(position as usize),
                    ),
                }
            },
    {
        if index.len() == 0 || position as usize >= index.len() - 1 {
            return Err(StoreError::IndexBoundsFailure(position));
        }
        let line = &index[position as usize + 1];
        assert(run_lines(texts(index@))[position as int] == line@);
        match parse(&schema(), line) {
            Some(fields) => {
                proof {
                    lemma_decoded_matches(index_schema(), line@);
                }
                assert(row(fields@).len() == 3);
                Ok(self.profile_file(&fields[2].to_text()))
            },
            None => Err(StoreError::DecodeFailure(position as usize)),
        }
    }

    /// The runs of the index whose lines are `index`, oldest first.
    ///
    /// Fails with `DecodeFailure` where the line of a run does not decode, at
    /// the position of the first such run.
    pub fn list(&self, index: &Vec<String>) -> (r: Result<Vec<IndexEntry>, StoreError>)
        ensures
            match r {
                Ok(entries) => {
                    &&& forall|i: int|
                        0 <= i < run_lines(texts(index@)).len() ==> readable(
                            #[trigger] run_lines(texts(index@))[i],
                        )
                    &&& entries.len() == run_lines(texts(index@)).len()
                    &&& views(entries@) == entries_of(run_lines(texts(index@)))
                },
                Err(e) => exists|k: int|
                    {
                        &&& 0 <= k < run_lines(texts(index@)).len()
                        &&& e == StoreError::DecodeFailure(k as usize)
                        &&& !readable(#[trigger] run_lines(texts(index@))[k])
                        &&& forall|i: int|
                            0 <= i < k ==> readable(#[trigger] run_lines(texts(index@))[i])
                    },
            },
    {
        let ghost lines = run_lines(texts(index@));
        let fields_of_schema = schema();
        let mut entries: Vec<IndexEntry> = Vec::new();
        let mut i: usize = 1;
        while i < index.len()
            invariant
                1 <= i,
                i <= index.len() || i == 1,
                entries.len() == i - 1,
                lines == run_lines(texts(index@)),
                row(fields_of_schema@) == index_schema(),
                forall|k: int| 0 <= k < entries.len() ==> readable(#[trigger] lines[k]),
                forall|k: int|
                    0 <= k < entries.len() ==> (#[trigger] entries[k])@ == entry_of(
                        decoded(index_schema(), lines[k]).unwrap(),
                    ),
            decreases index.len() - i,
        {
            assert(lines[i - 1] == index[i as int]@);
            let fields = match parse(&fields_of_schema, &index[i]) {
                Some(fields) => fields,
                None => {
                    assert(!readable(lines[i - 1]));
                    return Err(StoreError::DecodeFailure(i - 1));
                },
            };
            proof {
                lemma_decoded_matches(index_schema(), index[i as int]@);
            }
            assert(row(fields@).len() == 3);
            entries.push(
                IndexEntry {
                    timestamp: fields[0].to_long(),
                    command: fields[1].to_text(),
                    address: fields[2].to_text(),
                },
            );
            i = i + 1;
        }
        assert(views(entries@) =~= entries_of(lines));
        Ok(entries)
    }

    /// The store rooted at `dir` under the home directory `home`; `None`
    /// stands for a home directory that could not be found.
    pub fn rooted(home: Option<String>, dir: &String) -> (r: Result<Store, StoreError>)
        ensures
            match home {
                Some(path) => r matches Ok(store) && store.root() == joined_path(path@, dir@),
                None => r matches Err(e) && e == StoreError::HomeNotFound,
            },
    {
        match home {
            Some(path) => Ok(Store(join_path(&path, dir.as_str()))),
            None => Err(StoreError::HomeNotFound),
        }
    }

    /// The store rooted at `dir` under the home directory of the user. Fails
    /// with `HomeNotFound` where that directory cannot be found.
    pub fn setup(dir: &String) -> (r: Result<Store, StoreError>)
        ensures
            match r {
                Ok(store) => exists|home: Seq<char>|
                    store.root() == #[trigger] joined_path(home, dir@),
                Err(e) => e == StoreError::HomeNotFound,
            },
    {
        let home = home_dir();
        let ghost found = home;
        let r = Store::rooted(home, dir);
        proof {
            if let Some(path) = found {
                assert(r.unwrap().root() == joined_path(path@, dir@));
            }
        }
        r
    }

    /// What to do about the index once its directory is there, given what
    /// stands at its path: where nothing does, the header line to create it
    /// with; where a regular file does, nothing.
    ///
    /// Fails with `Corrupt` where something else stands there, and with
    /// `Inaccessible` where the path could not be examined.
    pub fn index_action(state: IndexState) -> (r: Result<Option<String>, StoreError>)
        ensures
            match state {
                IndexState::Missing => r matches Ok(Some(header)) && header@ == encoded(
                    index_header(),
                ),
                IndexState::File => r matches Ok(None),
                IndexState::Other => r matches Err(e) && e == StoreError::Corrupt,
                IndexState::Unknown => r matches Err(e) && e == StoreError::Inaccessible,
            },
    {
        match state {
            IndexState::Missing => {
                let header = vec![
                    Field::Text(String::from_str("Date")),
                    Field::Text(String::from_str("Command")),
                    Field::Text(String::from_str("File")),
                ];
                assert(row(header@) =~= index_header());
                Ok(Some(crate::tsv::format(&header)))
            },
            IndexState::File => Ok(None),
            IndexState::Other => Err(StoreError::Corrupt),
            IndexState::Unknown => Err(StoreError::Inaccessible),
        }
    }
}

} // verus!
