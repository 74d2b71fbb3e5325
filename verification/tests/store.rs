use memprof::profile::Profile;
use memprof::store::{join_path, IndexEntry, IndexState, Store, StoreError};
use memprof::tsv::Field;
use std::collections::hash_map::DefaultHasher;
use std::hash::Hasher;
use std::path::PathBuf;

const HEADER: &str = "Date\tCommand\tFile";

fn texts(words: &[&str]) -> Vec<String> {
    words.iter().map(|word| String::from(*word)).collect()
}

fn home() -> Store {
    Store::rooted(Some(String::from("/home/alice")), &String::from(".memprof")).unwrap()
}

fn hash_of(timestamp: u64, arguments: &[&str]) -> u64 {
    let mut bytes = Vec::from(timestamp.to_string().as_bytes());

    bytes.push(0xff);
    for argument in arguments {
        bytes.extend_from_slice(argument.as_bytes());
        bytes.push(0xff);
    }

    let mut hasher = DefaultHasher::new();

    hasher.write(&bytes);
    hasher.finish()
}

#[test]
fn new_store_is_rooted_at_the_empty_path() {
    let store = Store::new();

    assert_eq!(store.index_file(), "index.tsv");
    assert_eq!(store.cache_dir(), "runs");
    assert_eq!(store.profile_file(&String::from("42")), "runs/42.tsv");
}

#[test]
fn rooted_store_lies_under_the_home_directory() {
    let store = home();

    assert_eq!(store.index_file(), "/home/alice/.memprof/index.tsv");
    assert_eq!(store.cache_dir(), "/home/alice/.memprof/runs");
    assert_eq!(
        store.profile_file(&String::from("42")),
        "/home/alice/.memprof/runs/42.tsv"
    );
}

#[test]
fn rooted_store_without_a_home_directory() {
    let store = Store::rooted(None, &String::from(".memprof"));

    assert_eq!(store.err(), Some(StoreError::HomeNotFound));
}

#[test]
fn rooted_store_at_a_path_from_the_root() {
    let store = Store::rooted(Some(String::from("/home/alice")), &String::from("/var/memprof"));

    assert_eq!(store.unwrap().index_file(), "/var/memprof/index.tsv");
}

#[test]
fn setup_roots_the_store_under_the_home_directory_of_the_user() {
    let store = Store::setup(&String::from(".memprof"));

    match dirs::home_dir() {
        Some(path) => {
            let index = path.join(".memprof").join("index.tsv");

            assert_eq!(PathBuf::from(store.unwrap().index_file()), index);
        }
        None => assert_eq!(store.err(), Some(StoreError::HomeNotFound)),
    }
}

#[test]
fn join_path_joins_as_the_standard_library_does() {
    for base in ["", "/", "a", "a/", "/a/b", "/a/b/", "a//", "\u{e9}"] {
        for name in ["index.tsv", "runs", "", "/", "/x", "x/y", "x/", "\u{4e16}.tsv"] {
            let expected = PathBuf::from(base).join(name);

            assert_eq!(
                PathBuf::from(join_path(&String::from(base), name)),
                expected
            );
            assert_eq!(
                join_path(&String::from(base), name),
                expected.to_str().unwrap()
            );
        }
    }
}

#[test]
fn index_action_for_each_state() {
    assert_eq!(
        Store::index_action(IndexState::Missing),
        Ok(Some(String::from("Date\tCommand\tFile\n")))
    );
    assert_eq!(Store::index_action(IndexState::File), Ok(None));
    assert_eq!(
        Store::index_action(IndexState::Other),
        Err(StoreError::Corrupt)
    );
    assert_eq!(
        Store::index_action(IndexState::Unknown),
        Err(StoreError::Inaccessible)
    );
}

#[test]
fn address_is_the_hash_of_the_time_and_each_argument() {
    let command = texts(&["memprof", "sleep", "1"]);
    let address = Store::address(1_600_000_000, &command);

    assert_eq!(address, hash_of(1_600_000_000, &["sleep", "1"]).to_string());
}

#[test]
fn address_leaves_the_name_of_the_program_out() {
    let a = Store::address(7, &texts(&["memprof", "ls", "-l"]));
    let b = Store::address(7, &texts(&["/usr/bin/memprof", "ls", "-l"]));

    assert_eq!(a, b);
    assert_eq!(a, hash_of(7, &["ls", "-l"]).to_string());
}

#[test]
fn address_of_a_command_without_arguments() {
    let address = Store::address(0, &texts(&["memprof"]));

    assert_eq!(address, hash_of(0, &[]).to_string());
}

#[test]
fn address_of_arguments_that_are_not_ascii() {
    let address = Store::address(u64::MAX, &texts(&["memprof", "\u{e9}cho", "\u{4e16}\u{754c}"]));

    assert_eq!(
        address,
        hash_of(u64::MAX, &["\u{e9}cho", "\u{4e16}\u{754c}"]).to_string()
    );
}

#[test]
fn address_is_the_same_for_the_same_run() {
    let command = texts(&["memprof", "sleep", "1"]);

    assert_eq!(
        Store::address(1_600_000_000, &command),
        Store::address(1_600_000_000, &command)
    );
    assert_eq!(
        home().create_record(1_600_000_000, &command),
        home().create_record(1_600_000_000, &command)
    );
}

#[test]
fn address_differs_between_these_runs() {
    let sleep = texts(&["memprof", "sleep", "1"]);
    let list = texts(&["memprof", "ls"]);

    assert_ne!(
        Store::address(1_600_000_000, &sleep),
        Store::address(1_600_000_000, &list)
    );
    assert_ne!(
        Store::address(1_600_000_000, &sleep),
        Store::address(1_600_000_001, &sleep)
    );
}

#[test]
fn create_record_gives_what_a_run_begins_with() {
    let command = texts(&["memprof", "sleep", "1"]);
    let recording = home().create_record(1_600_000_000, &command);
    let address = hash_of(1_600_000_000, &["sleep", "1"]).to_string();

    assert_eq!(recording.address, address);
    assert_eq!(
        recording.entry,
        format!("1600000000\tsleep 1\t{}\n", address)
    );
    assert_eq!(
        recording.path,
        format!("/home/alice/.memprof/runs/{}.tsv", address)
    );
    assert_eq!(
        recording.header,
        "Time (s)\tReal Size (kB)\tReal Peak (kB)\tVirtual Size (kB)\tVirtual Peak (kB)\n"
    );
    assert_eq!(
        recording.profile,
        Profile {
            elapsed: 0,
            real_peak: 0,
            virtual_peak: 0
        }
    );
}

#[test]
fn create_record_of_a_command_without_arguments() {
    let recording = Store::new().create_record(5, &texts(&["memprof"]));
    let address = hash_of(5, &[]).to_string();

    assert_eq!(recording.entry, format!("5\t\t{}\n", address));
    assert_eq!(recording.path, format!("runs/{}.tsv", address));
}

fn index_of(runs: &[(u64, Vec<String>)]) -> Vec<String> {
    let store = home();
    let mut text = String::from("Date\tCommand\tFile\n");

    for (timestamp, command) in runs {
        text.push_str(&store.create_record(*timestamp, command).entry);
    }
    text.lines().map(String::from).collect()
}

fn three_runs() -> Vec<(u64, Vec<String>)> {
    vec![
        (1_600_000_000, texts(&["memprof", "sleep", "1"])),
        (1_600_000_050, texts(&["memprof", "ls", "-l", "/tmp"])),
        (1_600_000_050, texts(&["memprof", "true"])),
    ]
}

#[test]
fn list_gives_every_run_in_the_order_of_the_index() {
    let runs = three_runs();
    let entries = home().list(&index_of(&runs)).unwrap();

    assert_eq!(entries.len(), 3);
    assert_eq!(
        entries,
        vec![
            IndexEntry {
                timestamp: 1_600_000_000,
                command: String::from("sleep 1"),
                address: hash_of(1_600_000_000, &["sleep", "1"]).to_string(),
            },
            IndexEntry {
                timestamp: 1_600_000_050,
                command: String::from("ls -l /tmp"),
                address: hash_of(1_600_000_050, &["ls", "-l", "/tmp"]).to_string(),
            },
            IndexEntry {
                timestamp: 1_600_000_050,
                command: String::from("true"),
                address: hash_of(1_600_000_050, &["true"]).to_string(),
            },
        ]
    );
}

#[test]
fn list_of_an_index_without_runs() {
    assert_eq!(home().list(&texts(&[HEADER])), Ok(Vec::new()));
    assert_eq!(home().list(&Vec::new()), Ok(Vec::new()));
}

#[test]
fn list_skips_the_first_line_whatever_it_holds() {
    let index = texts(&["1\tls\t42", "2\ttrue\t43"]);

    assert_eq!(
        home().list(&index),
        Ok(vec![IndexEntry {
            timestamp: 2,
            command: String::from("true"),
            address: String::from("43"),
        }])
    );
}

#[test]
fn list_fails_at_the_first_line_that_does_not_decode() {
    let short = texts(&[HEADER, "1\tls\t42", "2\ttrue", "x\ttrue\t43"]);
    let wrong = texts(&[HEADER, "one\tls\t42", "2\ttrue"]);
    let empty = texts(&[HEADER, "1\tls\t42", "2\ttrue\t43", ""]);
    let tabbed = texts(&[HEADER, "1\tls\t-l\t42"]);

    assert_eq!(home().list(&short), Err(StoreError::DecodeFailure(1)));
    assert_eq!(home().list(&wrong), Err(StoreError::DecodeFailure(0)));
    assert_eq!(home().list(&empty), Err(StoreError::DecodeFailure(2)));
    assert_eq!(home().list(&tabbed), Err(StoreError::DecodeFailure(0)));
}

#[test]
fn listing_holds_the_run_and_its_summary() {
    let entry = IndexEntry {
        timestamp: 1_600_000_000,
        command: String::from("sleep 1"),
        address: String::from("42"),
    };
    let profile = Profile {
        elapsed: 1_000_250,
        real_peak: 916,
        virtual_peak: 8264,
    };

    assert_eq!(
        entry.listing(&profile),
        vec![
            Field::Text(String::from("42")),
            Field::Long(1_600_000_000),
            Field::Text(String::from("sleep 1")),
            Field::Float(1_000_250),
            Field::Long(916),
            Field::Long(8264),
        ]
    );
}

#[test]
fn get_profile_gives_the_path_of_the_profile_of_the_run() {
    let runs = three_runs();
    let index = index_of(&runs);
    let store = home();

    assert_eq!(
        store.get_profile(&index, 0),
        Ok(format!(
            "/home/alice/.memprof/runs/{}.tsv",
            hash_of(1_600_000_000, &["sleep", "1"])
        ))
    );
    assert_eq!(
        store.get_profile(&index, 2),
        Ok(format!(
            "/home/alice/.memprof/runs/{}.tsv",
            hash_of(1_600_000_050, &["true"])
        ))
    );
}

#[test]
fn get_profile_of_a_position_past_the_last_run() {
    let runs = three_runs();
    let index = index_of(&runs);
    let store = home();

    assert_eq!(
        store.get_profile(&index, 3),
        Err(StoreError::IndexBoundsFailure(3))
    );
    assert_eq!(
        store.get_profile(&index, 4),
        Err(StoreError::IndexBoundsFailure(4))
    );
    assert_eq!(
        store.get_profile(&index, u32::MAX),
        Err(StoreError::IndexBoundsFailure(u32::MAX))
    );
}

#[test]
fn get_profile_of_an_index_without_runs() {
    let store = home();

    assert_eq!(
        store.get_profile(&texts(&[HEADER]), 0),
        Err(StoreError::IndexBoundsFailure(0))
    );
    assert_eq!(
        store.get_profile(&Vec::new(), 0),
        Err(StoreError::IndexBoundsFailure(0))
    );
}

#[test]
fn get_profile_of_a_line_that_does_not_decode() {
    let index = texts(&[HEADER, "1\tls\t42", "2\ttrue"]);
    let store = home();

    assert_eq!(
        store.get_profile(&index, 0),
        Ok(String::from("/home/alice/.memprof/runs/42.tsv"))
    );
    assert_eq!(
        store.get_profile(&index, 1),
        Err(StoreError::DecodeFailure(1))
    );
}

#[test]
fn address_keeps_the_arguments_apart() {
    let a = texts(&["memprof", "a", "bc"]);
    let b = texts(&["memprof", "ab", "c"]);
    let c = texts(&["memprof", "abc"]);
    let d = texts(&["memprof", "abc", ""]);

    assert_ne!(Store::address(100, &a), Store::address(100, &b));
    assert_ne!(Store::address(100, &a), Store::address(100, &c));
    assert_ne!(Store::address(100, &c), Store::address(100, &d));
    assert_ne!(
        home().create_record(100, &a).address,
        home().create_record(100, &b).address
    );
    assert_ne!(
        home().create_record(100, &a).path,
        home().create_record(100, &b).path
    );
    assert_ne!(
        Store::address(1, &texts(&["memprof", "00"])),
        Store::address(10, &texts(&["memprof", "0"]))
    );
}
