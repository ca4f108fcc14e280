use sstable::disktable::data_file::DataFile;
use sstable::disktable::index_file::IndexEntry;
use sstable::disktable::{
    generation_from_digits, generations_from_digits, latest_from_digits, FileDisktable, FindStep,
    GENERATION_GROUP, GENERATION_PATTERN,
};
use sstable::memtable::MemtableEntries;
use std::collections::HashMap;

type Dir = HashMap<String, Vec<u8>>;

fn s(text: &str) -> String {
    text.to_string()
}

fn names(list: &[&str]) -> Vec<String> {
    list.iter().map(|name| name.to_string()).collect()
}

fn snapshot(sets: &[(&str, &str)], deletes: &[&str]) -> MemtableEntries<String, String> {
    let mut entries: MemtableEntries<String, String> = MemtableEntries::new();
    for (key, value) in sets {
        entries.put(key.to_string(), Some(value.to_string()));
    }
    for key in deletes {
        entries.put(key.to_string(), None);
    }
    entries
}

fn read<'a>(dir: &'a Dir, name: &str) -> Option<&'a [u8]> {
    dir.get(name).map(|content| content.as_slice())
}

fn find(table: &FileDisktable, dir: &Dir, key: &str) -> Option<String> {
    let mut step = table.find(key);
    loop {
        step = match step {
            FindStep::Done(answer) => return answer,
            FindStep::ReadIndex(data_gen) => {
                let name = table.index_file(data_gen).file_name();
                table.find_in_index(key, data_gen, read(dir, &name))
            }
            FindStep::ReadData(entry) => {
                let name = DataFile::of(table.dir_name(), entry.data_gen).file_name();
                table.find_in_data(key, entry, read(dir, &name))
            }
        };
    }
}

fn flush(table: &mut FileDisktable, dir: &mut Dir, entries: MemtableEntries<String, String>) {
    let plan = table.flush(entries);
    dir.insert(plan.data_file.file_name(), plan.data);
    dir.insert(plan.index_file.file_name(), plan.index);
    assert_eq!(table.finish_flush::<String>(Ok(())), Ok(()));
}

fn clear(table: &mut FileDisktable, dir: &mut Dir) {
    for (data_file, index_file) in table.clear() {
        dir.remove(&data_file.file_name());
        dir.remove(&index_file.file_name());
    }
    assert_eq!(table.finish_clear::<String>(Ok(())), Ok(()));
}

fn file_names(dir: &Dir) -> Vec<String> {
    dir.keys().cloned().collect()
}

#[test]
fn generations_are_taken_from_the_names_of_data_files() {
    let list = FileDisktable::get_data_gens(&names(&[
        "data_12", "index_12", "data_1", "notes.txt", "data_x", "data_", "data_3",
    ]));
    assert_eq!(list, vec![1, 3, 12]);
}

#[test]
fn generation_pattern_is_what_the_regex_crate_matches() {
    assert_eq!(GENERATION_PATTERN, "_(?P<gen>\\d+)");
    assert_eq!(GENERATION_GROUP, "gen");
    assert_eq!(FileDisktable::get_data_gens(&names(&["data_7"])), vec![7]);
    assert_eq!(FileDisktable::get_data_gens(&names(&["old_data_7.bak"])), vec![7]);
    assert_eq!(FileDisktable::get_data_gens(&names(&["data_7_data_9"])), vec![7]);
    assert_eq!(FileDisktable::get_data_gens(&names(&["data_007"])), vec![7]);
    assert_eq!(FileDisktable::get_data_gens(&names(&["data7"])), Vec::<i32>::new());
    assert_eq!(FileDisktable::get_data_gens(&names(&["DATA_7"])), Vec::<i32>::new());
    assert_eq!(FileDisktable::get_data_gens(&names(&["index_7"])), Vec::<i32>::new());
}

#[test]
fn names_whose_digits_write_no_generation_are_passed_over() {
    let list = FileDisktable::get_data_gens(&names(&[
        "data_2147483647",
        "data_2147483648",
        "data_99999999999999999999",
        "data_٣",
        "data_5",
    ]));
    assert_eq!(list, vec![5, 2147483647]);
}

#[test]
fn equal_generations_are_all_kept() {
    let list = FileDisktable::get_data_gens(&names(&["data_2", "data_02", "data_1", "x_data_2"]));
    assert_eq!(list, vec![1, 2, 2, 2]);
}

#[test]
fn latest_generation_is_the_greatest_or_zero() {
    assert_eq!(FileDisktable::get_latest_data_gen(&names(&[])), 0);
    assert_eq!(FileDisktable::get_latest_data_gen(&names(&["index_9", "readme"])), 0);
    assert_eq!(FileDisktable::get_latest_data_gen(&names(&["data_0"])), 0);
    assert_eq!(FileDisktable::get_latest_data_gen(&names(&["data_2", "data_10", "data_9"])), 10);
}

#[test]
fn digits_give_a_generation() {
    assert_eq!(generation_from_digits(&Some(s("12"))), Some(12));
    assert_eq!(generation_from_digits(&Some(s("0"))), Some(0));
    assert_eq!(generation_from_digits(&Some(s(""))), None);
    assert_eq!(generation_from_digits(&Some(s("1x"))), None);
    assert_eq!(generation_from_digits(&Some(s("2147483648"))), None);
    assert_eq!(generation_from_digits(&None), None);
}

#[test]
fn generations_come_out_in_ascending_order() {
    let digits = vec![
        Some(s("5")),
        None,
        Some(s("1")),
        Some(s("3")),
        Some(s("x")),
        Some(s("03")),
        Some(s("9")),
        Some(s("0")),
        Some(s("5")),
    ];
    assert_eq!(generations_from_digits(&digits), vec![0, 1, 3, 3, 5, 5, 9]);
    assert_eq!(generations_from_digits(&vec![None, None]), Vec::<i32>::new());
    assert_eq!(generations_from_digits(&vec![]), Vec::<i32>::new());
}

#[test]
fn new_table_starts_at_the_latest_generation() {
    let table = FileDisktable::new("dir", &names(&["data_1", "index_1", "data_2", "index_2"]));
    assert_eq!(table.data_gen(), 2);
    assert_eq!(table.dir_name(), "dir");
    assert!(!table.is_flushing());
    let empty = FileDisktable::new("other", &names(&[]));
    assert_eq!(empty.data_gen(), 0);
}

#[test]
fn lookup_in_an_empty_directory_finds_nothing() {
    let dir = Dir::new();
    let table = FileDisktable::new("dir", &file_names(&dir));
    assert_eq!(table.find("a"), FindStep::ReadIndex(0));
    assert_eq!(table.find_in_index("a", 0, None), FindStep::Done(None));
    assert_eq!(find(&table, &dir, "a"), None);
}

#[test]
fn flush_round_trip() {
    let mut dir = Dir::new();
    let mut table = FileDisktable::new("dir", &file_names(&dir));
    flush(&mut table, &mut dir, snapshot(&[("a", "1"), ("b", "2")], &["c"]));
    assert_eq!(table.data_gen(), 1);
    assert!(!table.is_flushing());
    assert_eq!(find(&table, &dir, "a"), Some(s("1")));
    assert_eq!(find(&table, &dir, "b"), Some(s("2")));
    assert_eq!(find(&table, &dir, "c"), None);
    assert_eq!(find(&table, &dir, "d"), None);
    let mut written = file_names(&dir);
    written.sort();
    assert_eq!(written, vec![s("data_1"), s("index_1")]);
}

#[test]
fn flush_plans_the_files_of_the_next_generation() {
    let mut table = FileDisktable::new("dir", &names(&["data_4"]));
    let plan = table.flush(snapshot(&[("a", "1")], &[]));
    assert_eq!(plan.data_file.file_name(), "data_5");
    assert_eq!(plan.index_file.file_name(), "index_5");
    assert_eq!(plan.data_file.dir_name(), "dir");
    assert_eq!(plan.index_file.dir_name(), "dir");
    assert_eq!(
        plan.data,
        vec![1, 0, 0, 0, 0, 0, 0, 0, b'a', 0, 1, 0, 0, 0, 0, 0, 0, 0, b'1']
    );
    assert_eq!(plan.index, vec![1, 0, 0, 0, 0, 0, 0, 0, b'a', 0, 0, 0, 0, 0, 0, 0, 0]);
    assert_eq!(table.data_gen(), 4);
    assert!(table.is_flushing());
}

#[test]
fn tombstone_masks_older_generations() {
    let mut dir = Dir::new();
    let mut table = FileDisktable::new("dir", &file_names(&dir));
    flush(&mut table, &mut dir, snapshot(&[("k", "v"), ("other", "1")], &[]));
    assert_eq!(find(&table, &dir, "k"), Some(s("v")));
    flush(&mut table, &mut dir, snapshot(&[], &["k"]));
    assert_eq!(table.data_gen(), 2);
    assert_eq!(find(&table, &dir, "k"), None);
    assert_eq!(find(&table, &dir, "other"), Some(s("1")));
    flush(&mut table, &mut dir, snapshot(&[("unrelated", "x")], &[]));
    assert_eq!(find(&table, &dir, "k"), None);
}

#[test]
fn newest_generation_wins() {
    let mut dir = Dir::new();
    let mut table = FileDisktable::new("dir", &file_names(&dir));
    flush(&mut table, &mut dir, snapshot(&[("k", "old")], &[]));
    flush(&mut table, &mut dir, snapshot(&[("k", "new")], &[]));
    assert_eq!(find(&table, &dir, "k"), Some(s("new")));
}

#[test]
fn value_written_after_a_tombstone_is_found() {
    let mut dir = Dir::new();
    let mut table = FileDisktable::new("dir", &file_names(&dir));
    flush(&mut table, &mut dir, snapshot(&[("k", "1")], &[]));
    flush(&mut table, &mut dir, snapshot(&[], &["k"]));
    flush(&mut table, &mut dir, snapshot(&[("k", "3")], &[]));
    assert_eq!(find(&table, &dir, "k"), Some(s("3")));
}

#[test]
fn recovery_resumes_at_the_latest_generation() {
    let mut dir = Dir::new();
    let mut first = FileDisktable::new("dir", &file_names(&dir));
    flush(&mut first, &mut dir, snapshot(&[("a", "1"), ("both", "old")], &[]));
    flush(&mut first, &mut dir, snapshot(&[("b", "2"), ("both", "new")], &["gone"]));
    let table = FileDisktable::new("dir", &file_names(&dir));
    assert_eq!(table.data_gen(), 2);
    assert_eq!(find(&table, &dir, "a"), Some(s("1")));
    assert_eq!(find(&table, &dir, "b"), Some(s("2")));
    assert_eq!(find(&table, &dir, "both"), Some(s("new")));
    assert_eq!(find(&table, &dir, "gone"), None);
    assert_eq!(find(&table, &dir, "never"), None);
    let mut resumed = table;
    flush(&mut resumed, &mut dir, snapshot(&[("c", "3")], &[]));
    assert_eq!(resumed.data_gen(), 3);
    assert!(dir.contains_key("data_3"));
    assert_eq!(find(&resumed, &dir, "a"), Some(s("1")));
    assert_eq!(find(&resumed, &dir, "c"), Some(s("3")));
}

#[test]
fn clear_twice_leaves_nothing() {
    let mut dir = Dir::new();
    let mut table = FileDisktable::new("dir", &file_names(&dir));
    flush(&mut table, &mut dir, snapshot(&[("a", "1")], &[]));
    flush(&mut table, &mut dir, snapshot(&[("b", "2")], &[]));
    dir.insert(s("notes.txt"), vec![1]);
    clear(&mut table, &mut dir);
    assert_eq!(table.data_gen(), 0);
    assert_eq!(file_names(&dir), vec![s("notes.txt")]);
    assert_eq!(find(&table, &dir, "a"), None);
    clear(&mut table, &mut dir);
    assert_eq!(table.data_gen(), 0);
    assert_eq!(file_names(&dir), vec![s("notes.txt")]);
    flush(&mut table, &mut dir, snapshot(&[("c", "3")], &[]));
    assert_eq!(table.data_gen(), 1);
    assert_eq!(find(&table, &dir, "c"), Some(s("3")));
}

#[test]
fn clear_names_the_files_of_every_generation() {
    let table = FileDisktable::new("dir", &names(&["data_2"]));
    let files = table.clear();
    let listed: Vec<(String, String)> = files
        .iter()
        .map(|(data_file, index_file)| (data_file.file_name(), index_file.file_name()))
        .collect();
    assert_eq!(
        listed,
        vec![
            (s("data_0"), s("index_0")),
            (s("data_1"), s("index_1")),
            (s("data_2"), s("index_2")),
        ]
    );
    assert_eq!(files[1].0.dir_name(), "dir");
    assert_eq!(files[1].1.dir_name(), "dir");
}

#[test]
fn failed_clear_keeps_the_generation() {
    let mut table = FileDisktable::new("dir", &names(&["data_2"]));
    assert_eq!(table.finish_clear(Err(s("busy"))), Err(s("busy")));
    assert_eq!(table.data_gen(), 2);
}

#[test]
fn failed_flush_leaves_the_table_as_it_was() {
    let mut dir = Dir::new();
    let mut table = FileDisktable::new("dir", &file_names(&dir));
    flush(&mut table, &mut dir, snapshot(&[("a", "1"), ("c", "old")], &[]));
    assert_eq!(table.find("a"), FindStep::ReadIndex(1));
    let plan = table.flush(snapshot(&[("a", "2"), ("b", "3")], &["c"]));
    assert!(table.is_flushing());
    dir.insert(plan.data_file.file_name(), plan.data);
    assert_eq!(table.finish_flush(Err(s("disk full"))), Err(s("disk full")));
    assert_eq!(table.data_gen(), 1);
    assert!(!table.is_flushing());
    assert_eq!(table.find("a"), FindStep::ReadIndex(1));
    assert_eq!(table.find("b"), FindStep::ReadIndex(1));
    assert_eq!(table.find("c"), FindStep::ReadIndex(1));
    assert_eq!(find(&table, &dir, "a"), Some(s("1")));
    assert_eq!(find(&table, &dir, "b"), None);
    assert_eq!(find(&table, &dir, "c"), Some(s("old")));
    assert!(dir.contains_key("data_2"));
    flush(&mut table, &mut dir, snapshot(&[("a", "4")], &[]));
    assert_eq!(table.data_gen(), 2);
    assert_eq!(find(&table, &dir, "a"), Some(s("4")));
    assert_eq!(find(&table, &dir, "b"), None);
    assert_eq!(find(&table, &dir, "c"), Some(s("old")));
}

#[test]
fn failed_flush_with_both_files_written_is_not_seen() {
    let mut dir = Dir::new();
    let mut table = FileDisktable::new("dir", &file_names(&dir));
    let plan = table.flush(snapshot(&[("a", "1")], &[]));
    dir.insert(plan.data_file.file_name(), plan.data);
    dir.insert(plan.index_file.file_name(), plan.index);
    assert_eq!(table.finish_flush(Err(s("sync failed"))), Err(s("sync failed")));
    assert_eq!(table.data_gen(), 0);
    assert!(!table.is_flushing());
    assert_eq!(find(&table, &dir, "a"), None);
}

#[test]
fn clear_after_a_failed_flush_finds_nothing() {
    let mut dir = Dir::new();
    let mut table = FileDisktable::new("dir", &file_names(&dir));
    flush(&mut table, &mut dir, snapshot(&[("a", "1")], &[]));
    let _plan = table.flush(snapshot(&[("a", "2")], &[]));
    assert_eq!(table.finish_flush(Err(s("disk full"))), Err(s("disk full")));
    clear(&mut table, &mut dir);
    assert_eq!(table.data_gen(), 0);
    assert!(!table.is_flushing());
    assert_eq!(find(&table, &dir, "a"), None);
}

#[test]
fn snapshot_in_flight_is_asked_first() {
    let mut dir = Dir::new();
    let mut table = FileDisktable::new("dir", &file_names(&dir));
    flush(&mut table, &mut dir, snapshot(&[("a", "old"), ("b", "kept"), ("c", "old")], &[]));
    let _plan = table.flush(snapshot(&[("a", "new")], &["c"]));
    assert_eq!(table.find("a"), FindStep::Done(Some(s("new"))));
    assert_eq!(table.find("c"), FindStep::Done(None));
    assert_eq!(table.find("b"), FindStep::ReadIndex(1));
    assert_eq!(find(&table, &dir, "a"), Some(s("new")));
    assert_eq!(find(&table, &dir, "b"), Some(s("kept")));
    assert_eq!(find(&table, &dir, "c"), None);
}

#[test]
fn steps_go_from_index_to_data_to_the_generation_before() {
    let mut dir = Dir::new();
    let mut table = FileDisktable::new("dir", &file_names(&dir));
    flush(&mut table, &mut dir, snapshot(&[("a", "1"), ("b", "2")], &["c"]));
    flush(&mut table, &mut dir, snapshot(&[("z", "9")], &[]));
    assert_eq!(table.find("b"), FindStep::ReadIndex(2));
    assert_eq!(table.find_in_index("b", 2, read(&dir, "index_2")), FindStep::ReadIndex(1));
    let at = IndexEntry { data_gen: 1, offset: 19 };
    assert_eq!(table.find_in_index("b", 1, read(&dir, "index_1")), FindStep::ReadData(at));
    assert_eq!(table.find_in_data("b", at, read(&dir, "data_1")), FindStep::Done(Some(s("2"))));
    let tombstone = IndexEntry { data_gen: 1, offset: 38 };
    assert_eq!(table.find_in_index("c", 1, read(&dir, "index_1")), FindStep::ReadData(tombstone));
    assert_eq!(table.find_in_data("c", tombstone, read(&dir, "data_1")), FindStep::Done(None));
    assert_eq!(table.find_in_index("q", 1, read(&dir, "index_1")), FindStep::ReadIndex(0));
    assert_eq!(table.find_in_index("q", 0, read(&dir, "index_0")), FindStep::Done(None));
    assert_eq!(FileDisktable::next_older(3), FindStep::ReadIndex(2));
    assert_eq!(FileDisktable::next_older(0), FindStep::Done(None));
    assert_eq!(FileDisktable::next_older(-4), FindStep::Done(None));
}

#[test]
fn record_of_another_key_counts_as_no_record() {
    let mut dir = Dir::new();
    let mut table = FileDisktable::new("dir", &file_names(&dir));
    flush(&mut table, &mut dir, snapshot(&[("a", "old a"), ("b", "old b")], &[]));
    flush(&mut table, &mut dir, snapshot(&[("a", "new a"), ("b", "new b")], &[]));
    let skewed = table.index_file(2).create_index(&vec![(s("a"), 29), (s("b"), 0)]);
    dir.insert(s("index_2"), skewed);
    assert_eq!(
        table.find_in_data("a", IndexEntry { data_gen: 2, offset: 29 }, read(&dir, "data_2")),
        FindStep::ReadIndex(1)
    );
    assert_eq!(find(&table, &dir, "a"), Some(s("old a")));
    assert_eq!(find(&table, &dir, "b"), Some(s("old b")));
}

#[test]
fn offset_beyond_the_data_counts_as_no_record() {
    let mut dir = Dir::new();
    let mut table = FileDisktable::new("dir", &file_names(&dir));
    flush(&mut table, &mut dir, snapshot(&[("a", "1")], &[]));
    flush(&mut table, &mut dir, snapshot(&[("a", "2")], &[]));
    let beyond = table.index_file(2).create_index(&vec![(s("a"), 1000)]);
    dir.insert(s("index_2"), beyond);
    assert_eq!(find(&table, &dir, "a"), Some(s("1")));
}

#[test]
fn missing_files_count_as_empty_generations() {
    let mut dir = Dir::new();
    let mut table = FileDisktable::new("dir", &file_names(&dir));
    flush(&mut table, &mut dir, snapshot(&[("a", "1")], &[]));
    flush(&mut table, &mut dir, snapshot(&[("a", "2")], &[]));
    flush(&mut table, &mut dir, snapshot(&[("a", "3")], &[]));
    dir.remove("data_3");
    assert_eq!(find(&table, &dir, "a"), Some(s("2")));
    dir.remove("index_2");
    assert_eq!(find(&table, &dir, "a"), Some(s("1")));
    dir.remove("index_1");
    dir.remove("data_1");
    assert_eq!(find(&table, &dir, "a"), None);
}

#[test]
fn fetch_reads_the_record_at_the_offset() {
    let table = FileDisktable::new("dir", &names(&[]));
    let data: Vec<u8> = vec![
        1, 0, 0, 0, 0, 0, 0, 0, b'k', 0, 2, 0, 0, 0, 0, 0, 0, 0, b'v', b'w', 1, 0, 0, 0, 0, 0, 0,
        0, b't', 1,
    ];
    assert_eq!(table.fetch(1, 0, &data), Some((s("k"), Some(s("vw")))));
    assert_eq!(table.fetch(1, 20, &data), Some((s("t"), None)));
    assert_eq!(table.fetch(1, 30, &data), None);
    assert_eq!(table.fetch(1, 5, &data), None);
}

#[test]
fn with_data_file_hands_over_the_file_of_the_generation() {
    let table = FileDisktable::new("dir", &names(&["data_3"]));
    assert_eq!(table.with_data_file(3, |file| file.file_name()), "data_3");
    assert_eq!(table.with_data_file(8, |file| file.data_gen()), 8);
    assert_eq!(table.with_data_file(1, |file| file.dir_name().to_string()), "dir");
    assert_eq!(table.index_file(6).file_name(), "index_6");
    assert_eq!(table.index_file(6).dir_name(), "dir");
}

#[test]
fn keys_and_values_may_be_any_text() {
    let mut dir = Dir::new();
    let mut table = FileDisktable::new("dir", &file_names(&dir));
    flush(
        &mut table,
        &mut dir,
        snapshot(&[("", "empty key"), ("ключ", "значение"), ("k", "")], &["🗑"]),
    );
    assert_eq!(find(&table, &dir, ""), Some(s("empty key")));
    assert_eq!(find(&table, &dir, "ключ"), Some(s("значение")));
    assert_eq!(find(&table, &dir, "k"), Some(s("")));
    assert_eq!(find(&table, &dir, "🗑"), None);
    assert_eq!(find(&table, &dir, "ключи"), None);
}

#[test]
fn finish_without_a_flush_changes_nothing() {
    let mut table = FileDisktable::new("dir", &names(&["data_2"]));
    assert_eq!(table.finish_flush::<String>(Ok(())), Ok(()));
    assert_eq!(table.data_gen(), 2);
    assert!(!table.is_flushing());
}

#[test]
fn latest_generation_of_given_digits() {
    let digits = vec![Some(s("9")), Some(s("10")), Some(s("2"))];
    assert_eq!(latest_from_digits(&digits), 10);
    assert_eq!(latest_from_digits(&vec![]), 0);
    assert_eq!(latest_from_digits(&vec![None, Some(s("x")), Some(s(""))]), 0);
    assert_eq!(latest_from_digits(&vec![Some(s("0"))]), 0);
    assert_eq!(latest_from_digits(&vec![Some(s("1")), None, Some(s("2")), None]), 2);
    assert_eq!(
        latest_from_digits(&vec![Some(s("2147483648")), Some(s("7")), Some(s("2147483647"))]),
        2147483647
    );
    assert_eq!(latest_from_digits(&vec![Some(s("007")), Some(s("٣"))]), 7);
}

#[test]
fn table_at_a_given_generation() {
    let table = FileDisktable::at_generation("dir", 2);
    assert_eq!(table.data_gen(), 2);
    assert_eq!(table.dir_name(), "dir");
    assert!(!table.is_flushing());
    assert_eq!(table.find("k"), FindStep::ReadIndex(2));
    let start = FileDisktable::at_generation("dir", 0);
    assert_eq!(start.data_gen(), 0);
    assert_eq!(start.clear().len(), 1);
}

#[test]
fn table_at_generation_two_answers_from_both_generations() {
    let mut dir = Dir::new();
    let mut writer = FileDisktable::at_generation("dir", 0);
    flush(&mut writer, &mut dir, snapshot(&[("x", "1"), ("z", "gone soon")], &[]));
    flush(&mut writer, &mut dir, snapshot(&[("y", "2")], &["z"]));
    let table = FileDisktable::at_generation("dir", 2);
    assert_eq!(find(&table, &dir, "x"), Some(s("1")));
    assert_eq!(find(&table, &dir, "y"), Some(s("2")));
    assert_eq!(find(&table, &dir, "z"), None);
    let behind = FileDisktable::at_generation("dir", 1);
    assert_eq!(find(&behind, &dir, "y"), None);
    assert_eq!(find(&behind, &dir, "z"), Some(s("gone soon")));
}
