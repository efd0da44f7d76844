use file_parts::error::FileServiceError;
use file_parts::file_service::merge::{first_positions, first_seen_order, scan_of};
use file_parts::file_service::ordered::in_key_order;
use std::collections::BTreeMap;
use file_parts::file_service::{
    file_merge, file_split, merge_plan, split_blocks, DirEntry, PartFile, PathTarget, ScanEntry,
    SplitStep, Splitter, BLOCK_SIZE,
};

fn sample(len: usize) -> Vec<u8> {
    (0..len).map(|i| (i * 7 + i / 251) as u8).collect()
}

fn file_entry(path: &str, content: &[u8]) -> DirEntry {
    DirEntry { path: path.to_string(), is_dir: false, content: content.to_vec() }
}

fn dir_entry(path: &str) -> DirEntry {
    DirEntry { path: path.to_string(), is_dir: true, content: Vec::new() }
}

fn as_entries(parts: &[PartFile]) -> Vec<DirEntry> {
    parts.iter().map(|part| file_entry(&part.name, &part.content)).collect()
}

fn merged(entries: Vec<DirEntry>) -> Vec<u8> {
    let mut output = Vec::new();
    assert_eq!(file_merge(&PathTarget::Directory(entries), &mut output), Ok(()));
    output
}

fn round_trip(len: usize, block: usize) {
    let content = sample(len);
    let parts = split_blocks("./data/source.bin", &content, block);
    let mut entries = as_entries(&parts);
    entries.reverse();
    entries.insert(0, dir_entry("./data/source.bin_part1.d"));
    entries.push(file_entry("./data/notes.txt", b"not a part"));
    assert_eq!(merged(entries), content, "len {} block {}", len, block);
}

#[test]
fn merge_file_test() {
    let source = sample(300);
    let parts = split_blocks("./jdk-8u361-windows-x64.exe", &source, 128);
    let mut entries = as_entries(&parts);
    entries.push(file_entry("./jdk-8u361-windows-x64.exe", &source));
    let directory = PathTarget::Directory(entries);
    let mut test_name_exe = Vec::new();
    file_merge(&directory, &mut test_name_exe).unwrap();
    let kept = match &directory {
        PathTarget::Directory(entries) => {
            entries.iter().any(|entry| entry.path == "./jdk-8u361-windows-x64.exe")
        },
        _ => false,
    };
    assert!(kept);
    assert_eq!(test_name_exe, source, "merged into {}", "./test_name.exe");
}

#[test]
fn file_split_test() {
    let parts = file_split("./jdk-8u361-windows-x64.exe", &PathTarget::File(sample(1000)))
        .expect("file split is failed");
    assert_eq!(parts.len(), 1);
    assert_eq!(parts[0].name, "./jdk-8u361-windows-x64.exe_part1");
    assert_eq!(parts[0].content, sample(1000));
}

#[test]
fn file_merge_test() {
    let directory = PathTarget::Directory(vec![
        file_entry("./test.aaa.exe_part2", b"world"),
        file_entry("./test.aaa.exe_part1", b"hello "),
    ]);
    let mut output = Vec::new();
    file_merge(&directory, &mut output).expect("file merge failed");
    assert_eq!(output, b"hello world".to_vec(), "merged into {}", "test.aaa.exe");
}

#[test]
fn round_trip_of_an_empty_file() {
    round_trip(0, 16);
}

#[test]
fn round_trip_of_less_than_a_block() {
    round_trip(5, 16);
    round_trip(1, 16);
    round_trip(15, 16);
}

#[test]
fn round_trip_of_exactly_one_block() {
    round_trip(16, 16);
}

#[test]
fn round_trip_of_whole_blocks() {
    round_trip(64, 16);
    round_trip(32, 16);
}

#[test]
fn round_trip_of_blocks_with_a_remainder() {
    round_trip(70, 16);
    round_trip(17, 16);
    round_trip(1000, 7);
}

#[test]
fn round_trip_through_another_spelling_of_the_directory() {
    let content = sample(50);
    let parts = split_blocks("data/source.bin", &content, 8);
    let entries = parts
        .iter()
        .rev()
        .map(|part| {
            let name = part.name.strip_prefix("data/").unwrap();
            file_entry(&format!("/srv/./data//{}", name), &part.content)
        })
        .collect();
    assert_eq!(merged(entries), content);
}

#[test]
fn round_trip_with_blocks_of_one_byte() {
    round_trip(300, 1);
}

#[test]
fn round_trip_with_the_block_size_of_the_service() {
    let content = sample(2 * BLOCK_SIZE + 5);
    let parts = file_split("big.bin", &PathTarget::File(content.clone())).unwrap();
    assert_eq!(parts.len(), 3);
    assert_eq!(parts[0].content.len(), BLOCK_SIZE);
    assert_eq!(parts[1].content.len(), BLOCK_SIZE);
    assert_eq!(parts[2].content.len(), 5);
    assert_eq!(parts[0].name, "big.bin_part1");
    assert_eq!(parts[1].name, "big.bin_part2");
    assert_eq!(parts[2].name, "big.bin_part3");
    let mut entries = as_entries(&parts);
    entries.swap(0, 2);
    assert!(merged(entries) == content);
}

#[test]
fn block_size_is_ten_mebibytes() {
    assert_eq!(BLOCK_SIZE, 10 * 1024 * 1024);
}

#[test]
fn part_count_is_the_size_over_the_block_size_rounded_up() {
    let cases = [(0usize, 4usize, 0usize), (1, 4, 1), (3, 4, 1), (4, 4, 1), (5, 4, 2), (8, 4, 2),
        (9, 4, 3), (100, 1, 100), (100, 100, 1), (100, 101, 1), (100, 99, 2), (7, 3, 3)];
    for (len, block, count) in cases {
        let parts = split_blocks("f", &sample(len), block);
        assert_eq!(parts.len(), count, "len {} block {}", len, block);
    }
}

#[test]
fn an_empty_file_gives_no_part() {
    assert_eq!(file_split("empty", &PathTarget::File(Vec::new())).unwrap().len(), 0);
    assert_eq!(split_blocks("empty", &[], 3).len(), 0);
}

#[test]
fn an_empty_block_cuts_nothing() {
    assert_eq!(split_blocks("f", &sample(10), 0).len(), 0);
}

#[test]
fn parts_are_the_blocks_in_order() {
    let content = sample(10);
    let parts = split_blocks("dir/f.bin", &content, 4);
    assert_eq!(parts.len(), 3);
    assert_eq!(parts[0].name, "dir/f.bin_part1");
    assert_eq!(parts[1].name, "dir/f.bin_part2");
    assert_eq!(parts[2].name, "dir/f.bin_part3");
    assert_eq!(parts[0].content, content[0..4].to_vec());
    assert_eq!(parts[1].content, content[4..8].to_vec());
    assert_eq!(parts[2].content, content[8..10].to_vec());
}

#[test]
fn part_indices_go_past_nine_without_padding() {
    let parts = split_blocks("f", &sample(12), 1);
    assert_eq!(parts[8].name, "f_part9");
    assert_eq!(parts[9].name, "f_part10");
    assert_eq!(parts[11].name, "f_part12");
}

#[test]
fn split_fails_on_what_is_no_file() {
    assert!(matches!(file_split("gone", &PathTarget::Missing), Err(FileServiceError::NotAFile)));
    assert!(matches!(
        file_split("dir", &PathTarget::Directory(Vec::new())),
        Err(FileServiceError::NotAFile)
    ));
}

#[test]
fn merge_fails_on_what_is_no_directory() {
    let mut output = b"kept".to_vec();
    assert_eq!(file_merge(&PathTarget::Missing, &mut output), Err(FileServiceError::NotADirectory));
    assert_eq!(
        file_merge(&PathTarget::File(b"x".to_vec()), &mut output),
        Err(FileServiceError::NotADirectory)
    );
    assert_eq!(output, b"kept".to_vec());
}

#[test]
fn merge_goes_by_index_and_not_by_scan_order() {
    let entries = vec![
        file_entry("d/f_part3", b"three"),
        file_entry("d/f_part1", b"one"),
        file_entry("d/f_part2", b"two"),
    ];
    assert_eq!(merged(entries), b"onetwothree".to_vec());
}

#[test]
fn merge_orders_by_number_and_not_by_text() {
    let entries = vec![
        file_entry("f_part10", b"j"),
        file_entry("f_part9", b"i"),
        file_entry("f_part2", b"b"),
        file_entry("f_part100", b"z"),
        file_entry("f_part0", b"0"),
    ];
    assert_eq!(merged(entries), b"0bijz".to_vec());
}

#[test]
fn merging_twice_appends_twice() {
    let entries = vec![file_entry("f_part2", b"cd"), file_entry("f_part1", b"ab")];
    let directory = PathTarget::Directory(entries);
    let mut output = b"old:".to_vec();
    assert_eq!(file_merge(&directory, &mut output), Ok(()));
    assert_eq!(output, b"old:abcd".to_vec());
    assert_eq!(file_merge(&directory, &mut output), Ok(()));
    assert_eq!(output, b"old:abcdabcd".to_vec());
}

#[test]
fn merge_passes_over_subdirectories_and_other_files() {
    let entries = vec![
        dir_entry("d/sub"),
        file_entry("d/f_part2", b"B"),
        file_entry("d/readme.md", b"no part"),
        dir_entry("d/f_part3"),
        file_entry("d/f_part1", b"A"),
        file_entry("d/f_part", b"no digits"),
    ];
    assert_eq!(merged(entries), b"AB".to_vec());
}

#[test]
fn merge_passes_over_a_name_with_nothing_before_the_mark() {
    let entries = vec![
        file_entry("d/_part1", b"no original name"),
        file_entry("d/f_part2", b"B"),
        file_entry("d/_part70000", b"no part either"),
    ];
    assert_eq!(merged(entries), b"B".to_vec());
}

#[test]
fn merge_of_a_directory_without_parts_appends_nothing() {
    assert_eq!(merged(Vec::new()), Vec::<u8>::new());
    assert_eq!(merged(vec![file_entry("a.txt", b"a"), dir_entry("b_part1")]), Vec::<u8>::new());
}

#[test]
fn of_two_entries_with_one_index_the_first_seen_is_taken() {
    let entries = vec![
        file_entry("d/a_part1", b"first"),
        file_entry("d/b_part1", b"second"),
        file_entry("d/b_part2", b"!"),
        file_entry("d/a_part02", b"?"),
    ];
    assert_eq!(merged(entries), b"first!".to_vec());
}

#[test]
fn merge_takes_parts_of_any_original_name() {
    let entries = vec![file_entry("d/a_part2", b"2"), file_entry("d/b_part1", b"1")];
    assert_eq!(merged(entries), b"12".to_vec());
}

#[test]
fn merge_fails_on_an_index_that_does_not_fit() {
    let entries = vec![file_entry("d/f_part1", b"A"), file_entry("d/f_part65536", b"B")];
    let mut output = b"kept".to_vec();
    assert_eq!(
        file_merge(&PathTarget::Directory(entries), &mut output),
        Err(FileServiceError::InvalidFormat)
    );
    assert_eq!(output, b"kept".to_vec());
    let entries = vec![dir_entry("d/f_part65536"), file_entry("d/f_part65535", b"B")];
    assert_eq!(merged(entries), b"B".to_vec());
}

#[test]
fn merge_plan_lists_the_positions_in_merge_order() {
    let scan = |path: &str, is_dir: bool| ScanEntry { path: path.to_string(), is_dir };
    let entries = vec![
        scan("d/f_part3", false),
        scan("d/sub", true),
        scan("d/f_part1", false),
        scan("d/other", false),
        scan("d/g_part1", false),
        scan("d/f_part2", false),
        scan("d/f_part7", true),
    ];
    assert_eq!(merge_plan(&entries), Ok(vec![2, 5, 0]));
    assert_eq!(merge_plan(&Vec::new()), Ok(Vec::new()));
    let bad = vec![scan("d/f_part1", false), scan("d/f_part70000", false)];
    assert_eq!(merge_plan(&bad), Err(FileServiceError::InvalidFormat));
}

#[test]
fn first_seen_order_of_keys() {
    let keys = vec![Some(5u16), None, Some(0), Some(5), Some(65535), Some(0), None, Some(1)];
    assert_eq!(first_seen_order(&keys), vec![2, 7, 0, 4]);
    assert_eq!(first_seen_order(&Vec::new()), Vec::<usize>::new());
    assert_eq!(first_seen_order(&vec![None, None]), Vec::<usize>::new());
}

#[test]
fn first_positions_keep_the_first_of_each_index() {
    let keys = vec![Some(5u16), None, Some(0), Some(5), Some(65535), Some(0), None, Some(1)];
    let taken = first_positions(&keys);
    let expected: BTreeMap<u16, usize> = [(5, 0), (0, 2), (65535, 4), (1, 7)].into_iter().collect();
    assert_eq!(taken, expected);
    assert!(first_positions(&vec![None, None]).is_empty());
}

#[test]
fn entries_of_a_map_come_by_ascending_key() {
    let mut map: BTreeMap<u16, usize> = BTreeMap::new();
    for (key, value) in [(300u16, 1usize), (2, 9), (65535, 0), (0, 4), (10, 7)] {
        map.insert(key, value);
    }
    assert_eq!(in_key_order(&map), vec![(0, 4), (2, 9), (10, 7), (300, 1), (65535, 0)]);
    assert_eq!(in_key_order(&BTreeMap::new()), Vec::new());
}

#[test]
fn scan_of_entries_keeps_paths_and_kinds() {
    let entries = vec![file_entry("d/f_part1", b"A"), dir_entry("d/sub"), file_entry("d/x", b"")];
    let scan = scan_of(&entries);
    assert_eq!(scan.len(), 3);
    assert_eq!(scan[0].path, "d/f_part1");
    assert!(!scan[0].is_dir);
    assert_eq!(scan[1].path, "d/sub");
    assert!(scan[1].is_dir);
    assert_eq!(scan[2].path, "d/x");
    assert!(!scan[2].is_dir);
    assert!(scan_of(&Vec::new()).is_empty());
}

#[test]
fn splitter_names_one_part_for_each_block_read() {
    let mut splitter = Splitter::new("./big.bin");
    assert_eq!(splitter.parts_written, 0);
    assert!(matches!(splitter.block_read(BLOCK_SIZE), SplitStep::WritePart(name) if name == "./big.bin_part1"));
    assert!(matches!(splitter.block_read(BLOCK_SIZE), SplitStep::WritePart(name) if name == "./big.bin_part2"));
    assert!(matches!(splitter.block_read(17), SplitStep::WritePart(name) if name == "./big.bin_part3"));
    assert_eq!(splitter.parts_written, 3);
    assert!(matches!(splitter.block_read(0), SplitStep::Finish));
    assert_eq!(splitter.parts_written, 3);
    assert_eq!(splitter.path, "./big.bin");
}

#[test]
fn splitter_on_an_empty_file_finishes_at_once() {
    let mut splitter = Splitter::new("empty");
    assert!(matches!(splitter.block_read(0), SplitStep::Finish));
    assert_eq!(splitter.parts_written, 0);
}

#[test]
fn splitter_names_the_parts_that_a_split_gives() {
    let content = sample(23);
    let parts = split_blocks("f.bin", &content, 5);
    let mut splitter = Splitter::new("f.bin");
    for part in &parts {
        match splitter.block_read(part.content.len()) {
            SplitStep::WritePart(name) => assert_eq!(name, part.name),
            SplitStep::Finish => panic!("finished before the last block"),
        }
    }
    assert!(matches!(splitter.block_read(0), SplitStep::Finish));
    assert_eq!(splitter.parts_written as usize, parts.len());
}
