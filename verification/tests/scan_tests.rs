use gzbdb::frame::{parse_keyval, Pointer, Value};
use gzbdb::scan::{
    find_flag, handle_unmarked_data, parse_map, read_map_chunk, DataFrameType, Frame,
    MapStructure, MapStructureStatus,
};

#[test]
fn flag_found_after_other_bytes() {
    assert_eq!(find_flag(&vec![9, 0, 1, 0, 5], 0), (true, 3));
}

#[test]
fn flag_broken_by_a_second_one() {
    assert_eq!(find_flag(&vec![0, 1, 1, 0], 0), (false, 4));
}

#[test]
fn flag_search_starts_at_cursor() {
    assert_eq!(find_flag(&vec![0, 1, 0], 2), (false, 3));
    assert_eq!(find_flag(&vec![0, 1, 0, 0, 1, 0], 1), (true, 5));
}

#[test]
fn unmarked_bytes_become_runs() {
    let mut pool = vec![0u8, 0, 5, 5, 0];
    let mut book = MapStructure::new();
    handle_unmarked_data(&mut pool, 0, 4, &mut book);
    assert!(pool.is_empty());
    assert_eq!(book.file_cursor, 5);
    assert!(book.corrupt);
    let runs: Vec<(DataFrameType, u64, u64, u64)> =
        book.frames.iter().map(|f| (f.frame_type, f.start, f.end, f.len)).collect();
    assert_eq!(
        runs,
        vec![
            (DataFrameType::Empty, 0, 1, 2),
            (DataFrameType::Corrupt, 2, 3, 2),
            (DataFrameType::Empty, 4, 4, 1),
        ]
    );
}

#[test]
fn unmarked_zeros_only() {
    let mut pool = vec![0u8, 0, 0, 7];
    let mut book = MapStructure::new();
    handle_unmarked_data(&mut pool, 0, 2, &mut book);
    assert_eq!(pool, vec![7]);
    assert!(!book.corrupt);
    assert_eq!(book.frames.len(), 1);
    assert_eq!(book.frames[0].frame_type, DataFrameType::Empty);
    assert_eq!((book.frames[0].start, book.frames[0].end, book.frames[0].len), (0, 2, 3));
}

#[test]
fn scanner_reads_a_whole_frame() {
    let mut pool = parse_keyval(&"k1".to_string(), &Value::U64(7));
    let mut book = MapStructure::new();
    assert!(read_map_chunk(&mut pool, &mut book));
    assert!(pool.is_empty());
    assert_eq!(book.status, MapStructureStatus::Flag);
    assert_eq!(book.file_cursor, 42);
    assert_eq!(
        book.pointers.get("k1"),
        Some(&Pointer { start: 0, end: 41, value_start: 31, value_end: 38, value_size: 8, value_type: 6 })
    );
}

#[test]
fn scanner_waits_for_the_rest_of_a_frame() {
    let frame = parse_keyval(&"k1".to_string(), &Value::U64(7));
    let mut pool = frame[..10].to_vec();
    let mut book = MapStructure::new();
    assert!(!read_map_chunk(&mut pool, &mut book));
    assert!(book.pointers.get("k1").is_none());
    pool.extend_from_slice(&frame[10..]);
    assert!(read_map_chunk(&mut pool, &mut book));
    assert!(book.pointers.get("k1").is_some());
}

#[test]
fn empty_file_is_flagged_corrupt() {
    let book = parse_map(&vec![]);
    assert!(book.corrupt);
    assert!(book.frames.is_empty());
}

#[test]
fn file_of_one_frame() {
    let data = parse_keyval(&"k1".to_string(), &Value::U64(7));
    let book = parse_map(&data);
    assert!(!book.corrupt);
    assert_eq!(book.frames.len(), 1);
    assert_eq!(book.frames[0].key, "k1");
    assert_eq!(book.frames[0].frame_type, DataFrameType::Frame);
    assert_eq!((book.frames[0].start, book.frames[0].end, book.frames[0].len), (0, 41, 42));
    assert_eq!(book.pointers.get("k1").unwrap().value_start, 31);
}

#[test]
fn file_of_frames_and_zeros() {
    let mut data = parse_keyval(&"a".to_string(), &Value::String("hello".to_string()));
    data.extend_from_slice(&[0, 0, 0, 0, 0]);
    let second_start = data.len() as u64;
    data.extend(parse_keyval(&"bb".to_string(), &Value::I64(-9)));
    let book = parse_map(&data);
    assert!(!book.corrupt);
    let runs: Vec<(String, DataFrameType, u64, u64)> =
        book.frames.iter().map(|f| (f.key.clone(), f.frame_type, f.start, f.end)).collect();
    assert_eq!(
        runs,
        vec![
            ("a".to_string(), DataFrameType::Frame, 0, 37),
            ("".to_string(), DataFrameType::Empty, 38, 42),
            ("bb".to_string(), DataFrameType::Frame, second_start, second_start + 41),
        ]
    );
    let a = book.pointers.get("a").unwrap();
    assert_eq!(&data[a.value_start as usize..=a.value_end as usize], b"hello");
    let b = book.pointers.get("bb").unwrap();
    assert_eq!(b.value_start, second_start + 31);
}

#[test]
fn garbage_file_is_corrupt() {
    let book = parse_map(&vec![7, 7, 7]);
    assert!(book.corrupt);
    assert_eq!(book.frames.len(), 1);
    assert_eq!(book.frames[0].frame_type, DataFrameType::Corrupt);
    assert_eq!((book.frames[0].start, book.frames[0].end), (0, 2));
}

#[test]
fn file_length_a_multiple_of_ten_is_flagged() {
    // the last read returns no bytes, and a scan of nothing finds no frame end
    let data = parse_keyval(&"key".to_string(), &Value::String("value".to_string()));
    assert_eq!(data.len(), 40);
    let book = parse_map(&data);
    assert!(book.corrupt);
    assert!(book.pointers.get("key").is_some());
}

#[test]
fn frame_reset_clears_every_field() {
    let mut f = Frame {
        start: 1,
        end: 2,
        key: "x".to_string(),
        key_size_int: 8,
        key_size: 1,
        value_size_int: 8,
        value_type: 6,
        value_size: 8,
        value_start: 3,
        value_end: 4,
    };
    f.reset();
    assert_eq!((f.start, f.end, f.key_size_int, f.key_size, f.value_size_int), (0, 0, 0, 0, 0));
    assert_eq!((f.value_type, f.value_size, f.value_start, f.value_end), (0, 0, 0, 0));
    assert!(f.key.is_empty());
}

#[test]
fn book_records_runs_and_pointers() {
    let mut book = MapStructure::new();
    book.add("".to_string(), DataFrameType::Empty, 0, 4, 5);
    assert!(!book.corrupt);
    book.add("".to_string(), DataFrameType::Corrupt, 5, 6, 2);
    assert!(book.corrupt);
    assert_eq!(book.frames.len(), 2);
    book.pointer();
    assert!(book.pointers.get("").is_none());
    book.frame.key = "z".to_string();
    book.frame.end = 9;
    book.frame.value_start = 3;
    book.frame.value_end = 5;
    book.frame.value_size = 3;
    book.frame.value_type = 4;
    book.pointer();
    assert_eq!(
        book.pointers.get("z"),
        Some(&Pointer { start: 0, end: 9, value_start: 3, value_end: 5, value_size: 3, value_type: 4 })
    );
}

#[test]
fn flag_search_ignores_bytes_before_the_cursor() {
    let pool: Vec<u8> = vec![0, 1, 0, 7, 0, 1, 0, 3, 0, 1, 1, 0];
    for c in 0..=pool.len() {
        let (b, r) = find_flag(&pool, c as u64);
        let (b2, r2) = find_flag(&pool[c..].to_vec(), 0);
        assert_eq!((b, r), (b2, r2 + c as u64));
    }
    assert!(find_flag(&pool, 0).0);
}

#[test]
fn one_chunk_of_two_frames() {
    let p1 = parse_keyval(&"k1".to_string(), &Value::U64(7));
    let p2 = parse_keyval(&"key2".to_string(), &Value::String("hello".to_string()));
    let (n1, n2) = (p1.len() as u64, p2.len() as u64);
    let mut pool = p1.clone();
    pool.extend_from_slice(&p2);
    let mut book = MapStructure::new();
    assert!(read_map_chunk(&mut pool, &mut book));
    assert!(pool.is_empty());
    let runs: Vec<(String, DataFrameType, u64, u64, u64)> =
        book.frames.iter().map(|f| (f.key.clone(), f.frame_type, f.start, f.end, f.len)).collect();
    assert_eq!(
        runs,
        vec![
            ("k1".to_string(), DataFrameType::Frame, 0, n1 - 1, n1),
            ("key2".to_string(), DataFrameType::Frame, n1, n1 + n2 - 1, n2),
        ]
    );
    assert_eq!(book.pointers.get("k1"), Some(&gzbdb::frame::parse_frame_to_pointer(&p1, 0, n1 - 1).unwrap()));
    assert_eq!(book.pointers.get("key2"), Some(&gzbdb::frame::parse_frame_to_pointer(&p2, n1, n1 + n2 - 1).unwrap()));
    assert!(!book.corrupt);
}
