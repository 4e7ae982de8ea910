use gzbdb::frame::{parse_keyval, Pointer, ReadPointerError, Value};
use gzbdb::map::{read_value, BucketMap, FileWrite};
use gzbdb::scan::DataFrameType;

fn apply(file: &mut Vec<u8>, writes: &[FileWrite]) {
    for w in writes {
        let o = w.offset as usize;
        if file.len() < o + w.data.len() {
            file.resize(o + w.data.len(), 0);
        }
        file[o..o + w.data.len()].copy_from_slice(&w.data);
    }
}

fn read_back(m: &BucketMap, file: &[u8], key: &str) -> Result<Value, ReadPointerError> {
    let p = m.read(key)?;
    let s = p.value_start as usize;
    let buffer = file[s..s + p.value_size as usize].to_vec();
    read_value(&p, buffer)
}

fn runs(m: &BucketMap) -> Vec<(String, DataFrameType, u64, u64, u64)> {
    m.frames.iter().map(|f| (f.key.clone(), f.frame_type, f.start, f.end, f.len)).collect()
}

#[test]
fn new_key_goes_at_the_end() {
    let mut file: Vec<u8> = Vec::new();
    let mut m = BucketMap::load(&file);
    let ws = m.add("a", Value::U64(1), true).unwrap();
    assert_eq!(ws.len(), 1);
    assert_eq!(ws[0].offset, 0);
    assert_eq!(ws[0].data, parse_keyval(&"a".to_string(), &Value::U64(1)));
    apply(&mut file, &ws);
    assert_eq!(m.size, 41);
    assert_eq!(file.len(), 41);
    assert_eq!(
        m.read("a"),
        Ok(Pointer { start: 0, end: 40, value_start: 30, value_end: 37, value_size: 8, value_type: 6 })
    );
    assert_eq!(read_back(&m, &file, "a"), Ok(Value::U64(1)));
    assert_eq!(m.store.get("a"), Some(&Value::U64(1)));
}

#[test]
fn new_key_not_stored_when_not_asked() {
    let mut m = BucketMap::load(&Vec::new());
    m.add("a", Value::I64(-1), false).unwrap();
    assert!(m.store.get("a").is_none());
}

#[test]
fn rewrite_moves_to_the_end_then_back() {
    let mut file: Vec<u8> = Vec::new();
    let mut m = BucketMap::load(&file);
    apply(&mut file, &m.add("a", Value::U64(1), true).unwrap());

    let ws = m.add("a", Value::U64(2), true).unwrap();
    assert_eq!(ws.len(), 2);
    assert_eq!((ws[0].offset, ws[0].data.len()), (41, 41));
    assert_eq!((ws[1].offset, ws[1].data.clone()), (0, vec![0u8; 41]));
    apply(&mut file, &ws);
    assert_eq!(m.size, 82);
    assert_eq!(
        runs(&m),
        vec![
            ("".to_string(), DataFrameType::Empty, 0, 40, 41),
            ("a".to_string(), DataFrameType::Frame, 41, 81, 41),
        ]
    );
    assert_eq!(read_back(&m, &file, "a"), Ok(Value::U64(2)));
    // a rewrite keeps nothing in memory
    assert_eq!(m.store.get("a"), Some(&Value::U64(1)));

    let ws = m.add("a", Value::U64(3), true).unwrap();
    assert_eq!(ws[0].offset, 0);
    assert_eq!((ws[1].offset, ws[1].data.len()), (41, 41));
    apply(&mut file, &ws);
    assert_eq!(m.size, 82);
    assert_eq!(
        runs(&m),
        vec![
            ("a".to_string(), DataFrameType::Frame, 0, 40, 41),
            ("".to_string(), DataFrameType::Empty, 41, 81, 41),
        ]
    );
    assert_eq!(read_back(&m, &file, "a"), Ok(Value::U64(3)));
    assert!(file[41..82].iter().all(|b| *b == 0));
}

#[test]
fn rewrite_splits_an_empty_run_and_merges_the_old_one() {
    let mut file: Vec<u8> = Vec::new();
    let mut m = BucketMap::load(&file);
    apply(&mut file, &m.add("a", Value::Binary(vec![5; 20]), false).unwrap());
    apply(&mut file, &m.add("b", Value::U64(10), false).unwrap());
    assert_eq!(m.size, 94);
    apply(&mut file, &m.add("a", Value::U64(5), false).unwrap());
    assert_eq!(
        runs(&m),
        vec![
            ("".to_string(), DataFrameType::Empty, 0, 52, 53),
            ("b".to_string(), DataFrameType::Frame, 53, 93, 41),
            ("a".to_string(), DataFrameType::Frame, 94, 134, 41),
        ]
    );
    apply(&mut file, &m.add("c", Value::U64(6), false).unwrap());
    assert_eq!(m.read("c").unwrap().start, 135);

    let ws = m.add("b", Value::U64(11), false).unwrap();
    assert_eq!(ws[0].offset, 0);
    assert_eq!((ws[1].offset, ws[1].data.len()), (41, 53));
    apply(&mut file, &ws);
    assert_eq!(
        runs(&m),
        vec![
            ("b".to_string(), DataFrameType::Frame, 0, 40, 41),
            ("".to_string(), DataFrameType::Empty, 41, 93, 53),
            ("a".to_string(), DataFrameType::Frame, 94, 134, 41),
            ("c".to_string(), DataFrameType::Frame, 135, 175, 41),
        ]
    );
    assert_eq!(read_back(&m, &file, "a"), Ok(Value::U64(5)));
    assert_eq!(read_back(&m, &file, "b"), Ok(Value::U64(11)));
    assert_eq!(read_back(&m, &file, "c"), Ok(Value::U64(6)));

    let ws = m.delete("a").unwrap();
    assert_eq!(ws.len(), 1);
    assert_eq!((ws[0].offset, ws[0].data.clone()), (41, vec![0u8; 94]));
    apply(&mut file, &ws);
    assert_eq!(
        runs(&m),
        vec![
            ("b".to_string(), DataFrameType::Frame, 0, 40, 41),
            ("".to_string(), DataFrameType::Empty, 41, 134, 94),
            ("c".to_string(), DataFrameType::Frame, 135, 175, 41),
        ]
    );
    assert_eq!(m.read("a"), Err(ReadPointerError::NotFound));
    assert_eq!(read_back(&m, &file, "b"), Ok(Value::U64(11)));
    assert_eq!(read_back(&m, &file, "c"), Ok(Value::U64(6)));

    // the file as written loads back to the same keys
    let loaded = BucketMap::load(&file);
    assert!(!loaded.corrupt);
    assert_eq!(loaded.read("b"), m.read("b"));
    assert_eq!(loaded.read("c"), m.read("c"));
    assert_eq!(loaded.read("a"), Err(ReadPointerError::NotFound));
    assert_eq!(runs(&loaded), runs(&m));
}

#[test]
fn delete_of_a_missing_key() {
    let mut file: Vec<u8> = Vec::new();
    let mut m = BucketMap::load(&file);
    apply(&mut file, &m.add("a", Value::U64(1), true).unwrap());
    let e = m.delete("zz").unwrap_err();
    assert_eq!(e.val, "failed-fetch-pointer-frame");
    assert_eq!(read_back(&m, &file, "a"), Ok(Value::U64(1)));
}

#[test]
fn delete_forgets_the_stored_value() {
    let mut m = BucketMap::load(&Vec::new());
    m.add("a", Value::String("x".to_string()), true).unwrap();
    let ws = m.delete("a").unwrap();
    assert_eq!((ws[0].offset, ws[0].data.len()), (0, 34));
    assert!(m.store.get("a").is_none());
    assert_eq!(m.read("a"), Err(ReadPointerError::NotFound));
    assert_eq!(runs(&m), vec![("".to_string(), DataFrameType::Empty, 0, 33, 34)]);
}

#[test]
fn read_of_a_missing_key() {
    let m = BucketMap::load(&Vec::new());
    assert_eq!(m.read("nope"), Err(ReadPointerError::NotFound));
}

#[test]
fn read_value_of_the_wrong_size() {
    let p = Pointer { start: 0, end: 40, value_start: 30, value_end: 37, value_size: 8, value_type: 6 };
    assert_eq!(read_value(&p, vec![0; 7]), Err(ReadPointerError::InvalidRead));
    assert_eq!(read_value(&p, vec![0; 9]), Err(ReadPointerError::InvalidRead));
    assert_eq!(read_value(&p, vec![0, 0, 0, 0, 0, 0, 1, 0]), Ok(Value::U64(256)));
}

#[test]
fn read_value_that_is_not_text() {
    let p = Pointer { start: 0, end: 35, value_start: 30, value_end: 31, value_size: 2, value_type: 3 };
    assert_eq!(read_value(&p, vec![0xc3, 0x28]), Err(ReadPointerError::InvalidValue));
}

#[test]
fn loaded_map_reads_its_values() {
    let mut data = parse_keyval(&"name".to_string(), &Value::String("gz".to_string()));
    data.extend(parse_keyval(&"n".to_string(), &Value::U64(99)));
    let mut m = BucketMap::load(&data);
    m.path("/tmp/map".to_string());
    assert_eq!(m.path, "/tmp/map");
    assert_eq!(m.size, data.len());
    assert_eq!(read_back(&m, &data, "name"), Ok(Value::String("gz".to_string())));
    assert_eq!(read_back(&m, &data, "n"), Ok(Value::U64(99)));
}

#[test]
fn float_round_trips_through_its_bits() {
    let mut file: Vec<u8> = Vec::new();
    let mut m = BucketMap::load(&file);
    apply(&mut file, &m.add("f", Value::F64(2.75f64.to_bits()), false).unwrap());
    match read_back(&m, &file, "f") {
        Ok(Value::F64(bits)) => assert_eq!(f64::from_bits(bits), 2.75),
        other => panic!("unexpected {:?}", other),
    }
}

#[test]
fn appended_keys_load_back() {
    let mut file: Vec<u8> = Vec::new();
    let mut m = BucketMap::load(&file);
    apply(&mut file, &m.add("one", Value::U64(1), false).unwrap());
    apply(&mut file, &m.add("two", Value::String("deux".to_string()), false).unwrap());
    apply(&mut file, &m.add("three", Value::Binary(vec![3; 7]), false).unwrap());
    let loaded = BucketMap::load(&file);
    assert_eq!(loaded.corrupt, file.len() % 10 == 0);
    for key in ["one", "two", "three"] {
        assert_eq!(loaded.read(key), m.read(key));
    }
    assert_eq!(runs(&loaded), runs(&m));
    assert_eq!(read_back(&loaded, &file, "two"), Ok(Value::String("deux".to_string())));
}

#[test]
fn file_ending_in_zeros_loads_back_its_keys() {
    let mut file: Vec<u8> = Vec::new();
    let mut m = BucketMap::load(&file);
    apply(&mut file, &m.add("a", Value::U64(1), false).unwrap());
    apply(&mut file, &m.add("b", Value::U64(2), false).unwrap());
    apply(&mut file, &m.add("a", Value::U64(3), false).unwrap());
    apply(&mut file, &m.delete("a").unwrap());
    assert_eq!(file.len(), 123);
    assert!(file[..41].iter().all(|b| *b == 0));
    assert!(file[82..].iter().all(|b| *b == 0));
    let loaded = BucketMap::load(&file);
    assert!(loaded.corrupt);
    assert_eq!(loaded.read("b"), m.read("b"));
    assert_eq!(loaded.read("a"), Err(ReadPointerError::NotFound));
    assert_eq!(
        runs(&loaded),
        vec![
            ("".to_string(), DataFrameType::Empty, 0, 40, 41),
            ("b".to_string(), DataFrameType::Frame, 41, 81, 41),
            ("".to_string(), DataFrameType::Empty, 82, 122, 41),
        ]
    );
}

#[test]
fn rewrite_of_a_key_with_a_pointer_but_no_run() {
    let mut file: Vec<u8> = Vec::new();
    let mut m = BucketMap::load(&file);
    apply(&mut file, &m.add("a", Value::U64(1), true).unwrap());
    m.frames.clear();
    let before_size = m.size;
    let e = m.add("a", Value::U64(2), true).unwrap_err();
    assert_eq!(e.val, "failed-fetch-pointer-frame");
    assert_eq!(m.size, before_size);
    assert!(m.frames.is_empty());
    assert!(m.read("a").is_ok());
}
