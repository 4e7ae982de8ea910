use vstd::prelude::*;
use vstd::hash_map::StringHashMap;
use crate::frame::{Pointer, frame_bytes, expected_pointer};
use vstd::utf8::encode_utf8;
use crate::bytes::be_value;
use vstd::utf8::{valid_utf8, decode_utf8};

verus! {

/// What a run of the file holds.
#[derive(Debug, Clone, Copy, PartialEq, Eq, Structural)]
pub enum DataFrameType {
    Corrupt,
    Empty,
    Frame,
    Clear,
}

/// Which field of a frame the scanner expects next.
#[derive(Debug, Clone, Copy, PartialEq, Eq, Structural)]
pub enum MapStructureStatus {
    Flag,
    KeySizeInt,
    KeySize,
    Key,
    ValueType,
    ValueSizeInt,
    ValueSize,
    Value,
    FrameEnd,
}

/// A run `start..=end` of the file, of `len` bytes, that holds a frame of `key`,
/// zeros, or unreadable bytes.
#[derive(Debug)]
pub struct DataFrame {
    pub key: String,
    pub frame_type: DataFrameType,
    pub start: u64,
    pub end: u64,
    pub len: u64,
}

/// A `DataFrame` with its key as text.
pub struct DataFrameView {
    pub key: Seq<char>,
    pub frame_type: DataFrameType,
    pub start: u64,
    pub end: u64,
    pub len: u64,
}

impl View for DataFrame {
    type V = DataFrameView;

    open spec fn view(&self) -> DataFrameView {
        DataFrameView {
            key: self.key@,
            frame_type: self.frame_type,
            start: self.start,
            end: self.end,
            len: self.len,
        }
    }
}

/// The views of a list of runs.
pub open spec fn frames_view(s: Seq<DataFrame>) -> Seq<DataFrameView> {
    s.map_values(|f: DataFrame| f@)
}

/// The fields of the frame that the scanner is reading.
#[derive(Debug)]
pub struct Frame {
    pub start: u64,
    pub end: u64,
    pub key: String,
    pub key_size_int: u64,
    pub key_size: u64,
    pub value_size_int: u64,
    pub value_type: u8,
    pub value_size: u64,
    pub value_start: u64,
    pub value_end: u64,
}

/// A `Frame` with its key as text.
pub struct FrameView {
    pub start: u64,
    pub end: u64,
    pub key: Seq<char>,
    pub key_size_int: u64,
    pub key_size: u64,
    pub value_size_int: u64,
    pub value_type: u8,
    pub value_size: u64,
    pub value_start: u64,
    pub value_end: u64,
}

impl View for Frame {
    type V = FrameView;

    open spec fn view(&self) -> FrameView {
        FrameView {
            start: self.start,
            end: self.end,
            key: self.key@,
            key_size_int: self.key_size_int,
            key_size: self.key_size,
            value_size_int: self.value_size_int,
            value_type: self.value_type,
            value_size: self.value_size,
            value_start: self.value_start,
            value_end: self.value_end,
        }
    }
}

/// The frame with every field zero and an empty key.
pub open spec fn frame_cleared() -> FrameView {
    FrameView {
        start: 0,
        end: 0,
        key: Seq::empty(),
        key_size_int: 0,
        key_size: 0,
        value_size_int: 0,
        value_type: 0,
        value_size: 0,
        value_start: 0,
        value_end: 0,
    }
}

impl Frame {
    /// Clears every field.
    pub fn reset(&mut self)
        ensures
            final(self)@ == frame_cleared(),
    {
        self.start = 0;
        self.end = 0;
        self.key = String::new();
        self.key_size_int = 0;
        self.key_size = 0;
        self.value_type = 0;
        self.value_size_int = 0;
        self.value_size = 0;
        self.value_start = 0;
        self.value_end = 0;
    }
}

/// What the scanner of a map file has found so far, and where it stands.
pub struct MapStructure {
    pub status: MapStructureStatus,
    pub file_cursor: u64,
    pub array_cursor: u64,
    pub frame: Frame,
    pub frames: Vec<DataFrame>,
    pub pointers: StringHashMap<Pointer>,
    pub corrupt: bool,
}

/// The state of the scanner as plain values.
pub struct ScanState {
    pub status: MapStructureStatus,
    pub file_cursor: u64,
    pub array_cursor: u64,
    pub frame: FrameView,
    pub frames: Seq<DataFrameView>,
    pub pointers: Map<Seq<char>, Pointer>,
    pub corrupt: bool,
}

impl View for MapStructure {
    type V = ScanState;

    open spec fn view(&self) -> ScanState {
        ScanState {
            status: self.status,
            file_cursor: self.file_cursor,
            array_cursor: self.array_cursor,
            frame: self.frame@,
            frames: frames_view(self.frames@),
            pointers: self.pointers@,
            corrupt: self.corrupt,
        }
    }
}

/// The scanner before it has read anything.
pub open spec fn scan_initial() -> ScanState {
    ScanState {
        status: MapStructureStatus::Flag,
        file_cursor: 0,
        array_cursor: 0,
        frame: frame_cleared(),
        frames: Seq::empty(),
        pointers: Map::empty(),
        corrupt: false,
    }
}

/// `st` after recording the run `df`; a run of unreadable bytes marks the map corrupt.
pub open spec fn scan_add(st: ScanState, df: DataFrameView) -> ScanState {
    ScanState {
        frames: st.frames.push(df),
        corrupt: st.corrupt || df.frame_type == DataFrameType::Corrupt,
        ..st
    }
}

/// `st` after recording the pointer of the frame just read, when that frame has an
/// end, a key and a value; unchanged otherwise.
pub open spec fn scan_pointer(st: ScanState) -> ScanState {
    let f = st.frame;
    if f.end == 0 || f.key.len() == 0 || f.value_start == 0 || f.value_end == 0 {
        st
    } else {
        ScanState {
            pointers: st.pointers.insert(
                f.key,
                Pointer {
                    start: f.start,
                    end: f.end,
                    value_start: f.value_start,
                    value_end: f.value_end,
                    value_size: f.value_size,
                    value_type: f.value_type,
                },
            ),
            ..st
        }
    }
}

impl MapStructure {
    /// The scanner before it has read anything.
    pub fn new() -> (m: MapStructure)
        ensures
            m@ == scan_initial(),
    {
        let m = MapStructure {
            corrupt: false,
            status: MapStructureStatus::Flag,
            frames: Vec::new(),
            file_cursor: 0,
            array_cursor: 0,
            frame: Frame {
                start: 0,
                end: 0,
                key: String::new(),
                key_size_int: 0,
                key_size: 0,
                value_type: 0,
                value_size_int: 0,
                value_size: 0,
                value_start: 0,
                value_end: 0,
            },
            pointers: StringHashMap::new(),
        };
        assert(m@.frames =~= Seq::<DataFrameView>::empty());
        m
    }

    /// Records the run `s..=e` of `l` bytes holding `t` under the key `k`.
    pub fn add(&mut self, k: String, t: DataFrameType, s: u64, e: u64, l: u64)
        ensures
            final(self)@ == scan_add(
                old(self)@,
                DataFrameView { key: k@, frame_type: t, start: s, end: e, len: l },
            ),
    {
        if self.corrupt == false {
            match t {
                DataFrameType::Corrupt => {
                    self.corrupt = true;
                },
                _ => {},
            }
        }
        let ghost old_frames = self.frames@;
        let df = DataFrame { key: k, frame_type: t, start: s, end: e, len: l };
        self.frames.push(df);
        assert(frames_view(self.frames@) =~= frames_view(old_frames).push(df@));
    }

    /// Records the pointer of the frame just read, when it has an end, a key and a
    /// value.
    pub fn pointer(&mut self)
        ensures
            final(self)@ == scan_pointer(old(self)@),
    {
        if self.frame.end == 0 || self.frame.key.as_str().is_empty() || self.frame.value_start
            == 0 || self.frame.value_end == 0 {
            return ;
        }
        self.pointers.insert(
            self.frame.key.clone(),
            Pointer {
                start: self.frame.start,
                end: self.frame.end,
                value_start: self.frame.value_start,
                value_end: self.frame.value_end,
                value_size: self.frame.value_size,
                value_type: self.frame.value_type,
            },
        );
    }
}

/// Scanning `pool` from index `i` for a flag (zeros, a one, a zero) that starts at or
/// after `cursor`; `zero` tells that the bytes just before `i` were zeros and `one`
/// that a one followed them. The index of the flag's last byte, or the length of
/// `pool` when there is none.
pub open spec fn find_flag_from(pool: Seq<u8>, cursor: int, i: int, zero: bool, one: bool) -> (
    bool,
    u64,
)
    decreases pool.len() - i,
{
    if i >= pool.len() || i < 0 {
        (false, pool.len() as u64)
    } else if i < cursor {
        find_flag_from(pool, cursor, i + 1, zero, one)
    } else if pool[i] == 0 {
        if one {
            (true, i as u64)
        } else {
            find_flag_from(pool, cursor, i + 1, true, one)
        }
    } else if pool[i] == 1 {
        if one {
            find_flag_from(pool, cursor, i + 1, zero, false)
        } else if zero {
            find_flag_from(pool, cursor, i + 1, zero, true)
        } else {
            find_flag_from(pool, cursor, i + 1, zero, one)
        }
    } else {
        find_flag_from(pool, cursor, i + 1, false, false)
    }
}

/// The first flag of `pool` at or after `cursor`.
pub open spec fn spec_find_flag(pool: Seq<u8>, cursor: u64) -> (bool, u64) {
    find_flag_from(pool, cursor as int, 0, false, false)
}

/// A flag found by the scan ends at least two bytes after `cursor`, inside `pool`.
pub proof fn lemma_find_flag_from_bounds(pool: Seq<u8>, cursor: int, i: int, zero: bool, one: bool)
    requires
        0 <= i,
        pool.len() <= u64::MAX,
        zero ==> i >= cursor + 1,
        one ==> i >= cursor + 2,
    ensures
        find_flag_from(pool, cursor, i, zero, one).0 ==> {
            &&& cursor + 2 <= find_flag_from(pool, cursor, i, zero, one).1
            &&& find_flag_from(pool, cursor, i, zero, one).1 < pool.len()
        },
        !find_flag_from(pool, cursor, i, zero, one).0 ==> find_flag_from(
            pool,
            cursor,
            i,
            zero,
            one,
        ).1 == pool.len(),
    decreases pool.len() - i,
{
    if i >= pool.len() {
    } else if i < cursor {
        lemma_find_flag_from_bounds(pool, cursor, i + 1, zero, one);
    } else if pool[i] == 0 {
        if !one {
            lemma_find_flag_from_bounds(pool, cursor, i + 1, true, one);
        }
    } else if pool[i] == 1 {
        if one {
            lemma_find_flag_from_bounds(pool, cursor, i + 1, zero, false);
        } else if zero {
            lemma_find_flag_from_bounds(pool, cursor, i + 1, zero, true);
        } else {
            lemma_find_flag_from_bounds(pool, cursor, i + 1, zero, one);
        }
    } else {
        lemma_find_flag_from_bounds(pool, cursor, i + 1, false, false);
    }
}

/// Before the cursor the scan skips bytes without looking at them.
proof fn lemma_flag_skips(pool: Seq<u8>, cursor: int, i: int)
    requires
        0 <= i <= cursor <= pool.len(),
    ensures
        find_flag_from(pool, cursor, i, false, false) == find_flag_from(pool, cursor, cursor, false, false),
    decreases cursor - i,
{
    if i < cursor {
        lemma_flag_skips(pool, cursor, i + 1);
    }
}

/// From the cursor on, the scan reads the bytes after the cursor as a scan of those
/// bytes alone does, with indices shifted by the cursor.
proof fn lemma_flag_shift(pool: Seq<u8>, cursor: int, i: int, zero: bool, one: bool)
    requires
        0 <= cursor <= i,
        cursor <= pool.len() <= u64::MAX,
    ensures
        find_flag_from(pool, cursor, i, zero, one).0 == find_flag_from(pool.skip(cursor), 0, i - cursor, zero, one).0,
        find_flag_from(pool, cursor, i, zero, one).1 == find_flag_from(pool.skip(cursor), 0, i - cursor, zero, one).1
            + cursor,
    decreases pool.len() - i,
{
    let rest = pool.skip(cursor);
    if i < pool.len() {
        assert(rest[i - cursor] == pool[i]);
        if pool[i] == 0 {
            lemma_flag_shift(pool, cursor, i + 1, true, one);
        } else if pool[i] == 1 {
            if one {
                lemma_flag_shift(pool, cursor, i + 1, zero, false);
            } else if zero {
                lemma_flag_shift(pool, cursor, i + 1, zero, true);
            } else {
                lemma_flag_shift(pool, cursor, i + 1, zero, one);
            }
        } else {
            lemma_flag_shift(pool, cursor, i + 1, false, false);
        }
    }
}

/// Looking for a flag from `cursor` ignores the bytes before it: it finds what looking
/// in the bytes from `cursor` on finds, at the same place counted from the start.
pub proof fn lemma_find_flag_offset(pool: Seq<u8>, cursor: u64)
    requires
        cursor <= pool.len() <= u64::MAX,
    ensures
        spec_find_flag(pool, cursor).0 == spec_find_flag(pool.skip(cursor as int), 0).0,
        spec_find_flag(pool, cursor).1 == spec_find_flag(pool.skip(cursor as int), 0).1 + cursor,
{
    lemma_flag_skips(pool, cursor as int, 0);
    lemma_flag_shift(pool, cursor as int, cursor as int, false, false);
}

/// A flag found by the scan is a zero byte right after a one.
proof fn lemma_flag_shape(pool: Seq<u8>, cursor: int, i: int, zero: bool, one: bool)
    requires
        0 <= i,
        pool.len() <= u64::MAX,
        one ==> 1 <= i && cursor < i && i - 1 < pool.len() && pool[i - 1] == 1,
    ensures
        find_flag_from(pool, cursor, i, zero, one).0 ==> {
            let k = find_flag_from(pool, cursor, i, zero, one).1 as int;
            &&& 1 <= k < pool.len()
            &&& pool[k] == 0
            &&& pool[k - 1] == 1
        },
    decreases pool.len() - i,
{
    if i >= pool.len() {
    } else if i < cursor {
        lemma_flag_shape(pool, cursor, i + 1, zero, one);
    } else if pool[i] == 0 {
        if !one {
            lemma_flag_shape(pool, cursor, i + 1, true, one);
        }
    } else if pool[i] == 1 {
        if one {
            lemma_flag_shape(pool, cursor, i + 1, zero, false);
        } else if zero {
            lemma_flag_shape(pool, cursor, i + 1, zero, true);
        } else {
            lemma_flag_shape(pool, cursor, i + 1, zero, one);
        }
    } else {
        lemma_flag_shape(pool, cursor, i + 1, false, false);
    }
}

/// Looks in `pool` for the first flag at or after `cursor`.
pub fn find_flag(pool: &Vec<u8>, cursor: u64) -> (r: (bool, u64))
    ensures
        r == spec_find_flag(pool@, cursor),
        r.0 ==> cursor + 2 <= r.1 < pool@.len(),
        r.0 ==> pool@[r.1 as int] == 0 && pool@[r.1 - 1] == 1,
        !r.0 ==> r.1 == pool@.len(),
{
    let len = pool.len();
    proof {
        lemma_find_flag_from_bounds(pool@, cursor as int, 0, false, false);
        lemma_flag_shape(pool@, cursor as int, 0, false, false);
    }
    let mut zero = false;
    let mut one_found = false;
    let mut index: usize = 0;
    while index < len
        invariant
            len == pool@.len(),
            index <= pool@.len(),
            find_flag_from(pool@, cursor as int, index as int, zero, one_found) == spec_find_flag(
                pool@,
                cursor,
            ),
        decreases pool@.len() - index,
    {
        let i = pool[index];
        if index as u64 >= cursor {
            if i == 0 {
                if one_found {
                    proof {
                        lemma_find_flag_from_bounds(pool@, cursor as int, 0, false, false);
                        lemma_flag_shape(pool@, cursor as int, 0, false, false);
                    }
                    return (true, index as u64);
                }
                zero = true;
            } else if i == 1 {
                if one_found {
                    one_found = false;
                } else if zero {
                    one_found = true;
                }
            } else {
                one_found = false;
                zero = false;
            }
        }
        index = index + 1;
    }
    (false, index as u64)
}

/// The counters of the run being measured: how many zeros and other bytes, and where
/// the current zero run and data run started.
pub struct RunCounters {
    pub zero_count: u64,
    pub data_count: u64,
    pub zero_start: u64,
    pub data_start: u64,
}

/// A run without a key, of type `t`, at `s..=e`, of `l` bytes.
pub open spec fn unmarked_run(t: DataFrameType, s: int, e: int, l: int) -> DataFrameView {
    DataFrameView { key: Seq::empty(), frame_type: t, start: s as u64, end: e as u64, len: l as u64 }
}

/// One byte `b`, at index `n`, of the unmarked data: a zero closes a data run (recorded
/// as unreadable, with the length `file_cursor + n - data_start`) and extends a zero
/// run; another byte closes a zero run (recorded as empty, with the length
/// `file_cursor + n - zero_start`) and extends a data run.
pub open spec fn unmarked_step(st: ScanState, r: RunCounters, n: int, b: u8) -> (ScanState, RunCounters) {
    let fc = st.file_cursor as int;
    if b == 0 {
        let st1 = if r.data_count > 0 {
            scan_add(
                st,
                unmarked_run(
                    DataFrameType::Corrupt,
                    fc + r.data_start,
                    fc + n - 1,
                    fc + n - r.data_start,
                ),
            )
        } else {
            st
        };
        let zs = if r.zero_start == 0 && r.zero_count == 0 {
            n as u64
        } else {
            r.zero_start
        };
        (
            st1,
            RunCounters {
                zero_count: (r.zero_count + 1) as u64,
                data_count: 0,
                zero_start: zs,
                data_start: if r.data_count > 0 {
                    0
                } else {
                    r.data_start
                },
            },
        )
    } else {
        let st1 = if r.zero_count > 0 {
            scan_add(
                st,
                unmarked_run(
                    DataFrameType::Empty,
                    fc + r.zero_start,
                    fc + n - 1,
                    fc + n - r.zero_start,
                ),
            )
        } else {
            st
        };
        let ds = if r.data_start == 0 && r.data_count == 0 {
            n as u64
        } else {
            r.data_start
        };
        (
            st1,
            RunCounters {
                zero_count: 0,
                data_count: (r.data_count + 1) as u64,
                zero_start: if r.zero_count > 0 {
                    0
                } else {
                    r.zero_start
                },
                data_start: ds,
            },
        )
    }
}

/// The bytes `start..upto` of `pool` measured one after the other.
pub open spec fn unmarked_fold(st: ScanState, pool: Seq<u8>, start: int, upto: int) -> (
    ScanState,
    RunCounters,
)
    decreases upto - start,
{
    if upto <= start {
        (st, RunCounters { zero_count: 0, data_count: 0, zero_start: 0, data_start: 0 })
    } else {
        let (s1, r1) = unmarked_fold(st, pool, start, upto - 1);
        unmarked_step(s1, r1, upto - 1, pool[upto - 1])
    }
}

/// The bytes `start..=end` of `pool`, which belong to no frame, cut into runs of zeros
/// (empty) and of other bytes (unreadable); the last runs get their true lengths.
/// Those bytes leave the front of `pool` and the file cursor moves past them.
pub open spec fn spec_handle_unmarked(pool: Seq<u8>, start: int, end: int, st: ScanState) -> (
    Seq<u8>,
    ScanState,
) {
    let fc = st.file_cursor as int;
    let (s1, r) = unmarked_fold(st, pool, start, end + 1);
    let s2 = if r.zero_count > 0 {
        scan_add(
            s1,
            unmarked_run(DataFrameType::Empty, fc + r.zero_start, fc + end, r.zero_count as int),
        )
    } else {
        s1
    };
    let s3 = if r.data_count > 0 {
        scan_add(
            s2,
            unmarked_run(DataFrameType::Corrupt, fc + r.data_start, fc + end, r.data_count as int),
        )
    } else {
        s2
    };
    let count = end - start + 1;
    (pool.subrange(count, pool.len() as int), ScanState {
        file_cursor: (fc + count) as u64,
        array_cursor: 0,
        ..s3
    })
}

/// The counters stay within the bytes measured so far.
pub open spec fn counters_ok(r: RunCounters, start: int, n: int) -> bool {
    &&& r.zero_count + r.data_count <= n - start
    &&& r.zero_start <= n
    &&& r.data_start <= n
    &&& r.data_count > 0 ==> r.data_start + r.data_count == n && r.data_start >= start
    &&& r.zero_count > 0 ==> r.zero_start + r.zero_count == n && r.zero_start >= start
    &&& !(r.data_count > 0 && r.zero_count > 0)
    &&& r.zero_count == 0 ==> r.zero_start == 0
    &&& r.data_count == 0 ==> r.data_start == 0
}

proof fn lemma_unmarked_fold(st: ScanState, pool: Seq<u8>, start: int, upto: int)
    requires
        0 <= start <= upto <= u64::MAX,
    ensures
        counters_ok(unmarked_fold(st, pool, start, upto).1, start, upto),
        unmarked_fold(st, pool, start, upto).0.file_cursor == st.file_cursor,
        unmarked_fold(st, pool, start, upto).0.array_cursor == st.array_cursor,
        unmarked_fold(st, pool, start, upto).0.status == st.status,
        unmarked_fold(st, pool, start, upto).0.frame == st.frame,
        unmarked_fold(st, pool, start, upto).0.pointers == st.pointers,
    decreases upto - start,
{
    if upto > start {
        lemma_unmarked_fold(st, pool, start, upto - 1);
    }
}

/// Records the bytes `start..=end` of `pool`, which belong to no frame, as runs of
/// zeros and of other bytes, removes them from the front of `pool` and moves the file
/// cursor past them.
pub fn handle_unmarked_data(pool: &mut Vec<u8>, start: usize, end: usize, map_book: &mut MapStructure)
    requires
        start <= end < old(pool)@.len(),
        old(map_book).file_cursor + old(pool)@.len() <= u64::MAX,
    ensures
        (final(pool)@, final(map_book)@) == spec_handle_unmarked(
            old(pool)@,
            start as int,
            end as int,
            old(map_book)@,
        ),
{
    let ghost st0 = map_book@;
    let ghost p0 = pool@;
    let len = pool.len();
    let mut zero_count: u64 = 0;
    let mut data_count: u64 = 0;
    let mut zero_start: u64 = 0;
    let mut data_start: u64 = 0;
    let mut count: u64 = 0;
    let mut n: usize = start;
    while n <= end
        invariant
            start <= n <= end + 1,
            end < p0.len(),
            len == p0.len(),
            pool@ == p0,
            st0.file_cursor + p0.len() <= u64::MAX,
            count == n - start,
            (map_book@, RunCounters { zero_count, data_count, zero_start, data_start })
                == unmarked_fold(st0, p0, start as int, n as int),
            counters_ok(
                RunCounters { zero_count, data_count, zero_start, data_start },
                start as int,
                n as int,
            ),
        decreases end + 1 - n,
    {
        proof {
            lemma_unmarked_fold(st0, p0, start as int, n as int);
        }
        count = count + 1;
        let i = pool[n];
        if i == 0 {
            if data_count > 0 {
                map_book.add(
                    String::new(),
                    DataFrameType::Corrupt,
                    map_book.file_cursor + data_start,
                    map_book.file_cursor + n as u64 - 1,
                    map_book.file_cursor + n as u64 - data_start,
                );
                data_count = 0;
                data_start = 0;
            }
            if zero_start == 0 && zero_count == 0 {
                zero_start = n as u64;
            }
            zero_count = zero_count + 1;
        } else {
            if zero_count > 0 {
                map_book.add(
                    String::new(),
                    DataFrameType::Empty,
                    map_book.file_cursor + zero_start,
                    map_book.file_cursor + n as u64 - 1,
                    map_book.file_cursor + n as u64 - zero_start,
                );
                zero_start = 0;
                zero_count = 0;
            }
            if data_start == 0 && data_count == 0 {
                data_start = n as u64;
            }
            data_count = data_count + 1;
        }
        n = n + 1;
    }
    proof {
        lemma_unmarked_fold(st0, p0, start as int, n as int);
    }
    if zero_count > 0 {
        map_book.add(
            String::new(),
            DataFrameType::Empty,
            map_book.file_cursor + zero_start,
            map_book.file_cursor + end as u64,
            zero_count,
        );
    }
    if data_count > 0 {
        map_book.add(
            String::new(),
            DataFrameType::Corrupt,
            map_book.file_cursor + data_start,
            map_book.file_cursor + end as u64,
            data_count,
        );
    }
    let rest = pool.split_off(end - start + 1);
    *pool = rest;
    map_book.file_cursor = map_book.file_cursor + count;
    map_book.array_cursor = 0;
}

/// What the scanner keeps true between steps: the file cursor and the bytes still
/// held stay within `u64`; once a frame has begun, the cursor lies inside `pool`,
/// past the start flag, and the frame starts at the file cursor; a length field being
/// read has a width of at least one byte.
pub open spec fn scan_inv(pool: Seq<u8>, st: ScanState) -> bool {
    &&& st.file_cursor + pool.len() <= u64::MAX
    &&& st.status != MapStructureStatus::Flag ==> {
        &&& 2 <= st.array_cursor < pool.len()
        &&& st.frame.start == st.file_cursor
    }
    &&& st.status == MapStructureStatus::KeySize ==> 1 <= st.frame.key_size_int <= 255
    &&& st.status == MapStructureStatus::ValueSize ==> 1 <= st.frame.value_size_int <= 255
}

/// Looking for the next start flag: when the scanner waits for one and finds it at or
/// after the cursor, the bytes before the flag are recorded as unmarked data and
/// leave `pool`, the frame is cleared and starts at the file cursor, and the key's
/// length field comes next. `false` when no flag is there; `true`, unchanged, when no
/// flag was awaited.
pub open spec fn spec_process_flag(pool: Seq<u8>, st: ScanState) -> (bool, Seq<u8>, ScanState) {
    if st.status != MapStructureStatus::Flag {
        (true, pool, st)
    } else {
        let (found, c) = spec_find_flag(pool, st.array_cursor);
        if !found {
            (false, pool, st)
        } else {
            let st1 = ScanState { frame: frame_cleared(), ..st };
            if c >= 3 {
                let (p2, st2) = spec_handle_unmarked(pool, 0, c - 3, st1);
                (
                    true,
                    p2,
                    ScanState {
                        array_cursor: 2,
                        frame: FrameView { start: st2.file_cursor, ..st2.frame },
                        status: MapStructureStatus::KeySizeInt,
                        ..st2
                    },
                )
            } else {
                (
                    true,
                    pool,
                    ScanState {
                        array_cursor: c,
                        frame: FrameView { start: st1.file_cursor, ..frame_cleared() },
                        status: MapStructureStatus::KeySizeInt,
                        ..st1
                    },
                )
            }
        }
    }
}

/// What process_flag keeps and what it guarantees to the steps that call it again.
pub proof fn lemma_process_flag(pool: Seq<u8>, st: ScanState)
    requires
        scan_inv(pool, st),
    ensures
        ({
            let (ok, p2, st2) = spec_process_flag(pool, st);
            &&& scan_inv(p2, st2)
            &&& st2.file_cursor + p2.len() == st.file_cursor + pool.len()
            &&& p2.len() <= pool.len()
            &&& ok && st.status == MapStructureStatus::Flag ==> st2.status
                == MapStructureStatus::KeySizeInt
            &&& ok && st.status == MapStructureStatus::Flag && st.array_cursor >= 1 ==> p2.len()
                < pool.len()
            &&& !ok ==> p2 == pool && st2 == st
        }),
{
    if st.status == MapStructureStatus::Flag {
        lemma_find_flag_from_bounds(pool, st.array_cursor as int, 0, false, false);
        let (found, c) = spec_find_flag(pool, st.array_cursor);
        if found && c >= 3 {
            let st1 = ScanState { frame: frame_cleared(), ..st };
            lemma_unmarked_fold(st1, pool, 0, c - 2);
        }
    }
}

/// Looks for the next start flag when the scanner waits for one.
pub fn process_flag(pool: &mut Vec<u8>, map_book: &mut MapStructure) -> (r: bool)
    requires
        scan_inv(old(pool)@, old(map_book)@),
    ensures
        (r, final(pool)@, final(map_book)@) == spec_process_flag(old(pool)@, old(map_book)@),
        scan_inv(final(pool)@, final(map_book)@),
        final(map_book).file_cursor + final(pool)@.len() == old(map_book).file_cursor + old(
            pool,
        )@.len(),
        final(pool)@.len() <= old(pool)@.len(),
        r && old(map_book).status == MapStructureStatus::Flag ==> final(map_book).status
            == MapStructureStatus::KeySizeInt,
        r && old(map_book).status == MapStructureStatus::Flag && old(map_book).array_cursor >= 1
            ==> final(pool)@.len() < old(pool)@.len(),
{
    proof {
        lemma_process_flag(pool@, map_book@);
    }
    let ghost p0 = pool@;
    let ghost st0 = map_book@;
    let len = pool.len();
    match map_book.status {
        MapStructureStatus::Flag => {
            let (flag_found, flag_cursor) = find_flag(pool, map_book.array_cursor);
            if flag_found {
                map_book.frame.reset();
                if flag_cursor >= 3 {
                    let data_before: usize = flag_cursor as usize - 3;
                    handle_unmarked_data(pool, 0, data_before, map_book);
                    map_book.array_cursor = 2;
                    map_book.frame.start = map_book.file_cursor + 0;
                    map_book.status = MapStructureStatus::KeySizeInt;
                    proof {
                        let st1 = ScanState { frame: frame_cleared(), ..st0 };
                        let (p2, st2) = spec_handle_unmarked(p0, 0, flag_cursor - 3, st1);
                        assert(pool@ == p2);
                        assert(map_book@.frames == st2.frames);
                        assert(map_book@.frame == FrameView { start: st2.file_cursor, ..st2.frame });
                    }
                    return true;
                } else {
                    map_book.array_cursor = flag_cursor;
                    map_book.frame.start = map_book.file_cursor + 0;
                }
                map_book.status = MapStructureStatus::KeySizeInt;
                return true;
            } else {
                return false;
            }
        },
        _ => {
            return true;
        },
    }
}

/// The outcome of one stage of reading a frame: go on to the next stage, stop with
/// a result, or give the frame up and look for the next flag.
pub enum Step {
    Next(ScanState),
    Done(bool, ScanState),
    Retry(ScanState),
    Search(ScanState),
}

/// `st` giving up the frame with the cursor at `cursor`.
pub open spec fn give_up(st: ScanState, cursor: int) -> ScanState {
    ScanState { status: MapStructureStatus::Flag, array_cursor: cursor as u64, ..st }
}

/// Reading the width byte of the key's length field: a zero then a non-zero width.
pub open spec fn key_size_int_stage(pool: Seq<u8>, st: ScanState) -> Step {
    let ac = st.array_cursor as int;
    if st.status != MapStructureStatus::KeySizeInt {
        Step::Next(st)
    } else if pool.len() > ac + 2 {
        if pool[ac + 1] != 0 || pool[ac + 2] == 0 {
            Step::Retry(give_up(st, ac + 1))
        } else {
            Step::Next(
                ScanState {
                    frame: FrameView { key_size_int: pool[ac + 2] as u64, ..st.frame },
                    array_cursor: (ac + 2) as u64,
                    status: MapStructureStatus::KeySize,
                    ..st
                },
            )
        }
    } else {
        Step::Done(false, st)
    }
}

/// Reading the key's length: a zero, then as many bytes as the width, whose first
/// eight are the length.
pub open spec fn key_size_stage(pool: Seq<u8>, st: ScanState) -> Step {
    let ac = st.array_cursor as int;
    let w = st.frame.key_size_int as int;
    if st.status != MapStructureStatus::KeySize {
        Step::Next(st)
    } else if pool.len() > ac + w + 1 {
        if pool[ac + 1] != 0 {
            Step::Retry(give_up(st, ac + w))
        } else {
            let collect = pool.subrange(ac + 2, ac + w + 2);
            if collect.len() >= 8 {
                Step::Next(
                    ScanState {
                        frame: FrameView { key_size: be_value(collect), ..st.frame },
                        array_cursor: (ac + w + 1) as u64,
                        status: MapStructureStatus::Key,
                        ..st
                    },
                )
            } else {
                Step::Retry(give_up(st, ac + w + 1))
            }
        }
    } else {
        Step::Done(false, st)
    }
}

/// Reading the key: a zero, then the key's bytes, which must be UTF-8.
pub open spec fn key_stage(pool: Seq<u8>, st: ScanState) -> Step {
    let ac = st.array_cursor as int;
    let k = st.frame.key_size as int;
    if st.status != MapStructureStatus::Key {
        Step::Next(st)
    } else if pool.len() > ac + k + 1 {
        if pool[ac + 1] != 0 {
            Step::Retry(give_up(st, ac + k))
        } else {
            let collect = pool.subrange(ac + 2, ac + k + 2);
            if valid_utf8(collect) {
                Step::Done(
                    true,
                    ScanState {
                        frame: FrameView { key: decode_utf8(collect), ..st.frame },
                        array_cursor: (ac + k + 1) as u64,
                        status: MapStructureStatus::ValueType,
                        ..st
                    },
                )
            } else {
                Step::Retry(give_up(st, ac + k + 1))
            }
        }
    } else {
        Step::Done(false, st)
    }
}

/// A stage keeps the scanner's invariant, and a frame given up leaves the cursor past
/// the start of `pool`.
pub open spec fn step_ok(pool: Seq<u8>, st: ScanState, step: Step) -> bool {
    match step {
        Step::Next(s) => scan_inv(pool, s) && s.file_cursor == st.file_cursor,
        Step::Done(_, s) => scan_inv(pool, s) && s.file_cursor == st.file_cursor,
        Step::Retry(s) => scan_inv(pool, s) && s.status == MapStructureStatus::Flag
            && s.array_cursor >= 1 && s.file_cursor == st.file_cursor,
        Step::Search(s) => scan_inv(pool, s) && s.status == MapStructureStatus::Flag
            && s.file_cursor == st.file_cursor,
    }
}

pub proof fn lemma_key_stages(pool: Seq<u8>, st: ScanState)
    requires
        scan_inv(pool, st),
    ensures
        step_ok(pool, st, key_size_int_stage(pool, st)),
        step_ok(pool, st, key_size_stage(pool, st)),
        step_ok(pool, st, key_stage(pool, st)),
{
}

/// Reading the key of a frame, from whichever of its three parts the scanner is at:
/// `true` once the key is read (or when the scanner is past the key), `false` when
/// `pool` ends first; a malformed part sends the scanner to the next flag.
pub open spec fn spec_process_key(pool: Seq<u8>, st: ScanState) -> (bool, Seq<u8>, ScanState)
    decreases pool.len(), 1int,
    when scan_inv(pool, st)
{
    proof {
        lemma_key_stages(pool, st);
    }
    match key_size_int_stage(pool, st) {
        Step::Search(s) => (false, pool, s),
        Step::Done(b, s) => (b, pool, s),
        Step::Retry(s) => spec_key_retry(pool, s),
        Step::Next(s1) => {
            proof {
                lemma_key_stages(pool, s1);
            }
            match key_size_stage(pool, s1) {
                Step::Search(s) => (false, pool, s),
                Step::Done(b, s) => (b, pool, s),
                Step::Retry(s) => spec_key_retry(pool, s),
                Step::Next(s2) => {
                    proof {
                        lemma_key_stages(pool, s2);
                    }
                    match key_stage(pool, s2) {
                        Step::Search(s) => (false, pool, s),
                        Step::Done(b, s) => (b, pool, s),
                        Step::Retry(s) => spec_key_retry(pool, s),
                        Step::Next(s3) => (true, pool, s3),
                    }
                },
            }
        },
    }
}

/// After a frame is given up: the next flag, then the key of the frame it starts.
pub open spec fn spec_key_retry(pool: Seq<u8>, st: ScanState) -> (bool, Seq<u8>, ScanState)
    decreases pool.len(), 0int,
    when scan_inv(pool, st) && st.status == MapStructureStatus::Flag && st.array_cursor >= 1
{
    let (ok, p2, s2) = spec_process_flag(pool, st);
    if !ok {
        (false, p2, s2)
    } else {
        proof {
            lemma_process_flag(pool, st);
        }
        spec_process_key(p2, s2)
    }
}

/// `ac + size + 1 < len`, computed without overflow.
fn fits(len: usize, ac: u64, size: u64) -> (r: bool)
    requires
        ac < len,
    ensures
        r == (ac + size + 1 < len),
{
    size < (len as u64) - ac - 1
}

/// The bytes `from..=last` of `pool`.
fn collect_range(pool: &Vec<u8>, from: usize, last: usize) -> (collect: Vec<u8>)
    requires
        from <= last + 1 <= pool@.len(),
    ensures
        collect@ == pool@.subrange(from as int, last + 1),
{
    let len = pool.len();
    let mut collect: Vec<u8> = Vec::new();
    let mut i: usize = from;
    while i <= last
        invariant
            from <= i <= last + 1,
            last + 1 <= len,
            len == pool@.len(),
            collect@ == pool@.subrange(from as int, i as int),
        decreases last + 1 - i,
    {
        collect.push(pool[i]);
        i = i + 1;
        assert(collect@ =~= pool@.subrange(from as int, i as int));
    }
    collect
}

/// Reads the key of the frame being scanned.
#[verifier::rlimit(40)]
pub fn process_key(pool: &mut Vec<u8>, map_book: &mut MapStructure) -> (r: bool)
    requires
        scan_inv(old(pool)@, old(map_book)@),
    ensures
        (r, final(pool)@, final(map_book)@) == spec_process_key(old(pool)@, old(map_book)@),
        scan_inv(final(pool)@, final(map_book)@),
        final(map_book).file_cursor + final(pool)@.len() == old(map_book).file_cursor + old(
            pool,
        )@.len(),
    decreases old(pool)@.len(), 1int,
{
    let ghost p0 = pool@;
    proof {
        lemma_key_stages(pool@, map_book@);
    }
    let len = pool.len();
    match map_book.status {
        MapStructureStatus::KeySizeInt => {
            let ac = map_book.array_cursor;
            if fits(len, ac, 1) {
                if pool[(ac + 1) as usize] != 0 || pool[(ac + 2) as usize] == 0 {
                    map_book.status = MapStructureStatus::Flag;
                    map_book.array_cursor = ac + 1;
                    return key_retry(pool, map_book);
                }
                map_book.frame.key_size_int = pool[(ac + 2) as usize] as u64;
                map_book.array_cursor = ac + 2;
                map_book.status = MapStructureStatus::KeySize;
            } else {
                return false;
            }
        },
        _ => {},
    }
    proof {
        lemma_key_stages(pool@, map_book@);
    }
    match map_book.status {
        MapStructureStatus::KeySize => {
            let ac = map_book.array_cursor;
            let w = map_book.frame.key_size_int;
            if fits(len, ac, w) {
                if pool[(ac + 1) as usize] != 0 {
                    map_book.status = MapStructureStatus::Flag;
                    map_book.array_cursor = ac + w;
                    return key_retry(pool, map_book);
                }
                let collect = collect_range(pool, (ac + 2) as usize, (ac + w + 1) as usize);
                map_book.array_cursor = ac + w + 1;
                match crate::bytes::read_u64_num(collect) {
                    Ok(v) => {
                        map_book.status = MapStructureStatus::Key;
                        map_book.frame.key_size = v;
                    },
                    Err(_) => {
                        map_book.status = MapStructureStatus::Flag;
                        return key_retry(pool, map_book);
                    },
                }
            } else {
                return false;
            }
        },
        _ => {},
    }
    proof {
        lemma_key_stages(pool@, map_book@);
    }
    match map_book.status {
        MapStructureStatus::Key => {
            let ac = map_book.array_cursor;
            let k = map_book.frame.key_size;
            if fits(len, ac, k) {
                if pool[(ac + 1) as usize] != 0 {
                    map_book.status = MapStructureStatus::Flag;
                    map_book.array_cursor = ac + k;
                    return key_retry(pool, map_book);
                }
                let collect = collect_range(pool, (ac + 2) as usize, (ac + k + 1) as usize);
                map_book.array_cursor = ac + k + 1;
                match crate::bytes::string_from_utf8(collect) {
                    Some(v) => {
                        map_book.status = MapStructureStatus::ValueType;
                        map_book.frame.key = v;
                        return true;
                    },
                    None => {
                        map_book.status = MapStructureStatus::Flag;
                        return key_retry(pool, map_book);
                    },
                }
            } else {
                return false;
            }
        },
        _ => {},
    }
    true
}

/// Looks for the next flag after a frame was given up, then reads the key of the frame
/// that it starts.
fn key_retry(pool: &mut Vec<u8>, map_book: &mut MapStructure) -> (r: bool)
    requires
        scan_inv(old(pool)@, old(map_book)@),
        old(map_book).status == MapStructureStatus::Flag,
        old(map_book).array_cursor >= 1,
    ensures
        (r, final(pool)@, final(map_book)@) == spec_key_retry(old(pool)@, old(map_book)@),
        scan_inv(final(pool)@, final(map_book)@),
        final(map_book).file_cursor + final(pool)@.len() == old(map_book).file_cursor + old(
            pool,
        )@.len(),
    decreases old(pool)@.len(), 0int,
{
    if process_flag(pool, map_book) == false {
        return false;
    }
    process_key(pool, map_book)
}

/// Reading the value's type byte: a zero, then a type from 1 to 99.
pub open spec fn value_type_stage(pool: Seq<u8>, st: ScanState) -> Step {
    let ac = st.array_cursor as int;
    if st.status != MapStructureStatus::ValueType {
        Step::Next(st)
    } else if pool.len() > ac + 2 {
        if pool[ac + 1] != 0 || pool[ac + 2] == 0 || pool[ac + 2] >= 100 {
            Step::Search(give_up(st, ac + 1))
        } else {
            Step::Next(
                ScanState {
                    frame: FrameView { value_type: pool[ac + 2], ..st.frame },
                    array_cursor: (ac + 2) as u64,
                    status: MapStructureStatus::ValueSizeInt,
                    ..st
                },
            )
        }
    } else {
        Step::Done(false, st)
    }
}

/// Reading the width byte of the value's length field: a zero then a non-zero width.
pub open spec fn value_size_int_stage(pool: Seq<u8>, st: ScanState) -> Step {
    let ac = st.array_cursor as int;
    if st.status != MapStructureStatus::ValueSizeInt {
        Step::Next(st)
    } else if pool.len() > ac + 2 {
        if pool[ac + 1] != 0 || pool[ac + 2] == 0 {
            Step::Search(give_up(st, ac + 1))
        } else {
            Step::Next(
                ScanState {
                    frame: FrameView { value_size_int: pool[ac + 2] as u64, ..st.frame },
                    array_cursor: (ac + 2) as u64,
                    status: MapStructureStatus::ValueSize,
                    ..st
                },
            )
        }
    } else {
        Step::Done(false, st)
    }
}

/// Reading the value's length: a zero, then as many bytes as the width, whose first
/// eight are the length.
pub open spec fn value_size_stage(pool: Seq<u8>, st: ScanState) -> Step {
    let ac = st.array_cursor as int;
    let w = st.frame.value_size_int as int;
    if st.status != MapStructureStatus::ValueSize {
        Step::Next(st)
    } else if pool.len() > ac + w + 1 {
        if pool[ac + 1] != 0 {
            Step::Search(give_up(st, ac + w))
        } else {
            let collect = pool.subrange(ac + 2, ac + w + 2);
            if collect.len() >= 8 {
                Step::Next(
                    ScanState {
                        frame: FrameView { value_size: be_value(collect), ..st.frame },
                        array_cursor: (ac + w + 1) as u64,
                        status: MapStructureStatus::Value,
                        ..st
                    },
                )
            } else {
                Step::Retry(give_up(st, ac + w + 1))
            }
        }
    } else {
        Step::Done(false, st)
    }
}

/// Locating the value: a zero, then the value's bytes, whose first and last file
/// offsets are recorded.
pub open spec fn value_stage(pool: Seq<u8>, st: ScanState) -> Step {
    let ac = st.array_cursor as int;
    let v = st.frame.value_size as int;
    let fc = st.file_cursor as int;
    if st.status != MapStructureStatus::Value {
        Step::Next(st)
    } else if pool.len() > ac + v + 1 {
        if pool[ac + 1] != 0 {
            Step::Search(give_up(st, ac + v))
        } else {
            Step::Next(
                ScanState {
                    frame: FrameView {
                        value_start: (fc + ac + 2) as u64,
                        value_end: (fc + ac + v + 1) as u64,
                        ..st.frame
                    },
                    array_cursor: (ac + v + 1) as u64,
                    status: MapStructureStatus::FrameEnd,
                    ..st
                },
            )
        }
    } else {
        Step::Done(false, st)
    }
}

pub proof fn lemma_value_stages(pool: Seq<u8>, st: ScanState)
    requires
        scan_inv(pool, st),
    ensures
        step_ok(pool, st, value_type_stage(pool, st)),
        step_ok(pool, st, value_size_int_stage(pool, st)),
        step_ok(pool, st, value_size_stage(pool, st)),
        step_ok(pool, st, value_stage(pool, st)),
{
}

/// The result of a stage of reading the value: a malformed part sends the scanner to
/// the next flag (and, when the length is too narrow, on to that frame's key).
pub open spec fn value_step_result(pool: Seq<u8>, step: Step) -> (bool, Seq<u8>, ScanState) {
    match step {
        Step::Done(b, s) => (b, pool, s),
        Step::Search(s) => spec_process_flag(pool, s),
        Step::Retry(s) => spec_key_retry(pool, s),
        Step::Next(s) => (true, pool, s),
    }
}

/// Reading the value of a frame, from whichever of its four parts the scanner is at:
/// `true` once the value is located (or when the scanner is not in the value),
/// `false` when `pool` ends first.
pub open spec fn spec_process_value(pool: Seq<u8>, st: ScanState) -> (bool, Seq<u8>, ScanState) {
    match value_type_stage(pool, st) {
        Step::Next(s1) => match value_size_int_stage(pool, s1) {
            Step::Next(s2) => match value_size_stage(pool, s2) {
                Step::Next(s3) => value_step_result(pool, value_stage(pool, s3)),
                other => value_step_result(pool, other),
            },
            other => value_step_result(pool, other),
        },
        other => value_step_result(pool, other),
    }
}

/// Reads the value of the frame being scanned.
#[verifier::rlimit(100)]
pub fn process_value(pool: &mut Vec<u8>, map_book: &mut MapStructure) -> (r: bool)
    requires
        scan_inv(old(pool)@, old(map_book)@),
    ensures
        (r, final(pool)@, final(map_book)@) == spec_process_value(old(pool)@, old(map_book)@),
        scan_inv(final(pool)@, final(map_book)@),
        final(map_book).file_cursor + final(pool)@.len() == old(map_book).file_cursor + old(
            pool,
        )@.len(),
{
    proof {
        lemma_value_stages(pool@, map_book@);
    }
    let len = pool.len();
    match map_book.status {
        MapStructureStatus::ValueType => {
            let ac = map_book.array_cursor;
            if fits(len, ac, 1) {
                if pool[(ac + 1) as usize] != 0 || pool[(ac + 2) as usize] == 0 || pool[(ac
                    + 2) as usize] >= 100 {
                    map_book.status = MapStructureStatus::Flag;
                    map_book.array_cursor = ac + 1;
                    return process_flag(pool, map_book);
                }
                map_book.frame.value_type = pool[(ac + 2) as usize];
                map_book.array_cursor = ac + 2;
                map_book.status = MapStructureStatus::ValueSizeInt;
            } else {
                return false;
            }
        },
        _ => {},
    }
    proof {
        lemma_value_stages(pool@, map_book@);
    }
    match map_book.status {
        MapStructureStatus::ValueSizeInt => {
            let ac = map_book.array_cursor;
            if fits(len, ac, 1) {
                if pool[(ac + 1) as usize] != 0 || pool[(ac + 2) as usize] == 0 {
                    map_book.status = MapStructureStatus::Flag;
                    map_book.array_cursor = ac + 1;
                    return process_flag(pool, map_book);
                }
                map_book.frame.value_size_int = pool[(ac + 2) as usize] as u64;
                map_book.array_cursor = ac + 2;
                map_book.status = MapStructureStatus::ValueSize;
            } else {
                return false;
            }
        },
        _ => {},
    }
    proof {
        lemma_value_stages(pool@, map_book@);
    }
    match map_book.status {
        MapStructureStatus::ValueSize => {
            let ac = map_book.array_cursor;
            let w = map_book.frame.value_size_int;
            if fits(len, ac, w) {
                if pool[(ac + 1) as usize] != 0 {
                    map_book.status = MapStructureStatus::Flag;
                    map_book.array_cursor = ac + w;
                    return process_flag(pool, map_book);
                }
                let collect = collect_range(pool, (ac + 2) as usize, (ac + w + 1) as usize);
                map_book.array_cursor = ac + w + 1;
                match crate::bytes::read_u64_num(collect) {
                    Ok(v) => {
                        map_book.status = MapStructureStatus::Value;
                        map_book.frame.value_size = v;
                    },
                    Err(_) => {
                        map_book.status = MapStructureStatus::Flag;
                        return key_retry(pool, map_book);
                    },
                }
            } else {
                return false;
            }
        },
        _ => {},
    }
    proof {
        lemma_value_stages(pool@, map_book@);
    }
    match map_book.status {
        MapStructureStatus::Value => {
            let ac = map_book.array_cursor;
            let v = map_book.frame.value_size;
            if fits(len, ac, v) {
                if pool[(ac + 1) as usize] != 0 {
                    map_book.status = MapStructureStatus::Flag;
                    map_book.array_cursor = ac + v;
                    return process_flag(pool, map_book);
                }
                map_book.frame.value_start = map_book.file_cursor + ac + 2;
                map_book.frame.value_end = map_book.file_cursor + ac + v + 1;
                map_book.array_cursor = ac + v + 1;
                map_book.status = MapStructureStatus::FrameEnd;
            } else {
                return false;
            }
        },
        _ => {},
    }
    true
}

/// Closing a frame: its end flag (zero, two, zero) must follow the value. The frame
/// is then recorded with its pointer, leaves `pool`, and the scanner awaits the next
/// flag; the second result tells whether `pool` is then empty. A missing end flag
/// sends the scanner to the next flag and fails (first result `true`), as does a
/// `pool` that ends first. Nothing happens, and nothing fails, when no frame is being
/// closed.
pub open spec fn spec_process_end(pool: Seq<u8>, st: ScanState) -> ((bool, bool), Seq<u8>, ScanState) {
    let ac = st.array_cursor as int;
    let fc = st.file_cursor as int;
    if st.status != MapStructureStatus::FrameEnd {
        ((false, false), pool, st)
    } else if pool.len() > ac + 3 {
        if pool[ac + 1] != 0 || pool[ac + 2] != 2 || pool[ac + 3] != 0 {
            let (_ok, p2, s2) = spec_process_flag(pool, give_up(st, ac + 3));
            ((true, false), p2, s2)
        } else {
            let end = fc + ac + 3;
            let size = end - st.frame.start + 1;
            let st1 = ScanState { frame: FrameView { end: end as u64, ..st.frame }, ..st };
            let st2 = scan_add(
                st1,
                DataFrameView {
                    key: st.frame.key,
                    frame_type: DataFrameType::Frame,
                    start: st.frame.start,
                    end: end as u64,
                    len: size as u64,
                },
            );
            let st3 = ScanState { array_cursor: 0, file_cursor: (fc + size) as u64, ..st2 };
            let p2 = pool.subrange(size, pool.len() as int);
            let st4 = ScanState { status: MapStructureStatus::Flag, ..scan_pointer(st3) };
            ((false, p2.len() == 0), p2, st4)
        }
    } else {
        ((true, false), pool, st)
    }
}

/// Closes the frame being scanned when its end flag is there.
pub fn process_end(pool: &mut Vec<u8>, map_book: &mut MapStructure) -> (r: (bool, bool))
    requires
        scan_inv(old(pool)@, old(map_book)@),
    ensures
        (r, final(pool)@, final(map_book)@) == spec_process_end(old(pool)@, old(map_book)@),
        scan_inv(final(pool)@, final(map_book)@),
        final(map_book).file_cursor + final(pool)@.len() == old(map_book).file_cursor + old(
            pool,
        )@.len(),
{
    let len = pool.len();
    match map_book.status {
        MapStructureStatus::FrameEnd => {
            let ac = map_book.array_cursor;
            if fits(len, ac, 2) {
                if pool[(ac + 1) as usize] != 0 || pool[(ac + 2) as usize] != 2 || pool[(ac
                    + 3) as usize] != 0 {
                    map_book.status = MapStructureStatus::Flag;
                    map_book.array_cursor = ac + 3;
                    process_flag(pool, map_book);
                    return (true, false);
                }
                map_book.frame.end = map_book.file_cursor + ac + 3;
                let frame_size = map_book.frame.end - map_book.frame.start + 1;
                let key = map_book.frame.key.clone();
                let fs = map_book.frame.start;
                let fe = map_book.frame.end;
                map_book.add(key, DataFrameType::Frame, fs, fe, frame_size);
                map_book.array_cursor = 0;
                map_book.file_cursor = map_book.file_cursor + frame_size;
                let rest = pool.split_off(frame_size as usize);
                *pool = rest;
                map_book.pointer();
                map_book.status = MapStructureStatus::Flag;
                if pool.len() == 0 {
                    return (false, true);
                } else {
                    return (false, false);
                }
            } else {
                return (true, false);
            }
        },
        _ => {
            return (false, false);
        },
    }
}

/// One pass of the scanner over `pool`, the `index`-th of at most four: find the
/// flag, read the key, the value and the end flag. `true` when a frame ends exactly
/// at the end of `pool`; `false` when a step runs out of bytes or fails, or after the
/// fourth pass.
pub open spec fn chunk_pass(pool: Seq<u8>, st: ScanState, index: int) -> (bool, Seq<u8>, ScanState)
    decreases 3 - index,
{
    let (f, p1, s1) = spec_process_flag(pool, st);
    if !f {
        (false, p1, s1)
    } else {
        let (k, p2, s2) = spec_process_key(p1, s1);
        if !k {
            (false, p2, s2)
        } else {
            let (v, p3, s3) = spec_process_value(p2, s2);
            if !v {
                (false, p3, s3)
            } else {
                let ((failed, end), p4, s4) = spec_process_end(p3, s3);
                if failed {
                    (false, p4, s4)
                } else if end {
                    (true, p4, s4)
                } else if index >= 3 {
                    (false, p4, s4)
                } else {
                    chunk_pass(p4, s4, index + 1)
                }
            }
        }
    }
}

/// The scanner run over the bytes held so far.
pub open spec fn spec_read_map_chunk(pool: Seq<u8>, st: ScanState) -> (bool, Seq<u8>, ScanState) {
    chunk_pass(pool, st, 0)
}

/// Runs the scanner over the bytes held so far: up to four frames are read.
pub fn read_map_chunk(pool: &mut Vec<u8>, map_book: &mut MapStructure) -> (r: bool)
    requires
        scan_inv(old(pool)@, old(map_book)@),
    ensures
        (r, final(pool)@, final(map_book)@) == spec_read_map_chunk(old(pool)@, old(map_book)@),
        scan_inv(final(pool)@, final(map_book)@),
        final(map_book).file_cursor + final(pool)@.len() == old(map_book).file_cursor + old(
            pool,
        )@.len(),
{
    let ghost p0 = pool@;
    let ghost st0 = map_book@;
    let mut index: u64 = 0;
    loop
        invariant
            index <= 3,
            p0 == old(pool)@,
            st0 == old(map_book)@,
            scan_inv(pool@, map_book@),
            map_book.file_cursor + pool@.len() == st0.file_cursor + p0.len(),
            chunk_pass(pool@, map_book@, index as int) == spec_read_map_chunk(p0, st0),
        decreases 3 - index,
    {
        let run_process_flag = process_flag(pool, map_book);
        if run_process_flag == false {
            return false;
        }
        let run_process_key = process_key(pool, map_book);
        if run_process_key == false {
            return false;
        }
        let run_process_value = process_value(pool, map_book);
        if run_process_value == false {
            return false;
        }
        let (failed, end) = process_end(pool, map_book);
        if failed {
            return false;
        }
        if end {
            return true;
        }
        if index == 3 {
            return false;
        } else {
            index += 1;
        }
    }
}

/// The scanner fed `data` from offset `read` on, ten bytes at a time, as a file is
/// read: after each piece it runs over the bytes held; the first piece shorter than
/// ten bytes is the last. The result of the last run and what is left.
pub open spec fn parse_from(data: Seq<u8>, read: int, pool: Seq<u8>, st: ScanState) -> (
    bool,
    Seq<u8>,
    ScanState,
)
    decreases data.len() - read,
{
    let v = if data.len() - read < 10 {
        data.len() - read
    } else {
        10
    };
    let (last, p2, s2) = spec_read_map_chunk(pool + data.subrange(read, read + v), st);
    if v < 10 || read < 0 {
        (last, p2, s2)
    } else {
        parse_from(data, read + v, p2, s2)
    }
}

/// What scanning the bytes `data` of a map file finds: the frames and runs, the
/// pointers of the frames, and whether the file is corrupt. Bytes left over at the end
/// are recorded as unmarked data; the map is corrupt also when the last run of the
/// scanner did not end exactly at a frame's end.
pub open spec fn spec_parse_map(data: Seq<u8>) -> ScanState {
    let (last, p, s) = parse_from(data, 0, Seq::empty(), scan_initial());
    let s2 = if p.len() > 0 {
        spec_handle_unmarked(p, 0, p.len() - 1, s).1
    } else {
        s
    };
    ScanState { corrupt: s2.corrupt || !last, ..s2 }
}

/// Scans the bytes `data` of a map file, ten bytes at a time as the file is read.
pub fn parse_map(data: &Vec<u8>) -> (map_book: MapStructure)
    ensures
        map_book@ == spec_parse_map(data@),
{
    let len = data.len();
    let mut last_read: usize = 0;
    let mut map_book = MapStructure::new();
    let mut collect: Vec<u8> = Vec::new();
    let mut last_read_map_chunk = false;
    loop
        invariant_except_break
            parse_from(data@, last_read as int, collect@, map_book@) == parse_from(
                data@,
                0,
                Seq::empty(),
                scan_initial(),
            ),
        invariant
            last_read <= len,
            len == data@.len(),
            map_book.file_cursor + collect@.len() == last_read,
            scan_inv(collect@, map_book@),
        ensures
            (last_read_map_chunk, collect@, map_book@) == parse_from(
                data@,
                0,
                Seq::empty(),
                scan_initial(),
            ),
        decreases len - last_read,
    {
        let v: usize = if len - last_read < 10 {
            len - last_read
        } else {
            10
        };
        let mut chunk: Vec<u8> = if v > 0 {
            collect_range(data, last_read, last_read + v - 1)
        } else {
            Vec::new()
        };
        proof {
            assert(chunk@ =~= data@.subrange(last_read as int, last_read + v));
        }
        collect.append(&mut chunk);
        last_read_map_chunk = read_map_chunk(&mut collect, &mut map_book);
        last_read = last_read + v;
        if v < 10 {
            break ;
        }
    }
    if collect.len() > 0 {
        let end = collect.len() - 1;
        handle_unmarked_data(&mut collect, 0, end, &mut map_book);
    }
    if last_read_map_chunk == false && map_book.corrupt == false {
        map_book.corrupt = true;
    }
    map_book
}

/// The run and pointer that a frame of `key` occupying `start..start + len` gets.
pub open spec fn scanned_frame(st: ScanState, key: Seq<char>, tag: u8, payload: Seq<u8>) -> ScanState {
    let kb = encode_utf8(key);
    let len = frame_bytes(kb, tag, payload).len();
    let start = st.file_cursor;
    let end = (start + len - 1) as u64;
    ScanState {
        status: MapStructureStatus::Flag,
        file_cursor: (start + len) as u64,
        array_cursor: 0,
        frame: FrameView {
            start,
            end,
            key,
            key_size_int: 8,
            key_size: kb.len() as u64,
            value_size_int: 8,
            value_type: tag,
            value_size: payload.len() as u64,
            value_start: (start + 29 + kb.len()) as u64,
            value_end: (start + 28 + kb.len() + payload.len()) as u64,
        },
        frames: st.frames.push(
            DataFrameView {
                key,
                frame_type: DataFrameType::Frame,
                start,
                end,
                len: len as u64,
            },
        ),
        pointers: st.pointers.insert(key, expected_pointer(kb, tag, payload, start, end)),
        corrupt: st.corrupt,
    }
}

/// The state after reading the key of a frame of `key` that starts at the file cursor.
pub open spec fn after_key(st: ScanState, key: Seq<char>) -> ScanState {
    let k = encode_utf8(key).len();
    ScanState {
        frame: FrameView {
            start: st.file_cursor,
            key_size_int: 8,
            key_size: k as u64,
            key,
            ..frame_cleared()
        },
        array_cursor: (14 + k) as u64,
        status: MapStructureStatus::ValueType,
        ..st
    }
}

/// The state after reading the value of such a frame.
pub open spec fn after_value(st: ScanState, key: Seq<char>, tag: u8, payload: Seq<u8>) -> ScanState {
    let s = after_key(st, key);
    let k = encode_utf8(key).len();
    let p = payload.len();
    let fc = st.file_cursor;
    ScanState {
        frame: FrameView {
            value_type: tag,
            value_size_int: 8,
            value_size: p as u64,
            value_start: (fc + 29 + k) as u64,
            value_end: (fc + 28 + k + p) as u64,
            ..s.frame
        },
        array_cursor: (28 + k + p) as u64,
        status: MapStructureStatus::FrameEnd,
        ..s
    }
}

} // verus!
