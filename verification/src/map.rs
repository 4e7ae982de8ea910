use vstd::prelude::*;
use vstd::hash_map::StringHashMap;
use vstd::utf8::encode_utf8;
use crate::error::Error;
use crate::frame::{
    Pointer, ReadPointerError, Value, decode_value, decodes_to, keyval_bytes, parse_keyval,
    parse_frame_to_pointer, expected_pointer, frame_bytes, value_tag, value_payload,
    lemma_frame_pointer_roundtrip, spec_frame_pointer,
};
use crate::scan::{
    DataFrame, DataFrameType, DataFrameView, MapStructure, ScanState, frames_view, parse_map,
    spec_parse_map,
};

verus! {

/// A write that brings the map file up to date: `data` goes at `offset`.
#[derive(Debug)]
pub struct FileWrite {
    pub offset: u64,
    pub data: Vec<u8>,
}

/// A write as plain values.
pub struct FileWriteView {
    pub offset: u64,
    pub data: Seq<u8>,
}

impl View for FileWrite {
    type V = FileWriteView;

    open spec fn view(&self) -> FileWriteView {
        FileWriteView { offset: self.offset, data: self.data@ }
    }
}

/// The views of a list of writes.
pub open spec fn writes_view(s: Seq<FileWrite>) -> Seq<FileWriteView> {
    s.map_values(|w: FileWrite| w@)
}

/// The file `file` after the write `w`; a write past the end makes the file longer.
pub open spec fn apply_write(file: Seq<u8>, w: FileWriteView) -> Seq<u8> {
    let o = w.offset as int;
    let e = o + w.data.len();
    if e <= file.len() {
        file.subrange(0, o) + w.data + file.subrange(e, file.len() as int)
    } else {
        file.subrange(0, o) + w.data
    }
}

/// The file `file` after the writes `ws`, in order.
pub open spec fn apply_writes(file: Seq<u8>, ws: Seq<FileWriteView>) -> Seq<u8>
    decreases ws.len(),
{
    if ws.len() == 0 {
        file
    } else {
        apply_write(apply_writes(file, ws.drop_last()), ws.last())
    }
}

/// A key-value map kept in one file: the runs of the file, the pointer to the value
/// of each key, the values kept in memory, the file's path and its length.
pub struct BucketMap {
    pub corrupt: bool,
    pub pointers: StringHashMap<Pointer>,
    pub frames: Vec<DataFrame>,
    pub store: StringHashMap<Value>,
    pub path: String,
    pub size: usize,
}

/// The runs `fs` cover `0..size` of the file one after the other, each with its true
/// length.
pub open spec fn frames_tile(fs: Seq<DataFrameView>, size: int) -> bool {
    &&& fs.len() == 0 ==> size == 0
    &&& fs.len() > 0 ==> fs[fs.len() - 1].end + 1 == size
    &&& forall|i: int|
        0 <= i < fs.len() ==> {
            &&& #[trigger] fs[i].start == (if i == 0 {
                0
            } else {
                fs[i - 1].end + 1
            })
            &&& fs[i].start <= fs[i].end
            &&& fs[i].len == fs[i].end - fs[i].start + 1
        }
}

/// In runs that tile the file, earlier runs end before later ones start, and each run
/// ends before the end of the file.
pub proof fn lemma_tile_order(fs: Seq<DataFrameView>, size: int)
    requires
        frames_tile(fs, size),
    ensures
        forall|i: int, j: int| 0 <= i < j < fs.len() ==> #[trigger] fs[i].end < #[trigger] fs[j].start,
        forall|i: int| 0 <= i < fs.len() ==> #[trigger] fs[i].end < size,
    decreases fs.len(),
{
    if fs.len() > 0 {
        let f2 = fs.drop_last();
        assert forall|i: int| 0 <= i < f2.len() implies #[trigger] f2[i].start == (if i == 0 {
            0
        } else {
            f2[i - 1].end + 1
        }) && f2[i].start <= f2[i].end && f2[i].len == f2[i].end - f2[i].start + 1 by {
            assert(f2[i] == fs[i]);
            if i > 0 {
                assert(f2[i - 1] == fs[i - 1]);
            }
        }
        if f2.len() > 0 {
            assert(fs[fs.len() - 1].start == fs[fs.len() - 2].end + 1);
        }
        lemma_tile_order(f2, if f2.len() == 0 { 0 } else { fs[fs.len() - 2].end + 1 });
        assert forall|i: int, j: int| 0 <= i < j < fs.len() implies #[trigger] fs[i].end
            < #[trigger] fs[j].start by {
            if j < fs.len() - 1 {
                assert(f2[i] == fs[i] && f2[j] == fs[j]);
            } else {
                if i < j - 1 {
                    assert(f2[i] == fs[i] && f2[j - 1] == fs[j - 1]);
                }
            }
        }
        assert forall|i: int| 0 <= i < fs.len() implies #[trigger] fs[i].end < size by {
            if i < fs.len() - 1 {
                assert(f2[i] == fs[i]);
            }
        }
    }
}

/// Only frames have keys, and no two frames have the same key.
pub open spec fn frame_keys_ok(fs: Seq<DataFrameView>) -> bool {
    &&& forall|i: int| 0 <= i < fs.len() ==> #[trigger] fs[i].frame_type != DataFrameType::Clear
    &&& forall|i: int|
        0 <= i < fs.len() ==> (#[trigger] fs[i].frame_type == DataFrameType::Frame
            <==> fs[i].key.len() > 0)
    &&& forall|i: int, j: int|
        0 <= i < fs.len() && 0 <= j < fs.len() && i != j && fs[i].frame_type
            == DataFrameType::Frame ==> #[trigger] fs[i].key != #[trigger] fs[j].key
}

/// The pointer `p` lies in the run `f`: same ends, and its value inside.
pub open spec fn pointer_in_frame(p: Pointer, f: DataFrameView) -> bool {
    &&& p.start == f.start
    &&& p.end == f.end
    &&& f.start <= p.value_start
    &&& p.value_start + p.value_size <= f.end + 1
}

/// The keys with a pointer are exactly the keys of the frames, and each pointer lies
/// in the frame of its key.
pub open spec fn pointers_ok(ptrs: Map<Seq<char>, Pointer>, fs: Seq<DataFrameView>) -> bool {
    &&& forall|k: Seq<char>|
        #[trigger] ptrs.contains_key(k) ==> exists|i: int|
            0 <= i < fs.len() && fs[i].frame_type == DataFrameType::Frame && fs[i].key == k
                && pointer_in_frame(ptrs[k], fs[i])
    &&& forall|i: int|
        0 <= i < fs.len() && fs[i].frame_type == DataFrameType::Frame ==> ptrs.contains_key(
            #[trigger] fs[i].key,
        )
}

impl BucketMap {
    /// The runs of the file as plain values.
    pub open spec fn frames_v(&self) -> Seq<DataFrameView> {
        frames_view(self.frames@)
    }

    /// The map is consistent with its file: the runs cover the file, only frames have
    /// keys, and every key's pointer lies in its frame.
    pub open spec fn wf(&self) -> bool {
        &&& frames_tile(self.frames_v(), self.size as int)
        &&& frame_keys_ok(self.frames_v())
        &&& pointers_ok(self.pointers@, self.frames_v())
        &&& self.size <= u64::MAX
    }

    /// The map of a file whose bytes are `data`, as scanning finds it.
    pub fn load(data: &Vec<u8>) -> (m: BucketMap)
        ensures
            m.corrupt == spec_parse_map(data@).corrupt,
            m.pointers@ == spec_parse_map(data@).pointers,
            m.frames_v() == spec_parse_map(data@).frames,
            m.store@ == Map::<Seq<char>, Value>::empty(),
            m.path@ == Seq::<char>::empty(),
            m.size == data@.len(),
    {
        let map = parse_map(data);
        BucketMap {
            corrupt: map.corrupt,
            pointers: map.pointers,
            frames: map.frames,
            store: StringHashMap::new(),
            path: String::new(),
            size: data.len(),
        }
    }

    /// Sets the path of the map's file.
    pub fn path(&mut self, p: String)
        ensures
            final(self).path == p,
            final(self).corrupt == old(self).corrupt,
            final(self).pointers == old(self).pointers,
            final(self).frames == old(self).frames,
            final(self).store == old(self).store,
            final(self).size == old(self).size,
    {
        self.path = p;
    }

    /// Whether the runs cover the file one after the other, each with its true length,
    /// and the file's length fits in `u64`: what `add` and `delete` need of the map
    /// before they rewrite a run.
    pub fn runs_tile(&self) -> (b: bool)
        ensures
            b == (frames_tile(self.frames_v(), self.size as int) && self.size <= u64::MAX),
    {
        let ghost fs = self.frames_v();
        let mut expected: u128 = 0;
        let mut i: usize = 0;
        while i < self.frames.len()
            invariant
                fs == self.frames_v(),
                i <= fs.len(),
                expected == (if i == 0 {
                    0
                } else {
                    fs[i - 1].end + 1
                }),
                forall|j: int|
                    0 <= j < i ==> {
                        &&& #[trigger] fs[j].start == (if j == 0 {
                            0
                        } else {
                            fs[j - 1].end + 1
                        })
                        &&& fs[j].start <= fs[j].end
                        &&& fs[j].len == fs[j].end - fs[j].start + 1
                    },
            decreases fs.len() - i,
        {
            let f = &self.frames[i];
            assert(fs[i as int] == self.frames@[i as int]@);
            if f.start as u128 != expected || f.start > f.end || f.len as u128 != f.end as u128
                - f.start as u128 + 1 {
                proof {
                    assert(!(fs[i as int].start == (if i == 0 {
                        0
                    } else {
                        fs[i - 1].end + 1
                    }) && fs[i as int].start <= fs[i as int].end && fs[i as int].len
                        == fs[i as int].end - fs[i as int].start + 1));
                }
                return false;
            }
            expected = f.end as u128 + 1;
            i = i + 1;
        }
        expected == self.size as u128 && self.size as u128 <= u64::MAX as u128
    }

    /// Where the value of `key` lies in the file, or `NotFound` when the key has none.
    pub fn read(&self, key: &str) -> (r: Result<Pointer, ReadPointerError>)
        ensures
            self.pointers@.contains_key(key@) ==> r == Ok::<Pointer, ReadPointerError>(
                self.pointers@[key@],
            ),
            !self.pointers@.contains_key(key@) ==> r == Err::<Pointer, ReadPointerError>(
                ReadPointerError::NotFound,
            ),
    {
        if self.pointers.contains_key(key) == false {
            return Err(ReadPointerError::NotFound);
        }
        match self.pointers.get(key) {
            Some(pointer) => Ok(*pointer),
            None => Err(ReadPointerError::FailedGetPointer),
        }
    }
}

/// The value that the bytes `buffer`, read at `pointer`, hold: `InvalidRead` when
/// fewer or more bytes than the value's size were read.
pub fn read_value(pointer: &Pointer, buffer: Vec<u8>) -> (r: Result<Value, ReadPointerError>)
    ensures
        buffer@.len() != pointer.value_size ==> r == Err::<Value, ReadPointerError>(
            ReadPointerError::InvalidRead,
        ),
        buffer@.len() == pointer.value_size ==> decodes_to(pointer.value_type, buffer@, r),
{
    if buffer.len() as u64 != pointer.value_size {
        return Err(ReadPointerError::InvalidRead);
    }
    decode_value(pointer.value_type, buffer)
}

/// The first run of `fs`, from index `i` on, of which `p` holds.
pub open spec fn first_from(fs: Seq<DataFrameView>, p: spec_fn(DataFrameView) -> bool, i: int) -> Option<int>
    decreases fs.len() - i,
{
    if i < 0 || i >= fs.len() {
        None
    } else if p(fs[i]) {
        Some(i)
    } else {
        first_from(fs, p, i + 1)
    }
}

/// The first run of `fs` of which `p` holds.
pub open spec fn first_index(fs: Seq<DataFrameView>, p: spec_fn(DataFrameView) -> bool) -> Option<int> {
    first_from(fs, p, 0)
}

/// The run of `key`.
pub open spec fn has_key(key: Seq<char>) -> spec_fn(DataFrameView) -> bool {
    |f: DataFrameView| f.key == key
}

/// An empty run of at least `n` bytes.
pub open spec fn empty_fits(n: int) -> spec_fn(DataFrameView) -> bool {
    |f: DataFrameView| f.len >= n && f.frame_type == DataFrameType::Empty
}

/// The run of `key` that is being cleared.
pub open spec fn cleared_key(key: Seq<char>) -> spec_fn(DataFrameView) -> bool {
    |f: DataFrameView| f.frame_type == DataFrameType::Clear && f.key == key
}

/// `first_from` is the first index of which `p` holds, at or after `i`.
pub proof fn lemma_first_from(fs: Seq<DataFrameView>, p: spec_fn(DataFrameView) -> bool, i: int)
    requires
        0 <= i,
    ensures
        first_from(fs, p, i) matches Some(j) ==> i <= j < fs.len() && p(fs[j]) && forall|l: int|
            i <= l < j ==> !p(#[trigger] fs[l]),
        first_from(fs, p, i) is None ==> forall|l: int| i <= l < fs.len() ==> !p(#[trigger] fs[l]),
    decreases fs.len() - i,
{
    if i < fs.len() && !p(fs[i]) {
        lemma_first_from(fs, p, i + 1);
    }
}

/// The first run of `frames` that has the key `key` (`which` 0), that is empty and
/// holds at least `n` bytes (1), or that is being cleared and has the key `key` (2).
fn find_frame(
    frames: &Vec<DataFrame>,
    key: &String,
    n: u64,
    which: u8,
) -> (r: Option<usize>)
    requires
        which <= 2,
    ensures
        ({
            let p = if which == 0 {
                has_key(key@)
            } else if which == 1 {
                empty_fits(n as int)
            } else {
                cleared_key(key@)
            };
            match r {
                Some(i) => first_index(frames_view(frames@), p) == Some(i as int),
                None => first_index(frames_view(frames@), p) is None,
            }
        }),
{
    let ghost fs = frames_view(frames@);
    let ghost p = if which == 0 {
        has_key(key@)
    } else if which == 1 {
        empty_fits(n as int)
    } else {
        cleared_key(key@)
    };
    let mut i: usize = 0;
    while i < frames.len()
        invariant
            i <= frames@.len(),
            fs == frames_view(frames@),
            p == (if which == 0 {
                has_key(key@)
            } else if which == 1 {
                empty_fits(n as int)
            } else {
                cleared_key(key@)
            }),
            first_from(fs, p, i as int) == first_index(fs, p),
        decreases frames@.len() - i,
    {
        let f = &frames[i];
        let hit = if which == 0 {
            f.key == *key
        } else if which == 1 {
            f.len >= n && f.frame_type == DataFrameType::Empty
        } else {
            f.frame_type == DataFrameType::Clear && f.key == *key
        };
        assert(fs[i as int] == frames@[i as int]@);
        if hit {
            return Some(i);
        }
        i = i + 1;
    }
    None
}

/// Replaces the run at `i` of `frames`.
fn set_frame(frames: &mut Vec<DataFrame>, i: usize, key: String, t: DataFrameType, start: u64, end: u64, len: u64)
    requires
        i < old(frames)@.len(),
    ensures
        final(frames)@.len() == old(frames)@.len(),
        frames_view(final(frames)@) == frames_view(old(frames)@).update(
            i as int,
            DataFrameView { key: key@, frame_type: t, start, end, len },
        ),
{
    let ghost old_fs = frames@;
    frames.set(i, DataFrame { key, frame_type: t, start, end, len });
    assert(frames_view(frames@) =~= frames_view(old_fs).update(
        i as int,
        DataFrameView { key: key@, frame_type: t, start, end, len },
    ));
}

/// `count` zero bytes.
fn zeros(count: usize) -> (v: Vec<u8>)
    ensures
        v@ == Seq::new(count as nat, |i: int| 0u8),
{
    let mut v: Vec<u8> = Vec::new();
    while v.len() < count
        invariant
            v@.len() <= count,
            forall|i: int| 0 <= i < v@.len() ==> v@[i] == 0u8,
        decreases count - v@.len(),
    {
        v.push(0);
    }
    assert(v@ =~= Seq::new(count as nat, |i: int| 0u8));
    v
}

/// The runs `fs` after the run at `c` is cleared: it absorbs an empty run just before
/// it and one just after it, and becomes an empty run without a key. The runs and the
/// index of the cleared run.
pub open spec fn spec_merge_clear(fs: Seq<DataFrameView>, c: int) -> (Seq<DataFrameView>, int) {
    let c1 = merge_lo(fs, c);
    let fs2 = merge_next(merge_prev(fs, c), c1);
    (fs2.update(c1, DataFrameView { frame_type: DataFrameType::Empty, key: Seq::empty(), ..fs2[c1] }), c1)
}

/// The runs after the run at `c` absorbed an empty run just after it.
pub open spec fn merge_next(fs1: Seq<DataFrameView>, c1: int) -> Seq<DataFrameView> {
    if fs1.len() > c1 + 1 && fs1[c1 + 1].frame_type == DataFrameType::Empty {
        let f = DataFrameView {
            end: fs1[c1 + 1].end,
            len: (fs1[c1 + 1].end - fs1[c1].start + 1) as u64,
            ..fs1[c1]
        };
        fs1.update(c1, f).remove(c1 + 1)
    } else {
        fs1
    }
}

/// The runs around `c` are in file order, so that a cleared run can absorb its empty
/// neighbours.
pub open spec fn merge_ok(fs: Seq<DataFrameView>, c: int) -> bool {
    &&& 0 <= c < fs.len()
    &&& fs[c].end < u64::MAX
    &&& c + 1 < fs.len() ==> fs[c + 1].end < u64::MAX
    &&& c > 0 ==> fs[c - 1].start <= fs[c].end
    &&& c + 1 < fs.len() ==> fs[c].start <= fs[c + 1].end && (c > 0 ==> fs[c - 1].start
        <= fs[c + 1].end)
}

/// Clears the run at `c`, absorbing empty neighbours; the index of the cleared run.
fn merge_clear(frames: &mut Vec<DataFrame>, c: usize) -> (r: usize)
    requires
        merge_ok(frames_view(old(frames)@), c as int),
    ensures
        (frames_view(final(frames)@), r as int) == spec_merge_clear(frames_view(old(frames)@), c as int),
        r < final(frames)@.len(),
{
    let ghost fs = frames_view(frames@);
    let mut current = c;
    assert(fs[c as int] == frames@[c as int]@);
    if current > 0 {
        assert(fs[c - 1] == frames@[c - 1]@);
        match frames[current - 1].frame_type {
            DataFrameType::Empty => {
                let start = frames[current - 1].start;
                let end = frames[current].end;
                let key = frames[current].key.clone();
                let t = frames[current].frame_type;
                set_frame(frames, current, key, t, start, end, end - start + 1);
                let ghost before = frames@;
                frames.remove(current - 1);
                assert(frames_view(frames@) =~= frames_view(before).remove(current - 1));
                current = current - 1;
            },
            _ => {},
        }
    }
    let ghost fs1 = frames_view(frames@);
    assert(fs1[current as int] == frames@[current as int]@);
    if frames.len() > current + 1 {
        assert(fs1[current + 1] == frames@[current + 1]@);
        match frames[current + 1].frame_type {
            DataFrameType::Empty => {
                let start = frames[current].start;
                let end = frames[current + 1].end;
                let key = frames[current].key.clone();
                let t = frames[current].frame_type;
                set_frame(frames, current, key, t, start, end, end - start + 1);
                let ghost before = frames@;
                frames.remove(current + 1);
                assert(frames_view(frames@) =~= frames_view(before).remove(current + 1));
            },
            _ => {},
        }
    }
    assert(frames_view(frames@)[current as int] == frames@[current as int]@);
    let start = frames[current].start;
    let end = frames[current].end;
    let len = frames[current].len;
    set_frame(frames, current, String::new(), DataFrameType::Empty, start, end, len);
    current
}

/// The runs `fs1` after a frame of `key` taking `n` bytes is placed: in the first
/// empty run that can hold it, whose rest stays empty; else at the end of the file,
/// which grows. The runs, where the frame starts, the new length of the file, and
/// whether an empty run was used.
pub open spec fn spec_place(fs1: Seq<DataFrameView>, key: Seq<char>, n: int, size: int) -> (
    Seq<DataFrameView>,
    int,
    int,
    bool,
) {
    match first_index(fs1, empty_fits(n)) {
        Some(e) => {
            let start = fs1[e].start as int;
            let end = start + n - 1;
            let fs2 = if fs1[e].len > n {
                fs1.insert(
                    e + 1,
                    DataFrameView {
                        key: Seq::empty(),
                        frame_type: DataFrameType::Empty,
                        start: (end + 1) as u64,
                        end: fs1[e].end,
                        len: (fs1[e].end - (end + 1) + 1) as u64,
                    },
                )
            } else {
                fs1
            };
            (
                fs2.update(
                    e,
                    DataFrameView {
                        key,
                        frame_type: DataFrameType::Frame,
                        start: fs1[e].start,
                        end: end as u64,
                        len: n as u64,
                    },
                ),
                start,
                size,
                true,
            )
        },
        None => (
            fs1.push(
                DataFrameView {
                    key,
                    frame_type: DataFrameType::Frame,
                    start: size as u64,
                    end: (size + n - 1) as u64,
                    len: n as u64,
                },
            ),
            size,
            size + n,
            false,
        ),
    }
}

/// What rewriting the value of a key already in the map does.
pub struct UpdatePlan {
    pub frames: Seq<DataFrameView>,
    pub start: int,
    pub size: int,
    pub zero_start: int,
    pub zero_len: int,
}

/// Rewriting the value of `key`, whose frame is in `fs`, with a frame of `n` bytes:
/// the old frame is marked for clearing, the new one is placed, then the old one is
/// cleared (absorbing empty neighbours) and its bytes are to be zeroed.
pub open spec fn spec_update(fs: Seq<DataFrameView>, key: Seq<char>, n: int, size: int) -> UpdatePlan {
    let i = first_index(fs, has_key(key)).unwrap();
    let fs1 = fs.update(i, DataFrameView { frame_type: DataFrameType::Clear, ..fs[i] });
    let (fs3, start, size2, found) = spec_place(fs1, key, n, size);
    let c = if found {
        first_index(fs3, cleared_key(key)).unwrap()
    } else {
        first_index(fs3, has_key(key)).unwrap()
    };
    let (fs6, c6) = spec_merge_clear(fs3, c);
    UpdatePlan {
        frames: fs6,
        start,
        size: size2,
        zero_start: fs6[c6].start as int,
        zero_len: fs6[c6].len as int,
    }
}

/// When some run satisfies `p`, a first one does, no later.
pub proof fn lemma_first_some(fs: Seq<DataFrameView>, p: spec_fn(DataFrameView) -> bool, j: int)
    requires
        0 <= j < fs.len(),
        p(fs[j]),
    ensures
        first_index(fs, p) matches Some(c) && 0 <= c <= j && p(fs[c]) && forall|l: int|
            0 <= l < c ==> !p(#[trigger] fs[l]),
{
    lemma_first_from(fs, p, 0);
}

/// Where the run at `j` of the runs before placing a frame at `e` ends up.
pub open spec fn place_index(j: int, e: int, inserted: bool) -> int {
    if inserted && j > e {
        j + 1
    } else {
        j
    }
}

/// Placing a frame keeps the file tiled, keeps every other run, and adds only the frame
/// and perhaps the empty rest of the run it took.
pub proof fn lemma_place(fs1: Seq<DataFrameView>, key: Seq<char>, n: int, size: int)
    requires
        frames_tile(fs1, size),
        0 < n,
        size + n <= u64::MAX,
    ensures
        ({
            let (fs3, start, size2, found) = spec_place(fs1, key, n, size);
            &&& frames_tile(fs3, size2)
            &&& size2 <= u64::MAX
            &&& 0 <= start
            &&& start + n <= size2
            &&& !found ==> fs3 == fs1.push(
                DataFrameView {
                    key,
                    frame_type: DataFrameType::Frame,
                    start: size as u64,
                    end: (size + n - 1) as u64,
                    len: n as u64,
                },
            ) && start == size && size2 == size + n
            &&& found ==> {
                let e = first_index(fs1, empty_fits(n)).unwrap();
                let inserted = fs1[e].len > n;
                &&& first_index(fs1, empty_fits(n)) is Some
                &&& 0 <= e < fs1.len()
                &&& size2 == size
                &&& start == fs1[e].start
                &&& fs1[e].frame_type == DataFrameType::Empty
                &&& fs3.len() == fs1.len() + (if inserted {
                    1int
                } else {
                    0
                })
                &&& fs3[e] == DataFrameView {
                    key,
                    frame_type: DataFrameType::Frame,
                    start: fs1[e].start,
                    end: (start + n - 1) as u64,
                    len: n as u64,
                }
                &&& inserted ==> fs3[e + 1].frame_type == DataFrameType::Empty && fs3[e + 1].key
                    == Seq::<char>::empty()
                &&& forall|j: int|
                    0 <= j < fs1.len() && j != e ==> #[trigger] fs3[place_index(j, e, inserted)]
                        == fs1[j]
            }
        }),
{
    let (fs3, start, size2, found) = spec_place(fs1, key, n, size);
    lemma_tile_order(fs1, size);
    lemma_first_from(fs1, empty_fits(n), 0);
    match first_index(fs1, empty_fits(n)) {
        Some(e) => {
            assert(empty_fits(n)(fs1[e]));
            let end = start + n - 1;
            let inserted = fs1[e].len > n;
            let fs2 = if inserted {
                fs1.insert(
                    e + 1,
                    DataFrameView {
                        key: Seq::empty(),
                        frame_type: DataFrameType::Empty,
                        start: (end + 1) as u64,
                        end: fs1[e].end,
                        len: (fs1[e].end - (end + 1) + 1) as u64,
                    },
                )
            } else {
                fs1
            };
            assert forall|j: int| 0 <= j < fs1.len() && j != e implies #[trigger] fs3[place_index(
                j,
                e,
                inserted,
            )] == fs1[j] by {
                assert(fs2[place_index(j, e, inserted)] == fs1[j]);
            }
            assert forall|i: int| 0 <= i < fs3.len() implies {
                &&& #[trigger] fs3[i].start == (if i == 0 {
                    0
                } else {
                    fs3[i - 1].end + 1
                })
                &&& fs3[i].start <= fs3[i].end
                &&& fs3[i].len == fs3[i].end - fs3[i].start + 1
            } by {
                if inserted {
                    if i < e {
                        assert(fs3[i] == fs1[i]);
                        if i > 0 {
                            assert(fs3[i - 1] == fs1[i - 1]);
                        }
                    } else if i == e {
                        if i > 0 {
                            assert(fs3[i - 1] == fs1[i - 1]);
                        }
                    } else if i == e + 1 {
                    } else {
                        assert(fs3[i] == fs1[i - 1]);
                        if i - 1 == e + 1 {
                        } else {
                            assert(fs3[i - 1] == fs1[i - 2]);
                        }
                    }
                } else {
                    if i != e {
                        assert(fs3[i] == fs1[i]);
                    }
                    if i > 0 && i - 1 != e {
                        assert(fs3[i - 1] == fs1[i - 1]);
                    }
                }
            }
            if fs3.len() > 0 {
                let l = fs3.len() - 1;
                if inserted {
                    if l > e + 1 {
                        assert(fs3[l] == fs1[l - 1]);
                    }
                } else {
                    if l != e {
                        assert(fs3[l] == fs1[l]);
                    }
                }
            }
        },
        None => {
            let fs3b = fs1.push(
                DataFrameView {
                    key,
                    frame_type: DataFrameType::Frame,
                    start: size as u64,
                    end: (size + n - 1) as u64,
                    len: n as u64,
                },
            );
            assert forall|i: int| 0 <= i < fs3.len() implies {
                &&& #[trigger] fs3[i].start == (if i == 0 {
                    0
                } else {
                    fs3[i - 1].end + 1
                })
                &&& fs3[i].start <= fs3[i].end
                &&& fs3[i].len == fs3[i].end - fs3[i].start + 1
            } by {
                if i < fs1.len() {
                    assert(fs3[i] == fs1[i]);
                }
                if 0 < i {
                    assert(fs3[i - 1] == fs1[i - 1]);
                }
            }
        },
    }
}

/// The first run that clearing the run at `c` absorbs.
pub open spec fn merge_lo(fs: Seq<DataFrameView>, c: int) -> int {
    if c > 0 && fs[c - 1].frame_type == DataFrameType::Empty {
        c - 1
    } else {
        c
    }
}

/// The last run that clearing the run at `c` absorbs.
pub open spec fn merge_hi(fs: Seq<DataFrameView>, c: int) -> int {
    if c + 1 < fs.len() && fs[c + 1].frame_type == DataFrameType::Empty {
        c + 1
    } else {
        c
    }
}

/// In runs that tile the file, a run can absorb its neighbours.
pub proof fn lemma_merge_ok(fs: Seq<DataFrameView>, c: int, size: int)
    requires
        frames_tile(fs, size),
        0 <= c < fs.len(),
        size <= u64::MAX,
    ensures
        merge_ok(fs, c),
{
    lemma_tile_order(fs, size);
    assert(fs[c].end < size);
    assert(fs[c].start <= fs[c].end);
    if c > 0 {
        assert(fs[c - 1].end < fs[c].start);
        assert(fs[c - 1].start <= fs[c - 1].end);
    }
    if c + 1 < fs.len() {
        assert(fs[c + 1].end < size);
        assert(fs[c].end < fs[c + 1].start);
        assert(fs[c + 1].start <= fs[c + 1].end);
    }
}

/// The runs after the cleared run absorbed an empty run just before it.
pub open spec fn merge_prev(fs: Seq<DataFrameView>, c: int) -> Seq<DataFrameView> {
    if c > 0 && fs[c - 1].frame_type == DataFrameType::Empty {
        let f = DataFrameView {
            start: fs[c - 1].start,
            len: (fs[c].end - fs[c - 1].start + 1) as u64,
            ..fs[c]
        };
        fs.update(c, f).remove(c - 1)
    } else {
        fs
    }
}

proof fn lemma_merge_prev(fs: Seq<DataFrameView>, c: int)
    requires
        0 <= c < fs.len(),
    ensures
        ({
            let fs1 = merge_prev(fs, c);
            let lo = merge_lo(fs, c);
            &&& fs1.len() == fs.len() - (c - lo)
            &&& forall|j: int| 0 <= j < lo ==> #[trigger] fs1[j] == fs[j]
            &&& forall|j: int| c < j < fs.len() ==> #[trigger] fs1[j - (c - lo)] == fs[j]
            &&& fs1[lo].start == fs[lo].start
            &&& fs1[lo].end == fs[c].end
            &&& spec_merge_clear(fs, c).1 == lo
        }),
{
}

proof fn lemma_merge_next(fs1: Seq<DataFrameView>, c1: int)
    requires
        0 <= c1 < fs1.len(),
    ensures
        ({
            let fs2 = merge_next(fs1, c1);
            let hi1 = merge_hi(fs1, c1);
            &&& fs2.len() == fs1.len() - (hi1 - c1)
            &&& forall|j: int| 0 <= j < c1 ==> #[trigger] fs2[j] == fs1[j]
            &&& forall|j: int| hi1 < j < fs1.len() ==> #[trigger] fs2[j - (hi1 - c1)] == fs1[j]
            &&& fs2[c1].start == fs1[c1].start
            &&& fs2[c1].end == fs1[hi1].end
        }),
{
}

/// What clearing the run at `c` leaves, stated over the runs before it.
pub open spec fn merge_result(fs: Seq<DataFrameView>, c: int, fs6: Seq<DataFrameView>) -> bool {
    let lo = merge_lo(fs, c);
    let hi = merge_hi(fs, c);
    &&& 0 <= lo <= c <= hi < fs.len()
    &&& fs6.len() == fs.len() - (hi - lo)
    &&& fs6[lo].key == Seq::<char>::empty()
    &&& fs6[lo].frame_type == DataFrameType::Empty
    &&& fs6[lo].start == fs[lo].start
    &&& fs6[lo].end == fs[hi].end
    &&& forall|j: int| 0 <= j < lo ==> #[trigger] fs6[j] == fs[j]
    &&& forall|j: int| hi < j < fs.len() ==> fs6[j - (hi - lo)] == #[trigger] fs[j]
}

proof fn lemma_merge_shape(fs: Seq<DataFrameView>, c: int)
    requires
        0 <= c < fs.len(),
    ensures
        merge_result(fs, c, spec_merge_clear(fs, c).0),
        spec_merge_clear(fs, c).1 == merge_lo(fs, c),
{
    let lo = merge_lo(fs, c);
    let hi = merge_hi(fs, c);
    let fs1 = merge_prev(fs, c);
    lemma_merge_prev(fs, c);
    let fs2 = merge_next(fs1, lo);
    lemma_merge_next(fs1, lo);
    let hi1 = merge_hi(fs1, lo);
    if lo + 1 < fs1.len() {
        assert(fs1[lo + 1] == fs[c + 1]);
    }
    assert(hi1 - lo == hi - c);
    assert(fs1[hi1].end == fs[hi].end);
    let fs6 = spec_merge_clear(fs, c).0;
    assert forall|j: int| 0 <= j < lo implies #[trigger] fs6[j] == fs[j] by {
        assert(fs2[j] == fs1[j]);
        assert(fs1[j] == fs[j]);
    }
    assert forall|j: int| hi < j < fs.len() implies fs6[j - (hi - lo)] == #[trigger] fs[j] by {
        assert(fs1[j - (c - lo)] == fs[j]);
        assert(fs2[j - (c - lo) - (hi1 - lo)] == fs1[j - (c - lo)]);
    }
}

/// Clearing a run keeps the file tiled: the runs from `merge_lo` to `merge_hi` become
/// one empty run without a key, and every other run stays.
pub proof fn lemma_merge(fs: Seq<DataFrameView>, c: int, size: int)
    requires
        frames_tile(fs, size),
        0 <= c < fs.len(),
        size <= u64::MAX,
    ensures
        merge_ok(fs, c),
        merge_result(fs, c, spec_merge_clear(fs, c).0),
        spec_merge_clear(fs, c).1 == merge_lo(fs, c),
        frames_tile(spec_merge_clear(fs, c).0, size),
        spec_merge_clear(fs, c).0[merge_lo(fs, c)].len <= size,
{
    lemma_merge_ok(fs, c, size);
    lemma_merge_shape(fs, c);
    lemma_merge_len(fs, c);
    lemma_tile_after_merge(fs, c, spec_merge_clear(fs, c).0, size);
}

proof fn lemma_tile_after_merge(fs: Seq<DataFrameView>, c: int, fs6: Seq<DataFrameView>, size: int)
    requires
        frames_tile(fs, size),
        merge_result(fs, c, fs6),
        fs6[merge_lo(fs, c)].len == fs6[merge_lo(fs, c)].end - fs6[merge_lo(fs, c)].start + 1,
    ensures
        frames_tile(fs6, size),
        fs6[merge_lo(fs, c)].len <= size,
{
    lemma_tile_order(fs, size);
    let lo = merge_lo(fs, c);
    let hi = merge_hi(fs, c);
    assert(fs[hi].end < size);
    assert(fs[lo].start <= fs[hi].end) by {
        assert(fs[lo].start <= fs[lo].end);
        if lo < hi {
            assert(fs[lo].end < fs[hi].start);
            assert(fs[hi].start <= fs[hi].end);
        }
    }
    assert forall|i: int| 0 <= i < fs6.len() implies {
        &&& #[trigger] fs6[i].start == (if i == 0 {
            0
        } else {
            fs6[i - 1].end + 1
        })
        &&& fs6[i].start <= fs6[i].end
        &&& fs6[i].len == fs6[i].end - fs6[i].start + 1
    } by {
        if i < lo {
            assert(fs6[i] == fs[i]);
            if i > 0 {
                assert(fs6[i - 1] == fs[i - 1]);
            }
        } else if i == lo {
            if i > 0 {
                assert(fs6[i - 1] == fs[i - 1]);
            }
        } else {
            assert(fs6[i] == fs[i + (hi - lo)]);
            if i - 1 > lo {
                assert(fs6[i - 1] == fs[i - 1 + (hi - lo)]);
            }
        }
    }
    if fs6.len() > 0 {
        let l = fs6.len() - 1;
        if l > lo {
            assert(fs6[l] == fs[l + (hi - lo)]);
        }
    }
}

/// The cleared run's length is recomputed from its ends whenever it absorbs a
/// neighbour, and is its own true length otherwise.
proof fn lemma_merge_len(fs: Seq<DataFrameView>, c: int)
    requires
        0 <= c < fs.len(),
        merge_ok(fs, c),
        fs[c].len == fs[c].end - fs[c].start + 1,
    ensures
        spec_merge_clear(fs, c).0[merge_lo(fs, c)].len == spec_merge_clear(fs, c).0[merge_lo(
            fs,
            c,
        )].end - spec_merge_clear(fs, c).0[merge_lo(fs, c)].start + 1,
{
    let lo = merge_lo(fs, c);
    let fs1 = merge_prev(fs, c);
    lemma_merge_prev(fs, c);
    lemma_merge_next(fs1, lo);
    if lo + 1 < fs1.len() {
        assert(fs1[lo + 1] == fs[c + 1]);
    }
}

/// Changing the types of runs keeps the tiling.
pub proof fn lemma_tile_retype(fs: Seq<DataFrameView>, i: int, t: DataFrameType, k: Seq<char>, size: int)
    requires
        frames_tile(fs, size),
        0 <= i < fs.len(),
    ensures
        frames_tile(fs.update(i, DataFrameView { frame_type: t, key: k, ..fs[i] }), size),
{
    let fs1 = fs.update(i, DataFrameView { frame_type: t, key: k, ..fs[i] });
    assert forall|j: int| 0 <= j < fs1.len() implies {
        &&& #[trigger] fs1[j].start == (if j == 0 {
            0
        } else {
            fs1[j - 1].end + 1
        })
        &&& fs1[j].start <= fs1[j].end
        &&& fs1[j].len == fs1[j].end - fs1[j].start + 1
    } by {
        assert(fs[j].start == (if j == 0 {
            0
        } else {
            fs[j - 1].end + 1
        }));
    }
}

/// The pointer of a new frame of `key` holding `value`, placed at `start`.
pub open spec fn new_pointer(key: Seq<char>, value: Value, start: int) -> Pointer {
    let n = keyval_bytes(key, value).len();
    expected_pointer(
        encode_utf8(key),
        value_tag(value),
        value_payload(value),
        start as u64,
        (start + n - 1) as u64,
    )
}

/// What adding a key that the map does not hold does: the frame is written at the
/// end of the file, recorded with its pointer, and the value is kept in memory when
/// `store` asks for it.
pub open spec fn added_new(m: BucketMap, m2: BucketMap, key: Seq<char>, value: Value, store: bool, r: Result<Vec<FileWrite>, Error>) -> bool {
    let parsed = keyval_bytes(key, value);
    let n = parsed.len();
    let start = m.size as int;
    &&& r matches Ok(ws) && writes_view(ws@) == seq![FileWriteView { offset: start as u64, data: parsed }]
    &&& m2.size == m.size + n
    &&& m2.pointers@ == m.pointers@.insert(key, new_pointer(key, value, start))
    &&& m2.frames_v() == m.frames_v().push(
        DataFrameView {
            key,
            frame_type: DataFrameType::Frame,
            start: start as u64,
            end: (start + n - 1) as u64,
            len: n as u64,
        },
    )
    &&& m2.store@ == (if store {
        m.store@.insert(key, value)
    } else {
        m.store@
    })
}

/// What rewriting the value of a key that the map holds does (see `spec_update`): the
/// new frame is written, then the old frame's bytes are zeroed; nothing is kept in
/// memory. `failed-fetch-pointer-frame`, with nothing changed, when no run has the key.
pub open spec fn updated(m: BucketMap, m2: BucketMap, key: Seq<char>, value: Value, r: Result<Vec<FileWrite>, Error>) -> bool {
    let parsed = keyval_bytes(key, value);
    let n = parsed.len();
    match first_index(m.frames_v(), has_key(key)) {
        None => {
            &&& r matches Err(e) && e.val@ == "failed-fetch-pointer-frame"@
            &&& m2.frames_v() == m.frames_v()
            &&& m2.size == m.size
            &&& m2.pointers@ == m.pointers@
            &&& m2.store@ == m.store@
        },
        Some(_) => {
            let plan = spec_update(m.frames_v(), key, n as int, m.size as int);
            &&& r matches Ok(ws) && writes_view(ws@) == seq![
                FileWriteView { offset: plan.start as u64, data: parsed },
                FileWriteView { offset: plan.zero_start as u64, data: Seq::new(plan.zero_len as nat, |i: int| 0u8) },
            ]
            &&& m2.frames_v() == plan.frames
            &&& m2.size == plan.size
            &&& m2.pointers@ == m.pointers@.insert(key, new_pointer(key, value, plan.start))
            &&& m2.store@ == m.store@
        },
    }
}

/// The pointer of a frame `parsed` holding `value` under `key` at `start`.
fn frame_pointer(parsed: &Vec<u8>, start: u64, Ghost(key): Ghost<Seq<char>>, Ghost(value): Ghost<Value>) -> (p: Pointer)
    requires
        parsed@ == keyval_bytes(key, value),
        start + parsed@.len() <= u64::MAX,
    ensures
        p == new_pointer(key, value, start as int),
{
    proof {
        lemma_frame_pointer_roundtrip(
            encode_utf8(key),
            value_tag(value),
            value_payload(value),
            start,
            (start + parsed@.len() - 1) as u64,
        );
    }
    let end = start + parsed.len() as u64 - 1;
    match parse_frame_to_pointer(parsed, start, end) {
        Ok(pointer) => pointer,
        Err(_) => Pointer { start: 0, end: 0, value_start: 0, value_end: 0, value_size: 0, value_type: 0 },
    }
}

impl BucketMap {
    /// Writes the frame `parsed` of a new key at the end of the file.
    fn add_new_key(&mut self, key: String, value: Value, parsed: Vec<u8>, store: bool) -> (ws: Vec<FileWrite>)
        requires
            parsed@ == keyval_bytes(key@, value),
            old(self).size + parsed@.len() <= usize::MAX,
        ensures
            added_new(*old(self), *final(self), key@, value, store, Ok::<Vec<FileWrite>, Error>(ws)),
            final(self).corrupt == old(self).corrupt,
            final(self).path == old(self).path,
    {
        let n = parsed.len();
        let new_frame_start = self.size as u64;
        let new_frame_length = n as u64;
        self.size = self.size + n;
        let new_frame_end = new_frame_start + new_frame_length - 1;
        let pointer = frame_pointer(&parsed, new_frame_start, Ghost(key@), Ghost(value));
        self.pointers.insert(key.clone(), pointer);
        let ghost fs0 = self.frames@;
        self.frames.push(
            DataFrame {
                key: key.clone(),
                frame_type: DataFrameType::Frame,
                start: new_frame_start,
                end: new_frame_end,
                len: new_frame_length,
            },
        );
        assert(frames_view(self.frames@) =~= frames_view(fs0).push(self.frames@.last()@));
        let mut writes: Vec<FileWrite> = Vec::new();
        writes.push(FileWrite { offset: new_frame_start, data: parsed });
        assert(writes_view(writes@) =~= seq![writes@[0]@]);
        if store {
            self.store.insert(key, value);
        }
        writes
    }

    /// Places the frame `parsed` of `key` in the first empty run that can hold it, or
    /// at the end of the file; records its pointer. Whether an empty run was used, and
    /// the write of the frame.
    fn place_frame(&mut self, key: &String, parsed: Vec<u8>, Ghost(value): Ghost<Value>) -> (r: (bool, FileWrite))
        requires
            parsed@ == keyval_bytes(key@, value),
            frames_tile(old(self).frames_v(), old(self).size as int),
            old(self).size + parsed@.len() <= usize::MAX,
        ensures
            ({
                let (fs3, start, size2, found) = spec_place(
                    old(self).frames_v(),
                    key@,
                    parsed@.len() as int,
                    old(self).size as int,
                );
                &&& final(self).frames_v() == fs3
                &&& final(self).size == size2
                &&& r.0 == found
                &&& r.1@ == FileWriteView { offset: start as u64, data: parsed@ }
                &&& final(self).pointers@ == old(self).pointers@.insert(key@, new_pointer(key@, value, start))
            }),
            final(self).corrupt == old(self).corrupt,
            final(self).path == old(self).path,
            final(self).store == old(self).store,
    {
        let ghost fs1 = self.frames_v();
        let n = parsed.len();
        proof {
            lemma_frame_pointer_roundtrip(encode_utf8(key@), value_tag(value), value_payload(value), 0, 0);
            lemma_place(fs1, key@, n as int, self.size as int);
        }
        let current_data_len = n as u64;
        match find_frame(&self.frames, key, current_data_len, 1) {
            Some(e) => {
                assert(fs1[e as int] == self.frames@[e as int]@);
                let flen = self.frames.len();
                assert(e < flen);
                let new_frame_start = self.frames[e].start;
                let new_frame_length = current_data_len;
                let new_frame_end = new_frame_start + new_frame_length - 1;
                let pointer = frame_pointer(&parsed, new_frame_start, Ghost(key@), Ghost(value));
                self.pointers.insert(key.clone(), pointer);
                if self.frames[e].len > new_frame_length {
                    let empty_frame_start = new_frame_end + 1;
                    let empty_frame_end = self.frames[e].end;
                    let empty_frame_length = empty_frame_end - empty_frame_start + 1;
                    let ghost before = self.frames@;
                    self.frames.insert(
                        e + 1,
                        DataFrame {
                            key: String::new(),
                            frame_type: DataFrameType::Empty,
                            start: empty_frame_start,
                            end: empty_frame_end,
                            len: empty_frame_length,
                        },
                    );
                    assert(frames_view(self.frames@) =~= frames_view(before).insert(e + 1, self.frames@[e + 1]@));
                }
                let fe_start = self.frames[e].start;
                set_frame(&mut self.frames, e, key.clone(), DataFrameType::Frame, fe_start, new_frame_end, new_frame_length);
                (true, FileWrite { offset: new_frame_start, data: parsed })
            },
            None => {
                let new_frame_start = self.size as u64;
                let new_frame_length = current_data_len;
                self.size = self.size + n;
                let new_frame_end = new_frame_start + new_frame_length - 1;
                let pointer = frame_pointer(&parsed, new_frame_start, Ghost(key@), Ghost(value));
                self.pointers.insert(key.clone(), pointer);
                let ghost before = self.frames@;
                self.frames.push(
                    DataFrame {
                        key: key.clone(),
                        frame_type: DataFrameType::Frame,
                        start: new_frame_start,
                        end: new_frame_end,
                        len: new_frame_length,
                    },
                );
                assert(frames_view(self.frames@) =~= frames_view(before).push(self.frames@.last()@));
                (false, FileWrite { offset: new_frame_start, data: parsed })
            },
        }
    }

    /// Stores `value` under `key_b`. A new key's frame is written at the end of the
    /// file (and the value kept in memory when `store` asks for it); a key already
    /// held gets its new frame in the first empty run that can hold it, or at the end,
    /// and its old frame is then cleared and zeroed. The writes that bring the file up
    /// to date, in order.
    pub fn add(&mut self, key_b: &str, value: Value, store: bool) -> (r: Result<Vec<FileWrite>, Error>)
        requires
            old(self).size + keyval_bytes(key_b@, value).len() <= usize::MAX,
            old(self).pointers@.contains_key(key_b@) && first_index(old(self).frames_v(), has_key(key_b@)) is Some
                ==> frames_tile(
                old(self).frames_v(),
                old(self).size as int,
            ) && old(self).size <= u64::MAX,
        ensures
            final(self).corrupt == old(self).corrupt,
            final(self).path == old(self).path,
            !old(self).pointers@.contains_key(key_b@) ==> added_new(*old(self), *final(self), key_b@, value, store, r),
            old(self).pointers@.contains_key(key_b@) ==> updated(*old(self), *final(self), key_b@, value, r),
    {
        let key: String = key_b.to_owned();
        let parsed = parse_keyval(&key, &value);
        if self.pointers.contains_key(key_b) == false {
            return Ok(self.add_new_key(key, value, parsed, store));
        }
        let ghost fs = self.frames_v();
        let ghost size = self.size as int;
        let ghost n = parsed@.len() as int;
        let i = match find_frame(&self.frames, &key, 0, 0) {
            Some(i) => i,
            None => {
                return Err(Error::new("failed-fetch-pointer-frame"));
            },
        };
        proof {
            lemma_first_from(fs, has_key(key@), 0);
        }
        assert(fs[i as int] == self.frames@[i as int]@);
        let k_i = self.frames[i].key.clone();
        let s_i = self.frames[i].start;
        let e_i = self.frames[i].end;
        let l_i = self.frames[i].len;
        set_frame(&mut self.frames, i, k_i, DataFrameType::Clear, s_i, e_i, l_i);
        let ghost fs1 = self.frames_v();
        proof {
            lemma_tile_retype(fs, i as int, DataFrameType::Clear, fs[i as int].key, size);
            assert(fs1 == fs.update(i as int, DataFrameView { frame_type: DataFrameType::Clear, ..fs[i as int] }));
            lemma_place(fs1, key@, n, size);
        }
        let (found, first_write) = self.place_frame(&key, parsed, Ghost(value));
        let ghost fs3 = self.frames_v();
        let ghost (pfs3, pstart, psize2, pfound) = spec_place(fs1, key@, n, size);
        proof {
            if pfound {
                let e = first_index(fs1, empty_fits(n)).unwrap();
                let ins = fs1[e].len > n;
                assert(fs3[place_index(i as int, e, ins)] == fs1[i as int]);
                lemma_first_some(fs3, cleared_key(key@), place_index(i as int, e, ins));
            } else {
                assert(fs3[i as int] == fs1[i as int]);
                lemma_first_some(fs3, has_key(key@), i as int);
            }
        }
        let c = if found {
            find_frame(&self.frames, &key, 0, 2)
        } else {
            find_frame(&self.frames, &key, 0, 0)
        };
        let c = match c {
            Some(c) => c,
            None => {
                return Err(Error::new("failed-fetch-clear-frame"));
            },
        };
        proof {
            lemma_merge(fs3, c as int, psize2);
        }
        let c6 = merge_clear(&mut self.frames, c);
        assert(self.frames_v()[c6 as int] == self.frames@[c6 as int]@);
        let zero_start = self.frames[c6].start;
        let zero_len = self.frames[c6].len;
        let mut writes: Vec<FileWrite> = Vec::new();
        writes.push(first_write);
        writes.push(FileWrite { offset: zero_start, data: zeros(zero_len as usize) });
        assert(writes_view(writes@) =~= seq![writes@[0]@, writes@[1]@]);
        Ok(writes)
    }
}

/// What deleting `key` does: the key leaves memory and the pointers; its run (the
/// first run with that key) is cleared, absorbing empty neighbours, and its bytes are
/// to be zeroed. `failed-fetch-pointer-frame` when no run has that key.
pub open spec fn deleted(m: BucketMap, m2: BucketMap, key: Seq<char>, r: Result<Vec<FileWrite>, Error>) -> bool {
    let fs = m.frames_v();
    &&& m2.store@ == m.store@.remove(key)
    &&& m2.pointers@ == m.pointers@.remove(key)
    &&& m2.size == m.size
    &&& match first_index(fs, has_key(key)) {
        None => {
            &&& r matches Err(e) && e.val@ == "failed-fetch-pointer-frame"@
            &&& m2.frames_v() == fs
        },
        Some(c) => {
            let fs1 = fs.update(c, DataFrameView { frame_type: DataFrameType::Clear, ..fs[c] });
            let (fs6, c6) = spec_merge_clear(fs1, c);
            &&& m2.frames_v() == fs6
            &&& r matches Ok(ws) && writes_view(ws@) == seq![
                FileWriteView {
                    offset: fs6[c6].start,
                    data: Seq::new(fs6[c6].len as nat, |i: int| 0u8),
                },
            ]
        },
    }
}

impl BucketMap {
    /// Deletes `key`: from memory, from the pointers, and from the file, whose run for
    /// the key is cleared and zeroed. The writes that bring the file up to date.
    pub fn delete(&mut self, key: &str) -> (r: Result<Vec<FileWrite>, Error>)
        requires
            first_index(old(self).frames_v(), has_key(key@)) is Some ==> frames_tile(
                old(self).frames_v(),
                old(self).size as int,
            ) && old(self).size <= u64::MAX,
        ensures
            deleted(*old(self), *final(self), key@, r),
            final(self).corrupt == old(self).corrupt,
            final(self).path == old(self).path,
    {
        self.store.remove(key);
        self.pointers.remove(key);
        let key_s: String = key.to_owned();
        let ghost fs = self.frames_v();
        let c = match find_frame(&self.frames, &key_s, 0, 0) {
            Some(c) => c,
            None => {
                return Err(Error::new("failed-fetch-pointer-frame"));
            },
        };
        proof {
            lemma_first_from(fs, has_key(key@), 0);
        }
        assert(fs[c as int] == self.frames@[c as int]@);
        let k_c = self.frames[c].key.clone();
        let s_c = self.frames[c].start;
        let e_c = self.frames[c].end;
        let l_c = self.frames[c].len;
        set_frame(&mut self.frames, c, k_c, DataFrameType::Clear, s_c, e_c, l_c);
        proof {
            lemma_tile_retype(fs, c as int, DataFrameType::Clear, fs[c as int].key, self.size as int);
            let fs1 = fs.update(c as int, DataFrameView { frame_type: DataFrameType::Clear, ..fs[c as int] });
            assert(self.frames_v() == fs1);
            lemma_merge(fs1, c as int, self.size as int);
        }
        let c6 = merge_clear(&mut self.frames, c);
        assert(self.frames_v()[c6 as int] == self.frames@[c6 as int]@);
        let zero_start = self.frames[c6].start;
        let zero_len = self.frames[c6].len;
        let mut writes: Vec<FileWrite> = Vec::new();
        writes.push(FileWrite { offset: zero_start, data: zeros(zero_len as usize) });
        assert(writes_view(writes@) =~= seq![writes@[0]@]);
        Ok(writes)
    }
}

} // verus!
