use vstd::prelude::*;
use crate::map::{
    FileWriteView, apply_write, apply_writes, frames_tile, frame_keys_ok, pointers_ok,
    pointer_in_frame, lemma_tile_order, first_index, empty_fits, place_index, spec_place,
    lemma_place, lemma_first_from, lemma_first_some, lemma_tile_retype, lemma_merge, has_key,
    cleared_key, spec_update, merge_lo, merge_hi, merge_result, spec_merge_clear, BucketMap,
    FileWrite, writes_view, added_new, updated, deleted, new_pointer,
};
use crate::scan::{DataFrameType, DataFrameView};
use crate::frame::{
    Pointer, Value, keyval_bytes, value_tag, value_payload, lemma_frame_pointer_roundtrip,
    decodes_to, lemma_value_roundtrip, ReadPointerError,
};
use crate::error::Error;
use vstd::utf8::encode_utf8;

verus! {

/// Byte by byte, the file after a write that starts at or before its end: the
/// written bytes inside the write, the old bytes elsewhere.
pub proof fn lemma_apply_write(file: Seq<u8>, w: FileWriteView)
    requires
        w.offset <= file.len(),
    ensures
        apply_write(file, w).len() == (if w.offset + w.data.len() <= file.len() {
            file.len() as int
        } else {
            w.offset + w.data.len()
        }),
        forall|i: int|
            0 <= i < apply_write(file, w).len() ==> #[trigger] apply_write(file, w)[i] == (if w.offset
                <= i < w.offset + w.data.len() {
                w.data[i - w.offset]
            } else {
                file[i]
            }),
{
}

/// A run that holds no key and is neither a frame nor being cleared.
pub open spec fn keyless(f: DataFrameView) -> bool {
    &&& f.frame_type != DataFrameType::Frame
    &&& f.frame_type != DataFrameType::Clear
    &&& f.key.len() == 0
}

/// `f` is one of the runs `fs`.
pub open spec fn has_run(fs: Seq<DataFrameView>, f: DataFrameView) -> bool {
    exists|j: int| 0 <= j < fs.len() && #[trigger] fs[j] == f
}

/// The run of a frame of `key` taking `n` bytes from `start`.
pub open spec fn new_run(key: Seq<char>, start: int, n: int) -> DataFrameView {
    DataFrameView {
        key,
        frame_type: DataFrameType::Frame,
        start: start as u64,
        end: (start + n - 1) as u64,
        len: n as u64,
    }
}

/// The runs `fs2` follow from `fs` when only the frame of `key` changed: every frame
/// of another key stays, every run of `fs2` holds no key, is the frame `added`, or is
/// a frame of another key from `fs`; and `added` is there.
pub open spec fn runs_follow(
    fs: Seq<DataFrameView>,
    fs2: Seq<DataFrameView>,
    key: Seq<char>,
    added: Option<DataFrameView>,
) -> bool {
    &&& forall|j: int|
        0 <= j < fs.len() && fs[j].frame_type == DataFrameType::Frame && fs[j].key != key
            ==> has_run(fs2, #[trigger] fs[j])
    &&& forall|i: int|
        0 <= i < fs2.len() ==> keyless(#[trigger] fs2[i]) || added == Some(fs2[i]) || (
        fs2[i].frame_type == DataFrameType::Frame && fs2[i].key != key && has_run(fs, fs2[i]))
    &&& added matches Some(a) ==> has_run(fs2, a)
}

/// Two runs of a tiling that differ do not overlap.
pub proof fn lemma_runs_apart(fs: Seq<DataFrameView>, size: int, a: DataFrameView, b: DataFrameView)
    requires
        frames_tile(fs, size),
        has_run(fs, a),
        has_run(fs, b),
        a != b,
    ensures
        a.end < b.start || b.end < a.start,
        a.start <= a.end < size,
        b.start <= b.end < size,
{
    lemma_tile_order(fs, size);
    let i = choose|i: int| 0 <= i < fs.len() && fs[i] == a;
    let j = choose|j: int| 0 <= j < fs.len() && fs[j] == b;
    assert(fs[i].start <= fs[i].end && fs[j].start <= fs[j].end);
    assert(fs[i].end < size && fs[j].end < size);
    if i < j {
        assert(fs[i].end < fs[j].start);
    } else if j < i {
        assert(fs[j].end < fs[i].start);
    }
}

/// When the runs change only in the frame of `key`, the map stays consistent: only
/// frames have keys, no two frames share one, and each pointer lies in its key's
/// frame, with `key` pointing into `added`, or gone when nothing was added.
#[verifier::spinoff_prover]
#[verifier::rlimit(40)]
pub proof fn lemma_follow_consistent(
    fs: Seq<DataFrameView>,
    fs2: Seq<DataFrameView>,
    size2: int,
    key: Seq<char>,
    added: Option<DataFrameView>,
    ptrs: Map<Seq<char>, Pointer>,
    ptrs2: Map<Seq<char>, Pointer>,
    np: Pointer,
)
    requires
        frame_keys_ok(fs),
        pointers_ok(ptrs, fs),
        frames_tile(fs2, size2),
        runs_follow(fs, fs2, key, added),
        added matches Some(a) ==> a.frame_type == DataFrameType::Frame && a.key == key
            && key.len() > 0 && ptrs2 == ptrs.insert(key, np) && pointer_in_frame(np, a),
        added is None ==> ptrs2 == ptrs.remove(key),
    ensures
        frame_keys_ok(fs2),
        pointers_ok(ptrs2, fs2),
{
    lemma_tile_order(fs2, size2);
    assert forall|i: int| 0 <= i < fs2.len() implies #[trigger] fs2[i].frame_type != DataFrameType::Clear
        && (fs2[i].frame_type == DataFrameType::Frame <==> fs2[i].key.len() > 0) by {
        if !keyless(fs2[i]) && added != Some(fs2[i]) {
            let j = choose|j: int| 0 <= j < fs.len() && #[trigger] fs[j] == fs2[i];
            assert(fs[j].frame_type == DataFrameType::Frame);
        }
    }
    assert forall|i: int, i2: int|
        0 <= i < fs2.len() && 0 <= i2 < fs2.len() && i != i2 && fs2[i].frame_type
            == DataFrameType::Frame implies #[trigger] fs2[i].key != #[trigger] fs2[i2].key by {
        assert(fs2[i] != fs2[i2]) by {
            if i < i2 {
                assert(fs2[i].end < fs2[i2].start);
            } else {
                assert(fs2[i2].end < fs2[i2].start || fs2[i2].end < fs2[i].start);
            }
            assert(fs2[i].start <= fs2[i].end && fs2[i2].start <= fs2[i2].end);
        }
        if fs2[i].key == fs2[i2].key {
            assert(!keyless(fs2[i]));
            assert(fs2[i2].key.len() > 0 ==> !keyless(fs2[i2]));
            if added == Some(fs2[i]) {
                assert(fs2[i2].key == key);
                assert(!keyless(fs2[i2]));
                assert(added != Some(fs2[i2]));
            } else {
                let j = choose|j: int| 0 <= j < fs.len() && #[trigger] fs[j] == fs2[i];
                if added == Some(fs2[i2]) {
                } else {
                    assert(!keyless(fs2[i2]));
                    let j2 = choose|j2: int| 0 <= j2 < fs.len() && #[trigger] fs[j2] == fs2[i2];
                    assert(fs[j].key == fs[j2].key);
                    assert(j == j2);
                }
            }
        }
    }
    assert forall|k: Seq<char>| #[trigger] ptrs2.contains_key(k) implies exists|i: int|
        0 <= i < fs2.len() && fs2[i].frame_type == DataFrameType::Frame && fs2[i].key == k
            && pointer_in_frame(ptrs2[k], fs2[i]) by {
        if added is Some && k == key {
            let a = added->0;
            let i = choose|i: int| 0 <= i < fs2.len() && #[trigger] fs2[i] == a;
            assert(fs2[i].key == k && pointer_in_frame(ptrs2[k], fs2[i]));
        } else {
            assert(ptrs.contains_key(k) && ptrs2[k] == ptrs[k]);
            let j = choose|j: int|
                0 <= j < fs.len() && fs[j].frame_type == DataFrameType::Frame && fs[j].key == k
                    && pointer_in_frame(ptrs[k], fs[j]);
            assert(has_run(fs2, fs[j]));
            let i = choose|i: int| 0 <= i < fs2.len() && #[trigger] fs2[i] == fs[j];
            assert(fs2[i].key == k && pointer_in_frame(ptrs2[k], fs2[i]));
        }
    }
    assert forall|i: int|
        0 <= i < fs2.len() && fs2[i].frame_type == DataFrameType::Frame implies ptrs2.contains_key(
        #[trigger] fs2[i].key,
    ) by {
        if added == Some(fs2[i]) {
        } else {
            let j = choose|j: int| 0 <= j < fs.len() && #[trigger] fs[j] == fs2[i];
            assert(ptrs.contains_key(fs[j].key));
        }
    }
}

/// Where a frame of `n` bytes placed among the runs `fs1` lands: at the first empty
/// run that can hold it, or after the last run.
pub open spec fn placed_index(fs1: Seq<DataFrameView>, n: int) -> int {
    match first_index(fs1, empty_fits(n)) {
        Some(e) => e,
        None => fs1.len() as int,
    }
}

/// Where the run at `l` of `fs1` lands when a frame of `n` bytes is placed.
pub open spec fn place_of(fs1: Seq<DataFrameView>, n: int, l: int) -> int {
    match first_index(fs1, empty_fits(n)) {
        Some(e) => place_index(l, e, fs1[e].len > n),
        None => l,
    }
}

/// The run of `fs1` that lands at `x` when a frame of `n` bytes is placed.
pub open spec fn place_src(fs1: Seq<DataFrameView>, n: int, x: int) -> int {
    match first_index(fs1, empty_fits(n)) {
        Some(e) => if fs1[e].len > n && x > e {
            x - 1
        } else {
            x
        },
        None => x,
    }
}

/// An empty run without a key.
pub open spec fn blank(f: DataFrameView) -> bool {
    f.frame_type == DataFrameType::Empty && f.key == Seq::<char>::empty()
}

/// The run `r` lies inside a run of `fs` of the same type that holds no key.
pub open spec fn within_keyless(fs: Seq<DataFrameView>, r: DataFrameView) -> bool {
    exists|j: int|
        0 <= j < fs.len() && keyless(#[trigger] fs[j]) && fs[j].frame_type == r.frame_type
            && fs[j].start <= r.start && r.end <= fs[j].end
}

/// Placing a frame: it lands at `placed_index`, every other run of `fs1` lands at
/// `place_of`, and every other run after placing is one of those or the blank rest
/// of the run that the frame took.
#[verifier::spinoff_prover]
#[verifier::rlimit(40)]
proof fn lemma_place_runs(fs1: Seq<DataFrameView>, key: Seq<char>, n: int, size: int)
    requires
        frames_tile(fs1, size),
        0 < n,
        size + n <= u64::MAX,
    ensures
        ({
            let (fs3, start, size2, found) = spec_place(fs1, key, n, size);
            let ni = placed_index(fs1, n);
            &&& 0 <= ni < fs3.len()
            &&& fs3[ni] == new_run(key, start, n)
            &&& forall|l: int|
                0 <= l < fs1.len() && l != ni ==> 0 <= place_of(fs1, n, l) < fs3.len()
                    && place_of(fs1, n, l) != ni && #[trigger] fs3[place_of(fs1, n, l)] == fs1[l]
            &&& forall|x: int|
                0 <= x < fs3.len() && x != ni ==> blank(#[trigger] fs3[x]) || (0 <= place_src(
                    fs1,
                    n,
                    x,
                ) < fs1.len() && place_src(fs1, n, x) != ni && place_of(fs1, n, place_src(fs1, n, x))
                    == x && fs3[x] == fs1[place_src(fs1, n, x)])
            &&& forall|x: int|
                0 <= x < fs3.len() && x != ni ==> (0 <= place_src(fs1, n, x) < fs1.len()
                    && place_src(fs1, n, x) != ni && place_of(fs1, n, place_src(fs1, n, x)) == x
                    && #[trigger] fs3[x] == fs1[place_src(fs1, n, x)]) || (ni < fs1.len()
                    && fs1[ni].frame_type == DataFrameType::Empty && blank(fs3[x])
                    && fs1[ni].start <= fs3[x].start && fs3[x].end <= fs1[ni].end)
        }),
{
    lemma_place(fs1, key, n, size);
    let (fs3, start, size2, found) = spec_place(fs1, key, n, size);
    let ni = placed_index(fs1, n);
    match first_index(fs1, empty_fits(n)) {
        Some(e) => {
            let ins = fs1[e].len > n;
            assert forall|l: int| 0 <= l < fs1.len() && l != ni implies 0 <= place_of(fs1, n, l)
                < fs3.len() && place_of(fs1, n, l) != ni && #[trigger] fs3[place_of(fs1, n, l)]
                == fs1[l] by {
                assert(fs3[place_index(l, e, ins)] == fs1[l]);
            }
            assert forall|x: int| 0 <= x < fs3.len() && x != ni implies blank(#[trigger] fs3[x]) || (0
                <= place_src(fs1, n, x) < fs1.len() && place_src(fs1, n, x) != ni && place_of(
                fs1,
                n,
                place_src(fs1, n, x),
            ) == x && fs3[x] == fs1[place_src(fs1, n, x)]) by {
                if ins && x == e + 1 {
                    assert(blank(fs3[x]));
                    assert(fs1[e].start <= fs3[x].start && fs3[x].end <= fs1[e].end);
                } else {
                    let l = place_src(fs1, n, x);
                    assert(place_index(l, e, ins) == x);
                    assert(fs3[place_index(l, e, ins)] == fs1[l]);
                }
            }
        },
        None => {
            assert forall|x: int| 0 <= x < fs3.len() && x != ni implies blank(#[trigger] fs3[x]) || (0
                <= place_src(fs1, n, x) < fs1.len() && place_src(fs1, n, x) != ni && place_of(
                fs1,
                n,
                place_src(fs1, n, x),
            ) == x && fs3[x] == fs1[place_src(fs1, n, x)]) by {
                assert(fs3[x] == fs1[x]);
            }
        },
    }
}

/// The run that rewriting `key` clears is the old frame of `key`, wherever placing the
/// new frame moved it.
#[verifier::spinoff_prover]
#[verifier::rlimit(40)]
pub(crate) proof fn lemma_cleared_index(fs: Seq<DataFrameView>, key: Seq<char>, n: int, size: int, i: int)
    requires
        frames_tile(fs, size),
        frame_keys_ok(fs),
        0 <= i < fs.len(),
        fs[i].frame_type == DataFrameType::Frame,
        fs[i].key == key,
        0 < n,
        size + n <= u64::MAX,
    ensures
        ({
            let fs1 = fs.update(i, DataFrameView { frame_type: DataFrameType::Clear, ..fs[i] });
            let (fs3, start, size2, found) = spec_place(fs1, key, n, size);
            let p = if found {
                cleared_key(key)
            } else {
                has_key(key)
            };
            &&& frames_tile(fs1, size)
            &&& i != placed_index(fs1, n)
            &&& first_index(fs3, p) == Some(place_of(fs1, n, i))
        }),
{
    let fs1 = fs.update(i, DataFrameView { frame_type: DataFrameType::Clear, ..fs[i] });
    lemma_tile_retype(fs, i, DataFrameType::Clear, fs[i].key, size);
    assert(fs1 == fs.update(i, DataFrameView { frame_type: DataFrameType::Clear, key: fs[i].key, ..fs[i] }));
    lemma_place(fs1, key, n, size);
    lemma_place_runs(fs1, key, n, size);
    let (fs3, start, size2, found) = spec_place(fs1, key, n, size);
    let ni = placed_index(fs1, n);
    let p = if found {
        cleared_key(key)
    } else {
        has_key(key)
    };
    let ci = place_of(fs1, n, i);
    assert(i != ni);
    assert(fs3[ci] == fs1[i]);
    assert(p(fs3[ci]));
    lemma_first_some(fs3, p, ci);
    let c = first_index(fs3, p).unwrap();
    if c != ci {
        assert(c < ci);
        assert(c != ni) by {
            if found {
                assert(fs3[ni].frame_type == DataFrameType::Frame);
            }
        }
        assert(key.len() > 0);
        if !blank(fs3[c]) {
            let l = place_src(fs1, n, c);
            assert(fs3[c] == fs1[l]);
            if l == i {
                assert(c == ci);
            } else {
                assert(fs1[l] == fs[l]);
                assert(fs[i].key != fs[l].key);
            }
        }
        assert(false);
    }
}

/// Where the run at `y` after clearing the run at `c` of `fs3` came from.
pub open spec fn merge_src(fs3: Seq<DataFrameView>, c: int, y: int) -> int {
    if y < merge_lo(fs3, c) {
        y
    } else {
        y + (merge_hi(fs3, c) - merge_lo(fs3, c))
    }
}

/// Clearing the run at `c` keeps every run outside `merge_lo..=merge_hi`, and every
/// run after it but the cleared one is one of those.
#[verifier::spinoff_prover]
#[verifier::rlimit(40)]
proof fn lemma_merge_keeps(fs3: Seq<DataFrameView>, c: int, size2: int)
    requires
        frames_tile(fs3, size2),
        0 <= c < fs3.len(),
        size2 <= u64::MAX,
    ensures
        ({
            let (fs6, c6) = spec_merge_clear(fs3, c);
            let lo = merge_lo(fs3, c);
            let hi = merge_hi(fs3, c);
            &&& frames_tile(fs6, size2)
            &&& c6 == lo
            &&& 0 <= lo <= c <= hi < fs3.len()
            &&& 0 <= lo < fs6.len()
            &&& blank(fs6[lo])
            &&& forall|x: int| lo <= x <= hi ==> x == c || #[trigger] fs3[x].frame_type
                == DataFrameType::Empty
            &&& forall|x: int|
                0 <= x < fs3.len() && !(lo <= x <= hi) ==> has_run(fs6, #[trigger] fs3[x])
            &&& forall|y: int|
                0 <= y < fs6.len() && y != lo ==> 0 <= merge_src(fs3, c, y) < fs3.len() && !(lo
                    <= merge_src(fs3, c, y) <= hi) && #[trigger] fs6[y] == fs3[merge_src(fs3, c, y)]
        }),
{
    lemma_merge(fs3, c, size2);
    let (fs6, c6) = spec_merge_clear(fs3, c);
    let lo = merge_lo(fs3, c);
    let hi = merge_hi(fs3, c);
    assert forall|x: int| 0 <= x < fs3.len() && !(lo <= x <= hi) implies has_run(
        fs6,
        #[trigger] fs3[x],
    ) by {
        if x < lo {
            assert(fs6[x] == fs3[x]);
        } else {
            assert(fs6[x - (hi - lo)] == fs3[x]);
        }
    }
    assert forall|y: int| 0 <= y < fs6.len() && y != lo implies 0 <= merge_src(fs3, c, y) < fs3.len()
        && !(lo <= merge_src(fs3, c, y) <= hi) && #[trigger] fs6[y] == fs3[merge_src(fs3, c, y)] by {
        if y > lo {
            let x = y + (hi - lo);
            assert(fs6[x - (hi - lo)] == fs3[x]);
        }
    }
}

/// Marking the frame of `key` for clearing and placing its new frame: the new frame
/// lands at `placed_index`, each frame of another key lands somewhere other than the
/// marked run, and every run but the marked one holds no key, is the new frame, or is
/// a frame of another key from `fs`.
#[verifier::spinoff_prover]
#[verifier::rlimit(40)]
pub(crate) proof fn lemma_marked_place(fs: Seq<DataFrameView>, key: Seq<char>, n: int, size: int, i: int)
    requires
        frames_tile(fs, size),
        frame_keys_ok(fs),
        0 <= i < fs.len(),
        fs[i].frame_type == DataFrameType::Frame,
        fs[i].key == key,
        0 < n,
        size + n <= u64::MAX,
    ensures
        ({
            let fs1 = fs.update(i, DataFrameView { frame_type: DataFrameType::Clear, ..fs[i] });
            let (fs3, start, size2, found) = spec_place(fs1, key, n, size);
            let newf = new_run(key, start, n);
            let c = place_of(fs1, n, i);
            let ni = placed_index(fs1, n);
            &&& frames_tile(fs3, size2)
            &&& size2 <= u64::MAX
            &&& 0 <= start <= size
            &&& size2 == (if start + n <= size {
                size
            } else {
                start + n
            })
            &&& 0 <= c < fs3.len()
            &&& fs3[c].frame_type == DataFrameType::Clear
            &&& 0 <= ni < fs3.len()
            &&& fs3[ni] == newf
            &&& forall|l: int|
                0 <= l < fs.len() && fs[l].frame_type == DataFrameType::Frame && fs[l].key != key
                    ==> 0 <= place_of(fs1, n, l) < fs3.len() && place_of(fs1, n, l) != c
                    && fs3[place_of(fs1, n, l)] == #[trigger] fs[l]
            &&& forall|x: int|
                0 <= x < fs3.len() && x != c ==> keyless(#[trigger] fs3[x]) || fs3[x] == newf || (
                fs3[x].frame_type == DataFrameType::Frame && fs3[x].key != key && has_run(fs, fs3[x]))
            &&& forall|x: int|
                0 <= x < fs3.len() && x != c && keyless(#[trigger] fs3[x]) ==> within_keyless(fs, fs3[x])
        }),
{
    assert forall|l: int| 0 <= l < fs.len() && l != i implies #[trigger] fs[l].key != key by {
        assert(fs[i].key != fs[l].key);
    }
    let fs1 = fs.update(i, DataFrameView { frame_type: DataFrameType::Clear, ..fs[i] });
    lemma_cleared_index(fs, key, n, size, i);
    lemma_place(fs1, key, n, size);
    lemma_place_runs(fs1, key, n, size);
    lemma_tile_order(fs1, size);
    let (fs3, start, size2, found) = spec_place(fs1, key, n, size);
    let ni = placed_index(fs1, n);
    let c = place_of(fs1, n, i);
    let newf = new_run(key, start, n);
    assert(fs3[c] == fs1[i]);
    assert forall|l: int|
        0 <= l < fs.len() && fs[l].frame_type == DataFrameType::Frame && fs[l].key != key implies 0
        <= place_of(fs1, n, l) < fs3.len() && place_of(fs1, n, l) != c && fs3[place_of(fs1, n, l)]
        == #[trigger] fs[l] by {
        assert(fs1[l] == fs[l]);
        assert(l != ni) by {
            if found {
                assert(fs1[ni].frame_type == DataFrameType::Empty);
            }
        }
        assert(fs3[place_of(fs1, n, l)] == fs1[l]);
    }
    assert forall|x: int| 0 <= x < fs3.len() && x != c implies keyless(#[trigger] fs3[x]) || fs3[x]
        == newf || (fs3[x].frame_type == DataFrameType::Frame && fs3[x].key != key && has_run(
        fs,
        fs3[x],
    )) by {
        if x != ni && !blank(fs3[x]) {
            let l = place_src(fs1, n, x);
            if l == i {
                assert(x == c);
            } else {
                assert(fs1[l] == fs[l]);
                assert(fs3[x] == fs[l]);
            }
        }
    }
    assert forall|x: int| 0 <= x < fs3.len() && x != c && keyless(#[trigger] fs3[x]) implies within_keyless(
        fs,
        fs3[x],
    ) by {
        assert(x != ni);
        let l = place_src(fs1, n, x);
        if 0 <= l < fs1.len() && l != ni && place_of(fs1, n, l) == x && fs3[x] == fs1[l] {
            assert(l != i);
            assert(fs1[l] == fs[l]);
            assert(fs[l].start <= fs3[x].start);
        } else {
            assert(fs1[ni] == fs[ni]);
            assert(keyless(fs[ni]));
        }
    }
    if found {
        let e = first_index(fs1, empty_fits(n)).unwrap();
        assert(fs1[e].end < size);
    }
}

/// What rewriting the value of `key` does to the runs (see `spec_update`): the file
/// stays tiled, only the frame of `key` changes, the new frame is placed where the
/// first write puts it, within the file or at its end, and the bytes to be zeroed are
/// a run of their own without a key.
#[verifier::spinoff_prover]
#[verifier::rlimit(40)]
pub proof fn lemma_update_follow(fs: Seq<DataFrameView>, key: Seq<char>, n: int, size: int, j: int)
    requires
        frames_tile(fs, size),
        frame_keys_ok(fs),
        0 <= j < fs.len(),
        fs[j].frame_type == DataFrameType::Frame,
        fs[j].key == key,
        0 < n,
        size + n <= u64::MAX,
    ensures
        ({
            let plan = spec_update(fs, key, n, size);
            &&& frames_tile(plan.frames, plan.size)
            &&& 0 <= plan.start <= size
            &&& plan.size == (if plan.start + n <= size {
                size
            } else {
                plan.start + n
            })
            &&& plan.size <= u64::MAX
            &&& runs_follow(fs, plan.frames, key, Some(new_run(key, plan.start, n)))
            &&& exists|z: int|
                0 <= z < plan.frames.len() && blank(#[trigger] plan.frames[z]) && plan.frames[z].start
                    == plan.zero_start && plan.frames[z].len == plan.zero_len
        }),
{
    lemma_first_some(fs, has_key(key), j);
    let i = first_index(fs, has_key(key)).unwrap();
    assert(fs[j].key.len() > 0);
    assert(fs[i].frame_type == DataFrameType::Frame);
    let fs1 = fs.update(i, DataFrameView { frame_type: DataFrameType::Clear, ..fs[i] });
    lemma_cleared_index(fs, key, n, size, i);
    lemma_marked_place(fs, key, n, size, i);
    let (fs3, start, size2, found) = spec_place(fs1, key, n, size);
    let c = place_of(fs1, n, i);
    let ni = placed_index(fs1, n);
    let newf = new_run(key, start, n);
    lemma_merge_keeps(fs3, c, size2);
    let (fs6, c6) = spec_merge_clear(fs3, c);
    let plan = spec_update(fs, key, n, size);
    assert(plan.frames == fs6 && plan.start == start && plan.size == size2);
    let lo = merge_lo(fs3, c);
    let hi = merge_hi(fs3, c);
    assert(has_run(fs6, newf)) by {
        assert(!(lo <= ni <= hi));
    }
    assert forall|l: int|
        0 <= l < fs.len() && fs[l].frame_type == DataFrameType::Frame && fs[l].key != key implies has_run(
        fs6,
        #[trigger] fs[l],
    ) by {
        let x = place_of(fs1, n, l);
        assert(fs3[x] == fs[l]);
        assert(!(lo <= x <= hi));
    }
    assert forall|y: int| 0 <= y < fs6.len() implies keyless(#[trigger] fs6[y]) || Some(newf) == Some(
        fs6[y],
    ) || (fs6[y].frame_type == DataFrameType::Frame && fs6[y].key != key && has_run(fs, fs6[y])) by {
        if y != lo {
            let x = merge_src(fs3, c, y);
            assert(fs6[y] == fs3[x]);
            assert(x != c);
        }
    }
    assert(blank(fs6[lo]));
}

/// After rewriting the value of `key`, every run without a key lies inside such a run
/// of `fs` of the same type, or is the run whose bytes are zeroed.
pub proof fn lemma_update_keyless(fs: Seq<DataFrameView>, key: Seq<char>, n: int, size: int, j: int)
    requires
        frames_tile(fs, size),
        frame_keys_ok(fs),
        0 <= j < fs.len(),
        fs[j].frame_type == DataFrameType::Frame,
        fs[j].key == key,
        0 < n,
        size + n <= u64::MAX,
    ensures
        ({
            let plan = spec_update(fs, key, n, size);
            forall|y: int|
                0 <= y < plan.frames.len() && keyless(#[trigger] plan.frames[y]) ==> within_keyless(
                    fs,
                    plan.frames[y],
                ) || (blank(plan.frames[y]) && plan.frames[y].start == plan.zero_start
                    && plan.frames[y].len == plan.zero_len)
        }),
{
    lemma_first_some(fs, has_key(key), j);
    let i = first_index(fs, has_key(key)).unwrap();
    assert(fs[j].key.len() > 0);
    assert(fs[i].frame_type == DataFrameType::Frame);
    let fs1 = fs.update(i, DataFrameView { frame_type: DataFrameType::Clear, ..fs[i] });
    lemma_cleared_index(fs, key, n, size, i);
    lemma_marked_place(fs, key, n, size, i);
    let (fs3, start, size2, found) = spec_place(fs1, key, n, size);
    let c = place_of(fs1, n, i);
    lemma_merge_keeps(fs3, c, size2);
    let (fs6, c6) = spec_merge_clear(fs3, c);
    let plan = spec_update(fs, key, n, size);
    assert(plan.frames == fs6);
    let lo = merge_lo(fs3, c);
    assert forall|y: int| 0 <= y < fs6.len() && keyless(#[trigger] fs6[y]) implies within_keyless(
        fs,
        fs6[y],
    ) || (blank(fs6[y]) && fs6[y].start == plan.zero_start && fs6[y].len == plan.zero_len) by {
        if y != lo {
            let x = merge_src(fs3, c, y);
            assert(fs6[y] == fs3[x]);
            assert(x != c);
        }
    }
}

/// What deleting `key` does to the runs (see `deleted`): the file stays tiled and
/// only the run of `key` changes; when there is one, the run left where it was holds
/// no key.
#[verifier::spinoff_prover]
#[verifier::rlimit(40)]
pub proof fn lemma_delete_follow(fs: Seq<DataFrameView>, key: Seq<char>, size: int)
    requires
        frames_tile(fs, size),
        frame_keys_ok(fs),
        size <= u64::MAX,
    ensures
        first_index(fs, has_key(key)) is None ==> runs_follow(fs, fs, key, None),
        first_index(fs, has_key(key)) matches Some(c) ==> {
            let fs1 = fs.update(c, DataFrameView { frame_type: DataFrameType::Clear, ..fs[c] });
            let (fs6, c6) = spec_merge_clear(fs1, c);
            &&& frames_tile(fs6, size)
            &&& runs_follow(fs, fs6, key, None)
            &&& 0 <= c6 < fs6.len()
            &&& blank(fs6[c6])
            &&& forall|y: int|
                0 <= y < fs6.len() && y != c6 && keyless(#[trigger] fs6[y]) ==> within_keyless(fs, fs6[y])
        },
{
    lemma_first_from(fs, has_key(key), 0);
    match first_index(fs, has_key(key)) {
        None => {
            assert forall|j: int|
                0 <= j < fs.len() && fs[j].frame_type == DataFrameType::Frame && fs[j].key
                    != key implies has_run(fs, #[trigger] fs[j]) by {
            }
            assert forall|i: int| 0 <= i < fs.len() implies keyless(#[trigger] fs[i]) || None::<
                DataFrameView,
            > == Some(fs[i]) || (fs[i].frame_type == DataFrameType::Frame && fs[i].key != key
                && has_run(fs, fs[i])) by {
                assert(!has_key(key)(fs[i]));
            }
        },
        Some(c) => {
            let fs1 = fs.update(c, DataFrameView { frame_type: DataFrameType::Clear, ..fs[c] });
            lemma_tile_retype(fs, c, DataFrameType::Clear, fs[c].key, size);
            assert(fs1 == fs.update(c, DataFrameView { frame_type: DataFrameType::Clear, key: fs[c].key, ..fs[c] }));
            lemma_merge_keeps(fs1, c, size);
            let (fs6, c6) = spec_merge_clear(fs1, c);
            let lo = merge_lo(fs1, c);
            let hi = merge_hi(fs1, c);
            assert forall|j: int|
                0 <= j < fs.len() && fs[j].frame_type == DataFrameType::Frame && fs[j].key
                    != key implies has_run(fs6, #[trigger] fs[j]) by {
                assert(fs1[j] == fs[j]);
                assert(!(lo <= j <= hi));
            }
            assert forall|y: int| 0 <= y < fs6.len() implies keyless(#[trigger] fs6[y]) || None::<
                DataFrameView,
            > == Some(fs6[y]) || (fs6[y].frame_type == DataFrameType::Frame && fs6[y].key != key
                && has_run(fs, fs6[y])) by {
                if y != lo {
                    let x = merge_src(fs1, c, y);
                    assert(fs6[y] == fs1[x]);
                    assert(x != c);
                    assert(fs1[x] == fs[x]);
                    if fs[x].frame_type == DataFrameType::Frame {
                        assert(fs[x].key != fs[c].key);
                    }
                }
            }
            assert forall|y: int| 0 <= y < fs6.len() && y != c6 && keyless(#[trigger] fs6[y]) implies within_keyless(
                fs,
                fs6[y],
            ) by {
                let x = merge_src(fs1, c, y);
                assert(fs6[y] == fs1[x]);
                assert(x != c);
                assert(fs1[x] == fs[x]);
            }
        },
    }
}

/// Adding a frame after the last run keeps the file tiled.
pub proof fn lemma_tile_push(fs: Seq<DataFrameView>, size: int, f: DataFrameView)
    requires
        frames_tile(fs, size),
        f.start == size,
        f.start <= f.end,
        f.len == f.end - f.start + 1,
    ensures
        frames_tile(fs.push(f), f.end + 1),
{
    let fs2 = fs.push(f);
    assert forall|i: int| 0 <= i < fs2.len() implies {
        &&& #[trigger] fs2[i].start == (if i == 0 {
            0
        } else {
            fs2[i - 1].end + 1
        })
        &&& fs2[i].start <= fs2[i].end
        &&& fs2[i].len == fs2[i].end - fs2[i].start + 1
    } by {
        if i < fs.len() {
            assert(fs2[i] == fs[i]);
        }
        if 0 < i {
            assert(fs2[i - 1] == fs[i - 1]);
        }
    }
}

/// The frame of `key` holding `value`, placed at `start`, holds its own pointer.
pub proof fn lemma_new_pointer_in_frame(key: Seq<char>, value: Value, start: int)
    requires
        0 <= start,
        start + keyval_bytes(key, value).len() <= u64::MAX,
    ensures
        keyval_bytes(key, value).len() == 32 + encode_utf8(key).len() + value_payload(value).len(),
        pointer_in_frame(
            new_pointer(key, value, start),
            new_run(key, start, keyval_bytes(key, value).len() as int),
        ),
        new_pointer(key, value, start).value_start == start + 29 + encode_utf8(key).len(),
        new_pointer(key, value, start).value_size == value_payload(value).len(),
        new_pointer(key, value, start).value_type == value_tag(value),
{
    lemma_frame_pointer_roundtrip(encode_utf8(key), value_tag(value), value_payload(value), 0, 0);
}

/// `add` keeps the map consistent with its file: the runs still cover the file, only
/// frames have keys, and every key's pointer lies in its frame. (A new key must not
/// be empty: its frame would be a frame without a key.)
pub proof fn lemma_add_keeps_wf(
    m: BucketMap,
    m2: BucketMap,
    key: Seq<char>,
    value: Value,
    store: bool,
    r: Result<Vec<FileWrite>, Error>,
)
    requires
        m.wf(),
        m.size + keyval_bytes(key, value).len() <= usize::MAX,
        !m.pointers@.contains_key(key) ==> key.len() > 0,
        !m.pointers@.contains_key(key) ==> added_new(m, m2, key, value, store, r),
        m.pointers@.contains_key(key) ==> updated(m, m2, key, value, r),
    ensures
        m2.wf(),
{
    let fs = m.frames_v();
    let n = keyval_bytes(key, value).len() as int;
    lemma_new_pointer_in_frame(key, value, 0);
    if !m.pointers@.contains_key(key) {
        let newf = new_run(key, m.size as int, n);
        lemma_new_pointer_in_frame(key, value, m.size as int);
        assert(m2.frames_v() == fs.push(newf));
        lemma_tile_push(fs, m.size as int, newf);
        let fs2 = fs.push(newf);
        assert forall|j: int|
            0 <= j < fs.len() && fs[j].frame_type == DataFrameType::Frame && fs[j].key != key implies has_run(
            fs2,
            #[trigger] fs[j],
        ) by {
            assert(fs2[j] == fs[j]);
        }
        assert forall|i: int| 0 <= i < fs2.len() implies keyless(#[trigger] fs2[i]) || Some(newf)
            == Some(fs2[i]) || (fs2[i].frame_type == DataFrameType::Frame && fs2[i].key != key
            && has_run(fs, fs2[i])) by {
            if i < fs.len() {
                assert(fs2[i] == fs[i]);
                if fs[i].frame_type == DataFrameType::Frame {
                    assert(m.pointers@.contains_key(fs[i].key));
                }
            }
        }
        assert(fs2[fs.len() as int] == newf);
        lemma_follow_consistent(
            fs,
            fs2,
            m2.size as int,
            key,
            Some(newf),
            m.pointers@,
            m2.pointers@,
            new_pointer(key, value, m.size as int),
        );
    } else {
        let j = choose|j: int|
            0 <= j < fs.len() && fs[j].frame_type == DataFrameType::Frame && fs[j].key == key
                && pointer_in_frame(m.pointers@[key], fs[j]);
        lemma_first_some(fs, has_key(key), j);
        lemma_update_follow(fs, key, n, m.size as int, j);
        let plan = spec_update(fs, key, n, m.size as int);
        lemma_new_pointer_in_frame(key, value, plan.start);
        lemma_follow_consistent(
            fs,
            plan.frames,
            plan.size,
            key,
            Some(new_run(key, plan.start, n)),
            m.pointers@,
            m2.pointers@,
            new_pointer(key, value, plan.start),
        );
    }
}

/// `delete` keeps the map consistent with its file.
pub proof fn lemma_delete_keeps_wf(m: BucketMap, m2: BucketMap, key: Seq<char>, r: Result<Vec<FileWrite>, Error>)
    requires
        m.wf(),
        deleted(m, m2, key, r),
    ensures
        m2.wf(),
{
    let fs = m.frames_v();
    lemma_delete_follow(fs, key, m.size as int);
    match first_index(fs, has_key(key)) {
        None => {
            lemma_follow_consistent(fs, fs, m.size as int, key, None, m.pointers@, m2.pointers@, m.pointers@[key]);
        },
        Some(c) => {
            lemma_follow_consistent(fs, m2.frames_v(), m.size as int, key, None, m.pointers@, m2.pointers@, m.pointers@[key]);
        },
    }
}

/// The bytes of the value that `p` points at in `file`.
pub open spec fn value_bytes_at(file: Seq<u8>, p: Pointer) -> Seq<u8> {
    file.subrange(p.value_start as int, p.value_start + p.value_size)
}

/// The file after one write.
pub proof fn lemma_one_write(file: Seq<u8>, w: FileWriteView)
    ensures
        apply_writes(file, seq![w]) == apply_write(file, w),
{
    reveal_with_fuel(apply_writes, 2);
    assert(seq![w].drop_last() =~= Seq::<FileWriteView>::empty());
}

/// The file after two writes.
pub proof fn lemma_two_writes(file: Seq<u8>, w1: FileWriteView, w2: FileWriteView)
    ensures
        apply_writes(file, seq![w1, w2]) == apply_write(apply_write(file, w1), w2),
{
    assert(seq![w1, w2].drop_last() =~= seq![w1]);
    lemma_one_write(file, w1);
}

/// The value bytes of a frame of `key` holding `value`, written at `start`, are found
/// where its pointer says, in any file that holds that frame at `start`.
proof fn lemma_payload_at(key: Seq<char>, value: Value, start: int, f: Seq<u8>)
    requires
        0 <= start,
        start + keyval_bytes(key, value).len() <= f.len(),
        start + keyval_bytes(key, value).len() <= u64::MAX,
        forall|i: int|
            start <= i < start + keyval_bytes(key, value).len() ==> #[trigger] f[i] == keyval_bytes(
                key,
                value,
            )[i - start],
    ensures
        value_bytes_at(f, new_pointer(key, value, start)) == value_payload(value),
{
    let parsed = keyval_bytes(key, value);
    let klen = encode_utf8(key).len() as int;
    let payload = value_payload(value);
    lemma_new_pointer_in_frame(key, value, start);
    lemma_frame_pointer_roundtrip(encode_utf8(key), value_tag(value), payload, 0, 0);
    let p = new_pointer(key, value, start);
    assert forall|k: int| 0 <= k < payload.len() implies value_bytes_at(f, p)[k] == payload[k] by {
        assert(f[start + 29 + klen + k] == parsed[29 + klen + k]);
        assert(parsed.subrange(29 + klen, 29 + klen + payload.len())[k] == parsed[29 + klen + k]);
    }
    assert(value_bytes_at(f, p) =~= payload);
}

/// Reading back a rewritten value: the new frame lies where the first write put it,
/// and the zeroed run is apart from it.
proof fn lemma_read_after_update(
    m: BucketMap,
    m2: BucketMap,
    key: Seq<char>,
    value: Value,
    r: Result<Vec<FileWrite>, Error>,
    file: Seq<u8>,
)
    requires
        m.wf(),
        file.len() == m.size,
        m.size + keyval_bytes(key, value).len() <= usize::MAX,
        m.pointers@.contains_key(key),
        updated(m, m2, key, value, r),
    ensures
        r matches Ok(ws) && {
            let f2 = apply_writes(file, writes_view(ws@));
            &&& f2.len() == m2.size
            &&& value_bytes_at(f2, new_pointer(key, value, spec_update(m.frames_v(), key, keyval_bytes(key, value).len() as int, m.size as int).start)) == value_payload(value)
        },
        0 <= spec_update(m.frames_v(), key, keyval_bytes(key, value).len() as int, m.size as int).start,
        spec_update(m.frames_v(), key, keyval_bytes(key, value).len() as int, m.size as int).start
            + keyval_bytes(key, value).len() <= u64::MAX,
{
    let fs = m.frames_v();
    let parsed = keyval_bytes(key, value);
    let n = parsed.len() as int;
    lemma_new_pointer_in_frame(key, value, 0);
    let ws = r->Ok_0;
    let j = choose|j: int|
        0 <= j < fs.len() && fs[j].frame_type == DataFrameType::Frame && fs[j].key == key
            && pointer_in_frame(m.pointers@[key], fs[j]);
    lemma_first_some(fs, has_key(key), j);
    lemma_update_follow(fs, key, n, m.size as int, j);
    let plan = spec_update(fs, key, n, m.size as int);
    let start = plan.start;
    let w1 = FileWriteView { offset: start as u64, data: parsed };
    let w2 = FileWriteView {
        offset: plan.zero_start as u64,
        data: Seq::new(plan.zero_len as nat, |i: int| 0u8),
    };
    assert(writes_view(ws@) == seq![w1, w2]);
    lemma_two_writes(file, w1, w2);
    lemma_apply_write(file, w1);
    let f1 = apply_write(file, w1);
    let z = choose|z: int|
        0 <= z < plan.frames.len() && blank(#[trigger] plan.frames[z]) && plan.frames[z].start
            == plan.zero_start && plan.frames[z].len == plan.zero_len;
    let newf = new_run(key, start, n);
    assert(has_run(plan.frames, plan.frames[z]));
    lemma_runs_apart(plan.frames, plan.size, newf, plan.frames[z]);
    lemma_tile_order(plan.frames, plan.size);
    assert(plan.frames[z].len == plan.frames[z].end - plan.frames[z].start + 1);
    lemma_apply_write(f1, w2);
    let f2 = apply_writes(file, writes_view(ws@));
    assert forall|i: int| start <= i < start + n implies #[trigger] f2[i] == parsed[i - start] by {
        assert(f2[i] == f1[i]);
    }
    lemma_payload_at(key, value, start, f2);
}

/// Reading back what was added: after `add` of `key`, in the file brought up to date
/// by the writes that `add` returned, the key's pointer records the value's type and
/// points at the value's bytes; so reading them gives back a value of the same type
/// with the same bytes.
pub proof fn lemma_read_after_add(
    m: BucketMap,
    m2: BucketMap,
    key: Seq<char>,
    value: Value,
    store: bool,
    r: Result<Vec<FileWrite>, Error>,
    file: Seq<u8>,
)
    requires
        m.wf(),
        file.len() == m.size,
        m.size + keyval_bytes(key, value).len() <= usize::MAX,
        !m.pointers@.contains_key(key) ==> added_new(m, m2, key, value, store, r),
        m.pointers@.contains_key(key) ==> updated(m, m2, key, value, r),
    ensures
        r matches Ok(ws) && {
            let f2 = apply_writes(file, writes_view(ws@));
            let p = m2.pointers@[key];
            &&& m2.pointers@.contains_key(key)
            &&& f2.len() == m2.size
            &&& p.value_type == value_tag(value)
            &&& value_bytes_at(f2, p) == value_payload(value)
            &&& forall|v: Result<Value, ReadPointerError>|
                decodes_to(p.value_type, value_bytes_at(f2, p), v) ==> (v matches Ok(w) && value_tag(
                    w,
                ) == value_tag(value) && value_payload(w) == value_payload(value))
        },
{
    let parsed = keyval_bytes(key, value);
    lemma_new_pointer_in_frame(key, value, 0);
    lemma_value_roundtrip(value);
    let ws = r->Ok_0;
    if !m.pointers@.contains_key(key) {
        let start = m.size as int;
        lemma_new_pointer_in_frame(key, value, start);
        let w = FileWriteView { offset: start as u64, data: parsed };
        assert(writes_view(ws@) == seq![w]);
        lemma_one_write(file, w);
        lemma_apply_write(file, w);
        let f2 = apply_writes(file, writes_view(ws@));
        lemma_payload_at(key, value, start, f2);
    } else {
        lemma_read_after_update(m, m2, key, value, r, file);
        let plan = spec_update(m.frames_v(), key, parsed.len() as int, m.size as int);
        lemma_new_pointer_in_frame(key, value, plan.start);
    }
}

/// Adding a key leaves every other key alone: its pointer stays, and the bytes of its
/// frame are the same in the file brought up to date by the writes.
pub proof fn lemma_add_keeps_others(
    m: BucketMap,
    m2: BucketMap,
    key: Seq<char>,
    value: Value,
    store: bool,
    r: Result<Vec<FileWrite>, Error>,
    file: Seq<u8>,
    other: Seq<char>,
)
    requires
        m.wf(),
        file.len() == m.size,
        m.size + keyval_bytes(key, value).len() <= usize::MAX,
        !m.pointers@.contains_key(key) ==> added_new(m, m2, key, value, store, r),
        m.pointers@.contains_key(key) ==> updated(m, m2, key, value, r),
        other != key,
        m.pointers@.contains_key(other),
    ensures
        r matches Ok(ws) && {
            let f2 = apply_writes(file, writes_view(ws@));
            let p = m.pointers@[other];
            &&& m2.pointers@.contains_key(other)
            &&& m2.pointers@[other] == p
            &&& p.start <= p.end < file.len()
            &&& f2.subrange(p.start as int, p.end + 1) == file.subrange(p.start as int, p.end + 1)
        },
{
    let fs = m.frames_v();
    let parsed = keyval_bytes(key, value);
    let n = parsed.len() as int;
    let p = m.pointers@[other];
    lemma_new_pointer_in_frame(key, value, 0);
    let jk = choose|j: int|
        0 <= j < fs.len() && fs[j].frame_type == DataFrameType::Frame && fs[j].key == other
            && pointer_in_frame(p, fs[j]);
    lemma_tile_order(fs, m.size as int);
    assert(fs[jk].start <= fs[jk].end < m.size);
    let ws = r->Ok_0;
    if !m.pointers@.contains_key(key) {
        let w = FileWriteView { offset: m.size as u64, data: parsed };
        assert(writes_view(ws@) == seq![w]);
        lemma_one_write(file, w);
        lemma_apply_write(file, w);
        let f2 = apply_writes(file, writes_view(ws@));
        assert(f2.subrange(p.start as int, p.end + 1) =~= file.subrange(p.start as int, p.end + 1));
    } else {
        let j = choose|j: int|
            0 <= j < fs.len() && fs[j].frame_type == DataFrameType::Frame && fs[j].key == key
                && pointer_in_frame(m.pointers@[key], fs[j]);
        lemma_first_some(fs, has_key(key), j);
        lemma_update_follow(fs, key, n, m.size as int, j);
        let plan = spec_update(fs, key, n, m.size as int);
        let start = plan.start;
        let w1 = FileWriteView { offset: start as u64, data: parsed };
        let w2 = FileWriteView {
            offset: plan.zero_start as u64,
            data: Seq::new(plan.zero_len as nat, |i: int| 0u8),
        };
        assert(writes_view(ws@) == seq![w1, w2]);
        lemma_two_writes(file, w1, w2);
        lemma_apply_write(file, w1);
        let f1 = apply_write(file, w1);
        let z = choose|z: int|
            0 <= z < plan.frames.len() && blank(#[trigger] plan.frames[z]) && plan.frames[z].start
                == plan.zero_start && plan.frames[z].len == plan.zero_len;
        let newf = new_run(key, start, n);
        assert(has_run(plan.frames, plan.frames[z]));
        assert(has_run(plan.frames, fs[jk]));
        lemma_runs_apart(plan.frames, plan.size, newf, fs[jk]);
        lemma_runs_apart(plan.frames, plan.size, plan.frames[z], fs[jk]);
        lemma_tile_order(plan.frames, plan.size);
        assert(plan.frames[z].len == plan.frames[z].end - plan.frames[z].start + 1);
        lemma_apply_write(f1, w2);
        let f2 = apply_writes(file, writes_view(ws@));
        assert forall|i: int| p.start <= i <= p.end implies f2[i] == file[i] by {
            assert(f2[i] == f1[i]);
        }
        assert(f2.subrange(p.start as int, p.end + 1) =~= file.subrange(p.start as int, p.end + 1));
    }
}

/// After `delete` of `key`, the key has no pointer, and when it had one, the bytes
/// of its frame are zeroed in the file brought up to date by the writes, whose
/// length stays.
pub proof fn lemma_delete_zeroes(m: BucketMap, m2: BucketMap, key: Seq<char>, r: Result<Vec<FileWrite>, Error>, file: Seq<u8>)
    requires
        m.wf(),
        deleted(m, m2, key, r),
        file.len() == m.size,
    ensures
        !m2.pointers@.contains_key(key),
        m.pointers@.contains_key(key) ==> (r matches Ok(ws) && {
            let f2 = apply_writes(file, writes_view(ws@));
            let p = m.pointers@[key];
            &&& f2.len() == file.len()
            &&& forall|i: int| p.start <= i <= p.end ==> f2[i] == 0
        }),
{
    let fs = m.frames_v();
    if m.pointers@.contains_key(key) {
        let p = m.pointers@[key];
        let j = choose|j: int|
            0 <= j < fs.len() && fs[j].frame_type == DataFrameType::Frame && fs[j].key == key
                && pointer_in_frame(p, fs[j]);
        lemma_first_some(fs, has_key(key), j);
        let c = first_index(fs, has_key(key)).unwrap();
        assert(c == j) by {
            if c != j {
                assert(fs[j].key != fs[c].key);
            }
        }
        let fs1 = fs.update(c, DataFrameView { frame_type: DataFrameType::Clear, ..fs[c] });
        lemma_tile_retype(fs, c, DataFrameType::Clear, fs[c].key, m.size as int);
        assert(fs1 == fs.update(c, DataFrameView { frame_type: DataFrameType::Clear, key: fs[c].key, ..fs[c] }));
        lemma_merge(fs1, c, m.size as int);
        lemma_tile_order(fs1, m.size as int);
        let (fs6, c6) = spec_merge_clear(fs1, c);
        let lo = merge_lo(fs1, c);
        let hi = merge_hi(fs1, c);
        assert(fs1[lo].start <= fs1[c].start) by {
            if lo < c {
                assert(fs1[lo].end < fs1[c].start);
            }
        }
        assert(fs1[c].end <= fs1[hi].end) by {
            if c < hi {
                assert(fs1[c].end < fs1[hi].start);
            }
        }
        lemma_tile_order(fs6, m.size as int);
        let ws = r->Ok_0;
        let w = FileWriteView { offset: fs6[c6].start, data: Seq::new(fs6[c6].len as nat, |i: int| 0u8) };
        assert(writes_view(ws@) == seq![w]);
        lemma_one_write(file, w);
        lemma_apply_write(file, w);
    }
}

/// Deleting a key leaves every other key alone: its pointer stays, and the bytes of its
/// frame are the same in the file brought up to date by the writes.
pub proof fn lemma_delete_keeps_others(
    m: BucketMap,
    m2: BucketMap,
    key: Seq<char>,
    r: Result<Vec<FileWrite>, Error>,
    file: Seq<u8>,
    other: Seq<char>,
)
    requires
        m.wf(),
        deleted(m, m2, key, r),
        file.len() == m.size,
        other != key,
        m.pointers@.contains_key(other),
    ensures
        m2.pointers@.contains_key(other),
        m2.pointers@[other] == m.pointers@[other],
        r matches Ok(ws) ==> {
            let f2 = apply_writes(file, writes_view(ws@));
            let p = m.pointers@[other];
            &&& f2.len() == file.len()
            &&& f2.subrange(p.start as int, p.end + 1) == file.subrange(p.start as int, p.end + 1)
        },
{
    let fs = m.frames_v();
    let p = m.pointers@[other];
    let jk = choose|j: int|
        0 <= j < fs.len() && fs[j].frame_type == DataFrameType::Frame && fs[j].key == other
            && pointer_in_frame(p, fs[j]);
    lemma_tile_order(fs, m.size as int);
    lemma_delete_follow(fs, key, m.size as int);
    if r is Ok {
        let c = first_index(fs, has_key(key)).unwrap();
        let fs1 = fs.update(c, DataFrameView { frame_type: DataFrameType::Clear, ..fs[c] });
        let (fs6, c6) = spec_merge_clear(fs1, c);
        assert(has_run(fs6, fs[jk]));
        assert(has_run(fs6, fs6[c6]));
        lemma_runs_apart(fs6, m.size as int, fs6[c6], fs[jk]);
        lemma_tile_order(fs6, m.size as int);
        let ws = r->Ok_0;
        let w = FileWriteView { offset: fs6[c6].start, data: Seq::new(fs6[c6].len as nat, |i: int| 0u8) };
        assert(writes_view(ws@) == seq![w]);
        lemma_one_write(file, w);
        lemma_apply_write(file, w);
        let f2 = apply_writes(file, writes_view(ws@));
        assert(f2.subrange(p.start as int, p.end + 1) =~= file.subrange(p.start as int, p.end + 1));
    }
}

} // verus!
