use vstd::prelude::*;
use vstd::utf8::encode_utf8;
use crate::frame::{Pointer, Value, keyval_bytes, value_tag, value_payload, expected_pointer};
use crate::scan::{DataFrameType, DataFrameView, spec_parse_map};
use crate::map::{
    BucketMap, frames_tile, new_pointer, lemma_tile_order, FileWrite, FileWriteView, apply_write,
    apply_writes, writes_view, added_new, updated, deleted, spec_update, first_index, has_key,
    spec_merge_clear, pointer_in_frame,
};
use crate::laws::{
    lemma_apply_write, lemma_one_write, lemma_two_writes, lemma_add_keeps_wf, lemma_delete_keeps_wf,
    lemma_update_follow, lemma_update_keyless, lemma_delete_follow, lemma_runs_apart, runs_follow,
    has_run, new_run, keyless, blank, within_keyless, lemma_new_pointer_in_frame,
};
use crate::error::Error;
use crate::reopen::{zeros, units_file, units_scanned, unit_keys_ok, map_file, flush, unit_bytes, lemma_reopen, lemma_units_scanned, lemma_units_split};
use crate::reload::lemma_frame_long;
use crate::laws::lemma_tile_push;
use crate::map::{frame_keys_ok, pointers_ok};
use crate::scan::{scanned_frame, scan_initial};
use crate::layout::no_adjacent_empty;

verus! {

/// The bytes of the run `r` in `file`.
pub open spec fn run_bytes(file: Seq<u8>, r: DataFrameView) -> Seq<u8> {
    file.subrange(r.start as int, r.end + 1)
}

/// The run `r` is held in `file`: an empty run's bytes are zeros; a frame run's bytes
/// are a frame of its key holding some value, which the key's pointer in `ptrs`
/// locates.
pub open spec fn run_held(r: DataFrameView, file: Seq<u8>, ptrs: Map<Seq<char>, Pointer>) -> bool {
    ||| r.frame_type == DataFrameType::Empty && run_bytes(file, r) == zeros(r.len as nat)
    ||| r.frame_type == DataFrameType::Frame && exists|v: Value| #[trigger] frame_held(r, file, ptrs, v)
}

/// The frame run `r` holds the value `v` in `file`, and the key's pointer locates it.
pub open spec fn frame_held(r: DataFrameView, file: Seq<u8>, ptrs: Map<Seq<char>, Pointer>, v: Value) -> bool {
    &&& run_bytes(file, r) == keyval_bytes(r.key, v)
    &&& ptrs[r.key] == new_pointer(r.key, v, r.start as int)
}

/// The file `file` holds the map `m`: the map is consistent, the file is as long as the
/// map says, and every run is held in the file.
pub open spec fn holds(m: BucketMap, file: Seq<u8>) -> bool {
    &&& m.wf()
    &&& file.len() == m.size
    &&& forall|i: int| 0 <= i < m.frames_v().len() ==> run_held(#[trigger] m.frames_v()[i], file, m.pointers@)
}

/// The value that the frame run `r` holds in `file`.
pub open spec fn held_value(r: DataFrameView, file: Seq<u8>, ptrs: Map<Seq<char>, Pointer>) -> Value {
    choose|v: Value| frame_held(r, file, ptrs, v)
}

/// The units (zeros, then a frame) that the runs `fs` of `file` make, and the zeros
/// after the last frame.
pub open spec fn units_of(fs: Seq<DataFrameView>, file: Seq<u8>, ptrs: Map<Seq<char>, Pointer>) -> (Seq<(nat, Seq<char>, Value)>, nat)
    decreases fs.len(),
{
    if fs.len() == 0 {
        (Seq::empty(), 0)
    } else {
        let (us, t) = units_of(fs.drop_last(), file, ptrs);
        let r = fs.last();
        if r.frame_type == DataFrameType::Frame {
            (us.push((t, r.key, held_value(r, file, ptrs))), 0)
        } else {
            (us, (t + r.len) as nat)
        }
    }
}

/// The end of the runs `fs`, which tile the file from its start.
pub open spec fn runs_end(fs: Seq<DataFrameView>) -> int {
    if fs.len() == 0 {
        0
    } else {
        fs.last().end + 1
    }
}

/// Zeros followed by zeros are zeros.
proof fn lemma_zeros_add(a: nat, b: nat)
    ensures
        zeros(a) + zeros(b) == zeros(a + b),
{
    assert(zeros(a) + zeros(b) =~= zeros(a + b));
}

/// What reading the runs `fs` of `file` as units gives: the units and the zeros after
/// them make the file up to the end of the runs, their keys are those of the frame
/// runs, and scanning them records the pointers of those keys in `ptrs`.
pub open spec fn units_of_ok(fs: Seq<DataFrameView>, file: Seq<u8>, ptrs: Map<Seq<char>, Pointer>) -> bool {
    let (us, t) = units_of(fs, file, ptrs);
    &&& unit_keys_ok(us)
    &&& map_file(us, t) == file.subrange(0, runs_end(fs))
    &&& forall|k: Seq<char>|
        #[trigger] units_scanned(us).pointers.contains_key(k) <==> exists|i: int|
            0 <= i < fs.len() && fs[i].frame_type == DataFrameType::Frame && fs[i].key == k
    &&& forall|i: int|
        0 <= i < fs.len() && fs[i].frame_type == DataFrameType::Frame
            ==> units_scanned(us).pointers[#[trigger] fs[i].key] == ptrs[fs[i].key]
}

/// The runs before the last tile the file up to where the last starts.
proof fn lemma_tile_front(fs: Seq<DataFrameView>, size: int)
    requires
        frames_tile(fs, size),
        fs.len() > 0,
    ensures
        frames_tile(fs.drop_last(), runs_end(fs.drop_last())),
        fs.last().start == runs_end(fs.drop_last()),
        fs.last().start <= fs.last().end < size,
        runs_end(fs) == size,
        runs_end(fs.drop_last()) <= size,
{
    let pre = fs.drop_last();
    let n = fs.len() - 1;
    lemma_tile_order(fs, size);
    assert(fs.last() == fs[n]);
    assert forall|i: int| 0 <= i < pre.len() implies {
        &&& #[trigger] pre[i].start == (if i == 0 {
            0
        } else {
            pre[i - 1].end + 1
        })
        &&& pre[i].start <= pre[i].end
        &&& pre[i].len == pre[i].end - pre[i].start + 1
    } by {
        assert(pre[i] == fs[i]);
        if i > 0 {
            assert(pre[i - 1] == fs[i - 1]);
        }
    }
    if n > 0 {
        assert(pre[n - 1] == fs[n - 1]);
    }
}

/// The front runs keep the properties that the units are read under.
proof fn lemma_front_ok(fs: Seq<DataFrameView>, file: Seq<u8>, ptrs: Map<Seq<char>, Pointer>)
    requires
        fs.len() > 0,
        forall|i: int| 0 <= i < fs.len() ==> run_held(#[trigger] fs[i], file, ptrs),
        crate::map::frame_keys_ok(fs),
    ensures
        forall|i: int| 0 <= i < fs.drop_last().len() ==> run_held(#[trigger] fs.drop_last()[i], file, ptrs),
        crate::map::frame_keys_ok(fs.drop_last()),
        run_held(fs.last(), file, ptrs),
        forall|i: int|
            0 <= i < fs.len() - 1 && fs[i].frame_type == DataFrameType::Frame ==> #[trigger] fs[i].key
                != fs.last().key,
{
    let pre = fs.drop_last();
    let n = fs.len() - 1;
    assert(fs.last() == fs[n]);
    assert forall|i: int| 0 <= i < pre.len() implies run_held(#[trigger] pre[i], file, ptrs) by {
        assert(pre[i] == fs[i]);
    }
    assert forall|i: int| 0 <= i < pre.len() implies #[trigger] pre[i].frame_type != DataFrameType::Clear by {
        assert(pre[i] == fs[i]);
    }
    assert forall|i: int| 0 <= i < pre.len() implies (#[trigger] pre[i].frame_type == DataFrameType::Frame
        <==> pre[i].key.len() > 0) by {
        assert(pre[i] == fs[i]);
    }
    assert forall|i: int, j: int|
        0 <= i < pre.len() && 0 <= j < pre.len() && i != j && pre[i].frame_type
            == DataFrameType::Frame implies #[trigger] pre[i].key != #[trigger] pre[j].key by {
        assert(pre[i] == fs[i] && pre[j] == fs[j]);
    }
    assert forall|i: int| 0 <= i < fs.len() - 1 && fs[i].frame_type == DataFrameType::Frame implies #[trigger] fs[i].key
        != fs.last().key by {
        assert(fs[i].key != fs[n].key);
    }
}

/// A frame run adds its unit.
#[verifier::spinoff_prover]
#[verifier::rlimit(40)]
proof fn lemma_units_step_frame(fs: Seq<DataFrameView>, file: Seq<u8>, ptrs: Map<Seq<char>, Pointer>, size: int)
    requires
        frames_tile(fs, size),
        size <= file.len(),
        size <= u64::MAX,
        fs.len() > 0,
        fs.last().frame_type == DataFrameType::Frame,
        run_held(fs.last(), file, ptrs),
        fs.last().key.len() > 0,
        forall|i: int|
            0 <= i < fs.len() - 1 && fs[i].frame_type == DataFrameType::Frame ==> #[trigger] fs[i].key
                != fs.last().key,
        units_of_ok(fs.drop_last(), file, ptrs),
    ensures
        units_of_ok(fs, file, ptrs),
{
    let pre = fs.drop_last();
    let r = fs.last();
    let n = fs.len() - 1;
    lemma_tile_front(fs, size);
    let pre_end = runs_end(pre);
    let (us, t) = units_of(pre, file, ptrs);
    let (us2, t2) = units_of(fs, file, ptrs);
    let v = held_value(r, file, ptrs);
    assert(frame_held(r, file, ptrs, v));
    let u = (t, r.key, v);
    assert(us2 == us.push(u) && t2 == 0);
    assert(us2.drop_last() =~= us);
    assert(us2.last() == u);
    assert(unit_keys_ok(us2)) by {
        assert forall|i: int| 0 <= i < us2.len() implies (#[trigger] us2[i]).1.len() > 0 by {
            if i < us.len() {
                assert(us2[i] == us[i]);
            }
        }
    }
    lemma_frame_long(r.key, v);
    assert(zeros(0) =~= Seq::<u8>::empty());
    assert(units_file(us2) == units_file(us) + unit_bytes(u));
    assert(map_file(us2, 0) =~= file.subrange(0, runs_end(fs))) by {
        assert(file.subrange(0, runs_end(fs)) =~= file.subrange(0, pre_end) + run_bytes(file, r));
        assert(map_file(us, t) == file.subrange(0, pre_end));
    }
    lemma_units_scanned(us);
    assert(flush(units_scanned(us), t).file_cursor == r.start);
    assert(units_scanned(us2).pointers == units_scanned(us).pointers.insert(
        r.key,
        expected_pointer(encode_utf8(r.key), value_tag(v), value_payload(v), r.start, r.end),
    ));
    assert forall|i: int|
        0 <= i < fs.len() && fs[i].frame_type == DataFrameType::Frame implies units_scanned(us2).pointers[#[trigger] fs[i].key]
        == ptrs[fs[i].key] by {
        if i < n {
            assert(pre[i] == fs[i]);
        } else {
            assert(fs[i] == r);
        }
    }
    assert forall|k: Seq<char>| #[trigger] units_scanned(us2).pointers.contains_key(k) <==> exists|i: int|
        0 <= i < fs.len() && fs[i].frame_type == DataFrameType::Frame && fs[i].key == k by {
        if units_scanned(us).pointers.contains_key(k) {
            let i = choose|i: int| 0 <= i < pre.len() && pre[i].frame_type == DataFrameType::Frame && pre[i].key == k;
            assert(pre[i] == fs[i]);
        }
        if k == r.key {
            assert(fs[n] == r);
        }
        if exists|i: int| 0 <= i < fs.len() && fs[i].frame_type == DataFrameType::Frame && fs[i].key == k {
            let i = choose|i: int| 0 <= i < fs.len() && fs[i].frame_type == DataFrameType::Frame && fs[i].key == k;
            if i < n {
                assert(pre[i] == fs[i]);
            }
        }
    }
}

/// An empty run adds its zeros to those after the last frame.
#[verifier::spinoff_prover]
#[verifier::rlimit(40)]
proof fn lemma_units_step_empty(fs: Seq<DataFrameView>, file: Seq<u8>, ptrs: Map<Seq<char>, Pointer>, size: int)
    requires
        frames_tile(fs, size),
        size <= file.len(),
        fs.len() > 0,
        fs.last().frame_type == DataFrameType::Empty,
        run_held(fs.last(), file, ptrs),
        units_of_ok(fs.drop_last(), file, ptrs),
    ensures
        units_of_ok(fs, file, ptrs),
{
    let pre = fs.drop_last();
    let r = fs.last();
    let n = fs.len() - 1;
    lemma_tile_front(fs, size);
    let pre_end = runs_end(pre);
    let (us, t) = units_of(pre, file, ptrs);
    let (us2, t2) = units_of(fs, file, ptrs);
    assert(us2 == us && t2 == (t + r.len) as nat);
    lemma_zeros_add(t, r.len as nat);
    assert(map_file(us2, t2) =~= file.subrange(0, runs_end(fs))) by {
        assert(file.subrange(0, runs_end(fs)) =~= file.subrange(0, pre_end) + run_bytes(file, r));
        assert(map_file(us, t) == file.subrange(0, pre_end));
        assert(map_file(us2, t2) =~= units_file(us) + zeros(t) + zeros(r.len as nat));
    }
    assert forall|i: int|
        0 <= i < fs.len() && fs[i].frame_type == DataFrameType::Frame implies units_scanned(us2).pointers[#[trigger] fs[i].key]
        == ptrs[fs[i].key] by {
        assert(i < n);
        assert(pre[i] == fs[i]);
    }
    assert forall|k: Seq<char>| #[trigger] units_scanned(us2).pointers.contains_key(k) <==> exists|i: int|
        0 <= i < fs.len() && fs[i].frame_type == DataFrameType::Frame && fs[i].key == k by {
        if units_scanned(us).pointers.contains_key(k) {
            let i = choose|i: int| 0 <= i < pre.len() && pre[i].frame_type == DataFrameType::Frame && pre[i].key == k;
            assert(pre[i] == fs[i]);
        }
        if exists|i: int| 0 <= i < fs.len() && fs[i].frame_type == DataFrameType::Frame && fs[i].key == k {
            let i = choose|i: int| 0 <= i < fs.len() && fs[i].frame_type == DataFrameType::Frame && fs[i].key == k;
            assert(i < n);
            assert(pre[i] == fs[i]);
        }
    }
}

/// Reading the runs of a held file as units.
proof fn lemma_units_of(fs: Seq<DataFrameView>, file: Seq<u8>, ptrs: Map<Seq<char>, Pointer>, size: int)
    requires
        frames_tile(fs, size),
        size <= file.len(),
        size <= u64::MAX,
        forall|i: int| 0 <= i < fs.len() ==> run_held(#[trigger] fs[i], file, ptrs),
        crate::map::frame_keys_ok(fs),
    ensures
        units_of_ok(fs, file, ptrs),
    decreases fs.len(),
{
    if fs.len() == 0 {
        assert(zeros(0) =~= Seq::<u8>::empty());
        assert(file.subrange(0, 0) =~= Seq::<u8>::empty());
    } else {
        lemma_tile_front(fs, size);
        lemma_front_ok(fs, file, ptrs);
        lemma_units_of(fs.drop_last(), file, ptrs, runs_end(fs.drop_last()));
        let n = fs.len() - 1;
        assert(fs.last() == fs[n]);
        if fs.last().frame_type == DataFrameType::Frame {
            lemma_units_step_frame(fs, file, ptrs, size);
        } else {
            lemma_units_step_empty(fs, file, ptrs, size);
        }
    }
}

/// Scanning the units that the runs `fs` of `file` make records the runs `fs` one for
/// one, when no two neighbouring runs are empty: each frame run as its frame, and each
/// empty run as the zeros before the next frame, or after the last.
#[verifier::spinoff_prover]
#[verifier::rlimit(60)]
proof fn lemma_units_runs(fs: Seq<DataFrameView>, file: Seq<u8>, ptrs: Map<Seq<char>, Pointer>, size: int)
    requires
        frames_tile(fs, size),
        size <= file.len(),
        size <= u64::MAX,
        forall|i: int| 0 <= i < fs.len() ==> run_held(#[trigger] fs[i], file, ptrs),
        crate::map::frame_keys_ok(fs),
        no_adjacent_empty(fs),
    ensures
        ({
            let (us, t) = units_of(fs, file, ptrs);
            &&& flush(units_scanned(us), t).frames == fs
            &&& units_scanned(us).file_cursor + t == runs_end(fs)
            &&& t > 0 ==> fs.len() > 0 && fs.last().frame_type == DataFrameType::Empty
        }),
    decreases fs.len(),
{
    if fs.len() > 0 {
        lemma_tile_front(fs, size);
        lemma_front_ok(fs, file, ptrs);
        let pre = fs.drop_last();
        let n = fs.len() - 1;
        assert(fs.last() == fs[n]);
        assert forall|a: int, b: int|
            #![trigger pre[a], pre[b]]
            0 <= a && b == a + 1 && b < pre.len() implies !(pre[a].frame_type == DataFrameType::Empty
            && pre[b].frame_type == DataFrameType::Empty) by {
            assert(pre[a] == fs[a] && pre[b] == fs[b]);
        }
        lemma_units_runs(pre, file, ptrs, runs_end(pre));
        let (us1, t1) = units_of(pre, file, ptrs);
        let st1 = units_scanned(us1);
        let r = fs.last();
        assert(r.end < file.len());
        assert(run_bytes(file, r).len() == r.len);
        if r.frame_type == DataFrameType::Frame {
            let v = held_value(r, file, ptrs);
            assert(frame_held(r, file, ptrs, v));
            let us = us1.push((t1, r.key, v));
            assert(us.drop_last() == us1);
            let st2 = flush(st1, t1);
            assert(st2.frames == pre);
            assert(st2.file_cursor == r.start);
            assert(units_scanned(us) == scanned_frame(st2, r.key, value_tag(v), value_payload(v)));
            assert(keyval_bytes(r.key, v) == run_bytes(file, r));
            let f = DataFrameView {
                key: r.key,
                frame_type: DataFrameType::Frame,
                start: r.start,
                end: r.end,
                len: r.len,
            };
            assert(f == r);
            assert(units_scanned(us).frames == pre.push(f));
            assert(fs =~= pre.push(r));
        } else {
            if t1 > 0 {
                assert(pre.last() == fs[n - 1]);
                assert(!(fs[n - 1].frame_type == DataFrameType::Empty && fs[n].frame_type
                    == DataFrameType::Empty));
            }
            assert(r.key.len() == 0);
            assert(r.key =~= Seq::<char>::empty());
            assert(t1 == 0);
            assert(st1.frames == pre);
            assert(st1.file_cursor == r.start);
            let f = crate::scan::unmarked_run(DataFrameType::Empty, r.start as int, r.start + r.len - 1, r.len as int);
            assert(f == r);
            assert(flush(st1, r.len as nat).frames == pre.push(f));
            assert(fs =~= pre.push(r));
        }
    }
}

/// Reopening a map's file gives back the map's runs as well: when the file holds the
/// map and no two neighbouring runs of the map are empty (as `add` and `delete` keep
/// them), scanning the file records exactly the map's runs.
pub proof fn lemma_reopen_runs(m: BucketMap, file: Seq<u8>)
    requires
        holds(m, file),
        no_adjacent_empty(m.frames_v()),
    ensures
        spec_parse_map(file).frames == m.frames_v(),
{
    let fs = m.frames_v();
    let ptrs = m.pointers@;
    assert forall|i: int| 0 <= i < fs.len() implies run_held(#[trigger] fs[i], file, ptrs) by {
    }
    lemma_units_of(fs, file, ptrs, m.size as int);
    lemma_units_runs(fs, file, ptrs, m.size as int);
    let (us, t) = units_of(fs, file, ptrs);
    if fs.len() > 0 {
        lemma_tile_front(fs, m.size as int);
    }
    assert(file.subrange(0, runs_end(fs)) =~= file);
    lemma_reopen(us, t);
}

/// Reopening a map's file: when the file holds the map, scanning it gives back exactly
/// the map's pointers, whatever adds, rewrites and deletes made the file.
pub proof fn lemma_reopen_map(m: BucketMap, file: Seq<u8>)
    requires
        holds(m, file),
    ensures
        spec_parse_map(file).pointers == m.pointers@,
{
    let fs = m.frames_v();
    let ptrs = m.pointers@;
    assert forall|i: int| 0 <= i < fs.len() implies run_held(#[trigger] fs[i], file, ptrs) by {
    }
    lemma_units_of(fs, file, ptrs, m.size as int);
    let (us, t) = units_of(fs, file, ptrs);
    if fs.len() > 0 {
        lemma_tile_front(fs, m.size as int);
    }
    assert(file.subrange(0, runs_end(fs)) =~= file);
    lemma_reopen(us, t);
    assert(units_scanned(us).pointers =~= ptrs) by {
        assert forall|k: Seq<char>| #[trigger] ptrs.contains_key(k) implies units_scanned(us).pointers.contains_key(k) by {
            let i = choose|i: int|
                0 <= i < fs.len() && fs[i].frame_type == DataFrameType::Frame && fs[i].key == k
                    && crate::map::pointer_in_frame(ptrs[k], fs[i]);
        }
        assert forall|k: Seq<char>| #[trigger] units_scanned(us).pointers.contains_key(k) implies ptrs.contains_key(k)
            && units_scanned(us).pointers[k] == ptrs[k] by {
            let i = choose|i: int| 0 <= i < fs.len() && fs[i].frame_type == DataFrameType::Frame && fs[i].key == k;
        }
    }
}

/// A write that misses a run leaves its bytes.
proof fn lemma_bytes_missed(file: Seq<u8>, w: FileWriteView, r: DataFrameView)
    requires
        w.offset <= file.len(),
        r.start <= r.end < file.len(),
        r.end < w.offset || w.offset + w.data.len() <= r.start,
    ensures
        run_bytes(apply_write(file, w), r) == run_bytes(file, r),
{
    lemma_apply_write(file, w);
    assert(run_bytes(apply_write(file, w), r) =~= run_bytes(file, r));
}

/// A write of exactly a run's bytes puts them there.
proof fn lemma_bytes_written(file: Seq<u8>, w: FileWriteView, r: DataFrameView)
    requires
        w.offset <= file.len(),
        r.start == w.offset,
        r.end + 1 == w.offset + w.data.len(),
    ensures
        run_bytes(apply_write(file, w), r) == w.data,
{
    lemma_apply_write(file, w);
    assert(run_bytes(apply_write(file, w), r) =~= w.data);
}

/// Zeros stay zeros under a write of zeros, wherever it falls.
proof fn lemma_zeros_kept(file: Seq<u8>, w: FileWriteView, r: DataFrameView, n: nat)
    requires
        w.offset <= file.len(),
        r.start <= r.end < file.len(),
        n == r.end + 1 - r.start,
        run_bytes(file, r) == zeros(n),
        w.data == zeros(w.data.len()),
    ensures
        run_bytes(apply_write(file, w), r) == zeros(n),
{
    lemma_apply_write(file, w);
    assert forall|i: int| 0 <= i < n implies run_bytes(apply_write(file, w), r)[i] == 0 by {
        assert(run_bytes(file, r)[i] == file[r.start + i]);
        if w.offset <= r.start + i < w.offset + w.data.len() {
            assert(w.data[r.start + i - w.offset] == 0);
        }
    }
    assert(run_bytes(apply_write(file, w), r) =~= zeros(n));
}

/// A run inside a run of zeros is zeros.
proof fn lemma_zeros_within(file: Seq<u8>, outer: DataFrameView, r: DataFrameView)
    requires
        outer.start <= r.start <= r.end <= outer.end < file.len(),
        run_bytes(file, outer) == zeros((outer.end + 1 - outer.start) as nat),
    ensures
        run_bytes(file, r) == zeros((r.end + 1 - r.start) as nat),
{
    assert forall|i: int| 0 <= i < r.end + 1 - r.start implies run_bytes(file, r)[i] == 0 by {
        assert(run_bytes(file, outer)[r.start - outer.start + i] == 0);
    }
    assert(run_bytes(file, r) =~= zeros((r.end + 1 - r.start) as nat));
}

/// A run of a tiling holds `len` bytes from `start` to `end`.
proof fn lemma_run_span(fs: Seq<DataFrameView>, size: int, r: DataFrameView)
    requires
        frames_tile(fs, size),
        has_run(fs, r),
    ensures
        r.start <= r.end < size,
        r.len == r.end + 1 - r.start,
{
    lemma_tile_order(fs, size);
    let j = choose|j: int| 0 <= j < fs.len() && fs[j] == r;
}

/// Adding a new key keeps the file holding the map.
proof fn lemma_add_new_holds(m: BucketMap, m2: BucketMap, key: Seq<char>, value: Value, store: bool, r: Result<Vec<FileWrite>, Error>, file: Seq<u8>)
    requires
        holds(m, file),
        m.size + keyval_bytes(key, value).len() <= usize::MAX,
        key.len() > 0,
        !m.pointers@.contains_key(key),
        added_new(m, m2, key, value, store, r),
    ensures
        r matches Ok(ws) && holds(m2, apply_writes(file, writes_view(ws@))),
{
    lemma_add_keeps_wf(m, m2, key, value, store, r);
    let fs = m.frames_v();
    let fs2 = m2.frames_v();
    let ws = r->Ok_0;
    let parsed = keyval_bytes(key, value);
    let n = parsed.len() as int;
    let w = FileWriteView { offset: m.size as u64, data: parsed };
    assert(writes_view(ws@) == seq![w]);
    lemma_one_write(file, w);
    lemma_apply_write(file, w);
    let f2 = apply_write(file, w);
    lemma_new_pointer_in_frame(key, value, m.size as int);
    let newf = new_run(key, m.size as int, n);
    assert(fs2 == fs.push(newf));
    lemma_tile_order(fs, m.size as int);
    assert forall|i: int| 0 <= i < fs2.len() implies run_held(#[trigger] fs2[i], f2, m2.pointers@) by {
        if i < fs.len() {
            assert(fs2[i] == fs[i]);
            assert(run_held(fs[i], file, m.pointers@));
            assert(fs[i].start <= fs[i].end < m.size);
            lemma_bytes_missed(file, w, fs[i]);
            if fs[i].frame_type == DataFrameType::Frame {
                let v = choose|v: Value| frame_held(fs[i], file, m.pointers@, v);
                assert(m.pointers@.contains_key(fs[i].key));
                assert(frame_held(fs[i], f2, m2.pointers@, v));
            }
        } else {
            assert(fs2[i] == newf);
            lemma_bytes_written(file, w, newf);
            assert(frame_held(newf, f2, m2.pointers@, value));
        }
    }
}

/// The two writes of a rewrite and the runs after it, as the rewrite lemmas use them.
pub open spec fn rewrite_setup(m: BucketMap, key: Seq<char>, value: Value, file: Seq<u8>, w1: FileWriteView, w2: FileWriteView) -> bool {
    let fs = m.frames_v();
    let n = keyval_bytes(key, value).len() as int;
    let plan = spec_update(fs, key, n, m.size as int);
    &&& frames_tile(plan.frames, plan.size)
    &&& 0 <= plan.start <= m.size
    &&& plan.size == (if plan.start + n <= m.size {
        m.size as int
    } else {
        plan.start + n
    })
    &&& plan.size <= u64::MAX
    &&& runs_follow(fs, plan.frames, key, Some(new_run(key, plan.start, n)))
    &&& w1 == FileWriteView { offset: plan.start as u64, data: keyval_bytes(key, value) }
    &&& w2 == FileWriteView { offset: plan.zero_start as u64, data: Seq::new(plan.zero_len as nat, |i: int| 0u8) }
    &&& exists|z: int|
        0 <= z < plan.frames.len() && blank(#[trigger] plan.frames[z]) && plan.frames[z].start
            == plan.zero_start && plan.frames[z].len == plan.zero_len
    &&& file.len() == m.size
    &&& m.size + n <= u64::MAX
}

/// The zero write of a rewrite covers a run of its own, apart from every other run.
proof fn lemma_zero_run(m: BucketMap, key: Seq<char>, value: Value, file: Seq<u8>, w1: FileWriteView, w2: FileWriteView) -> (z: int)
    requires
        rewrite_setup(m, key, value, file, w1, w2),
    ensures
        ({
            let plan = spec_update(m.frames_v(), key, keyval_bytes(key, value).len() as int, m.size as int);
            &&& 0 <= z < plan.frames.len()
            &&& blank(plan.frames[z])
            &&& plan.frames[z].start == w2.offset
            &&& plan.frames[z].end + 1 == w2.offset + w2.data.len()
            &&& plan.frames[z].end < plan.size
            &&& w1.offset <= file.len()
            &&& apply_write(file, w1).len() == plan.size
            &&& w2.offset <= apply_write(file, w1).len()
        }),
{
    let plan = spec_update(m.frames_v(), key, keyval_bytes(key, value).len() as int, m.size as int);
    let z = choose|z: int|
        0 <= z < plan.frames.len() && blank(#[trigger] plan.frames[z]) && plan.frames[z].start
            == plan.zero_start && plan.frames[z].len == plan.zero_len;
    assert(has_run(plan.frames, plan.frames[z]));
    lemma_run_span(plan.frames, plan.size, plan.frames[z]);
    lemma_apply_write(file, w1);
    z
}

/// The new frame of a rewrite is held after both writes.
proof fn lemma_rewrite_new(m: BucketMap, key: Seq<char>, value: Value, file: Seq<u8>, w1: FileWriteView, w2: FileWriteView, ptrs2: Map<Seq<char>, Pointer>)
    requires
        rewrite_setup(m, key, value, file, w1, w2),
        ptrs2[key] == new_pointer(key, value, spec_update(m.frames_v(), key, keyval_bytes(key, value).len() as int, m.size as int).start),
    ensures
        run_held(
            new_run(key, spec_update(m.frames_v(), key, keyval_bytes(key, value).len() as int, m.size as int).start, keyval_bytes(key, value).len() as int),
            apply_write(apply_write(file, w1), w2),
            ptrs2,
        ),
{
    let plan = spec_update(m.frames_v(), key, keyval_bytes(key, value).len() as int, m.size as int);
    let n = keyval_bytes(key, value).len() as int;
    let newf = new_run(key, plan.start, n);
    let z = lemma_zero_run(m, key, value, file, w1, w2);
    lemma_new_pointer_in_frame(key, value, plan.start);
    assert(has_run(plan.frames, newf));
    assert(has_run(plan.frames, plan.frames[z]));
    lemma_runs_apart(plan.frames, plan.size, newf, plan.frames[z]);
    lemma_bytes_written(file, w1, newf);
    lemma_bytes_missed(apply_write(file, w1), w2, newf);
    assert(frame_held(newf, apply_write(apply_write(file, w1), w2), ptrs2, value));
}

/// A frame of another key is held after both writes of a rewrite, as it was.
proof fn lemma_rewrite_other(m: BucketMap, key: Seq<char>, value: Value, file: Seq<u8>, w1: FileWriteView, w2: FileWriteView, ptrs2: Map<Seq<char>, Pointer>, j: int)
    requires
        rewrite_setup(m, key, value, file, w1, w2),
        holds(m, file),
        0 <= j < m.frames_v().len(),
        m.frames_v()[j].frame_type == DataFrameType::Frame,
        m.frames_v()[j].key != key,
        ptrs2[m.frames_v()[j].key] == m.pointers@[m.frames_v()[j].key],
    ensures
        run_held(m.frames_v()[j], apply_write(apply_write(file, w1), w2), ptrs2),
{
    let fs = m.frames_v();
    let plan = spec_update(fs, key, keyval_bytes(key, value).len() as int, m.size as int);
    let n = keyval_bytes(key, value).len() as int;
    let newf = new_run(key, plan.start, n);
    let rr = fs[j];
    let z = lemma_zero_run(m, key, value, file, w1, w2);
    lemma_new_pointer_in_frame(key, value, plan.start);
    assert(has_run(plan.frames, rr));
    assert(has_run(plan.frames, newf));
    assert(has_run(plan.frames, plan.frames[z]));
    lemma_runs_apart(plan.frames, plan.size, newf, rr);
    lemma_runs_apart(plan.frames, plan.size, plan.frames[z], rr);
    lemma_tile_order(fs, m.size as int);
    assert(rr.start <= rr.end < m.size);
    lemma_bytes_missed(file, w1, rr);
    lemma_bytes_missed(apply_write(file, w1), w2, rr);
    assert(run_held(rr, file, m.pointers@));
    let v = choose|v: Value| frame_held(rr, file, m.pointers@, v);
    assert(frame_held(rr, apply_write(apply_write(file, w1), w2), ptrs2, v));
}

/// A run without a key after a rewrite is an empty run of zeros.
proof fn lemma_rewrite_keyless(m: BucketMap, key: Seq<char>, value: Value, file: Seq<u8>, w1: FileWriteView, w2: FileWriteView, ptrs2: Map<Seq<char>, Pointer>, y: int)
    requires
        rewrite_setup(m, key, value, file, w1, w2),
        holds(m, file),
        ({
            let plan = spec_update(m.frames_v(), key, keyval_bytes(key, value).len() as int, m.size as int);
            &&& 0 <= y < plan.frames.len()
            &&& keyless(plan.frames[y])
            &&& within_keyless(m.frames_v(), plan.frames[y]) || (blank(plan.frames[y]) && plan.frames[y].start
                == plan.zero_start && plan.frames[y].len == plan.zero_len)
        }),
    ensures
        run_held(
            spec_update(m.frames_v(), key, keyval_bytes(key, value).len() as int, m.size as int).frames[y],
            apply_write(apply_write(file, w1), w2),
            ptrs2,
        ),
{
    let fs = m.frames_v();
    let plan = spec_update(fs, key, keyval_bytes(key, value).len() as int, m.size as int);
    let n = keyval_bytes(key, value).len() as int;
    let newf = new_run(key, plan.start, n);
    let rr = plan.frames[y];
    let f1 = apply_write(file, w1);
    let z = lemma_zero_run(m, key, value, file, w1, w2);
    assert(has_run(plan.frames, rr));
    lemma_run_span(plan.frames, plan.size, rr);
    if within_keyless(fs, rr) {
        let j = choose|j: int|
            0 <= j < fs.len() && keyless(#[trigger] fs[j]) && fs[j].frame_type == rr.frame_type
                && fs[j].start <= rr.start && rr.end <= fs[j].end;
        assert(run_held(fs[j], file, m.pointers@));
        lemma_tile_order(fs, m.size as int);
        assert(fs[j].len == fs[j].end - fs[j].start + 1);
        lemma_zeros_within(file, fs[j], rr);
        lemma_new_pointer_in_frame(key, value, plan.start);
        assert(has_run(plan.frames, newf));
        lemma_runs_apart(plan.frames, plan.size, newf, rr);
        lemma_bytes_missed(file, w1, rr);
        assert(w2.data =~= zeros(w2.data.len()));
        lemma_zeros_kept(f1, w2, rr, (rr.end + 1 - rr.start) as nat);
    } else {
        lemma_bytes_written(f1, w2, rr);
        assert(w2.data =~= zeros(rr.len as nat));
    }
}

/// Rewriting the value of a key keeps the file holding the map.
#[verifier::spinoff_prover]
#[verifier::rlimit(40)]
proof fn lemma_update_holds(m: BucketMap, m2: BucketMap, key: Seq<char>, value: Value, r: Result<Vec<FileWrite>, Error>, file: Seq<u8>)
    requires
        holds(m, file),
        m.size + keyval_bytes(key, value).len() <= usize::MAX,
        m.pointers@.contains_key(key),
        updated(m, m2, key, value, r),
    ensures
        r matches Ok(ws) && holds(m2, apply_writes(file, writes_view(ws@))),
{
    let fs = m.frames_v();
    let n = keyval_bytes(key, value).len() as int;
    let j = choose|j: int|
        0 <= j < fs.len() && fs[j].frame_type == DataFrameType::Frame && fs[j].key == key
            && pointer_in_frame(m.pointers@[key], fs[j]);
    crate::map::lemma_first_some(fs, has_key(key), j);
    lemma_add_keeps_wf(m, m2, key, value, false, r);
    lemma_update_follow(fs, key, n, m.size as int, j);
    lemma_update_keyless(fs, key, n, m.size as int, j);
    let plan = spec_update(fs, key, n, m.size as int);
    let ws = r->Ok_0;
    let w1 = FileWriteView { offset: plan.start as u64, data: keyval_bytes(key, value) };
    let w2 = FileWriteView { offset: plan.zero_start as u64, data: Seq::new(plan.zero_len as nat, |i: int| 0u8) };
    assert(writes_view(ws@) == seq![w1, w2]);
    lemma_two_writes(file, w1, w2);
    assert(rewrite_setup(m, key, value, file, w1, w2));
    let f2 = apply_write(apply_write(file, w1), w2);
    let ptrs2 = m2.pointers@;
    let z = lemma_zero_run(m, key, value, file, w1, w2);
    lemma_apply_write(apply_write(file, w1), w2);
    assert(f2.len() == m2.size);
    let newf = new_run(key, plan.start, n);
    assert forall|y: int| 0 <= y < m2.frames_v().len() implies run_held(#[trigger] m2.frames_v()[y], f2, ptrs2) by {
        let rr = plan.frames[y];
        if keyless(rr) {
            lemma_rewrite_keyless(m, key, value, file, w1, w2, ptrs2, y);
        } else if Some(newf) == Some(rr) {
            lemma_rewrite_new(m, key, value, file, w1, w2, ptrs2);
        } else {
            let jj = choose|jj: int| 0 <= jj < fs.len() && #[trigger] fs[jj] == rr;
            lemma_rewrite_other(m, key, value, file, w1, w2, ptrs2, jj);
        }
    }
}

/// A run after deleting a key, with its run `c` cleared into `fs6` at `c6`, is held
/// after the zero write `w` of that run.
#[verifier::spinoff_prover]
proof fn lemma_delete_run(m: BucketMap, ptrs2: Map<Seq<char>, Pointer>, key: Seq<char>, file: Seq<u8>, fs6: Seq<DataFrameView>, c6: int, w: FileWriteView, y: int)
    requires
        holds(m, file),
        frames_tile(fs6, m.size as int),
        runs_follow(m.frames_v(), fs6, key, None),
        0 <= c6 < fs6.len(),
        blank(fs6[c6]),
        forall|x: int|
            0 <= x < fs6.len() && x != c6 && keyless(#[trigger] fs6[x]) ==> within_keyless(m.frames_v(), fs6[x]),
        w == (FileWriteView { offset: fs6[c6].start, data: Seq::new(fs6[c6].len as nat, |i: int| 0u8) }),
        forall|k: Seq<char>| k != key ==> ptrs2[k] == #[trigger] m.pointers@[k],
        0 <= y < fs6.len(),
    ensures
        run_held(fs6[y], apply_write(file, w), ptrs2),
{
    let fs = m.frames_v();
    let ptrs = m.pointers@;
    let rr = fs6[y];
    assert(has_run(fs6, fs6[c6]));
    lemma_run_span(fs6, m.size as int, fs6[c6]);
    assert(has_run(fs6, rr));
    lemma_run_span(fs6, m.size as int, rr);
    assert(w.data =~= zeros(w.data.len()));
    if y == c6 {
        lemma_bytes_written(file, w, rr);
        assert(w.data =~= zeros(rr.len as nat));
    } else if keyless(rr) {
        let j = choose|j: int|
            0 <= j < fs.len() && keyless(#[trigger] fs[j]) && fs[j].frame_type == rr.frame_type
                && fs[j].start <= rr.start && rr.end <= fs[j].end;
        assert(run_held(fs[j], file, ptrs));
        lemma_tile_order(fs, m.size as int);
        assert(fs[j].len == fs[j].end - fs[j].start + 1);
        lemma_zeros_within(file, fs[j], rr);
        lemma_zeros_kept(file, w, rr, (rr.end + 1 - rr.start) as nat);
    } else {
        let jj = choose|jj: int| 0 <= jj < fs.len() && #[trigger] fs[jj] == rr;
        assert(run_held(fs[jj], file, ptrs));
        lemma_runs_apart(fs6, m.size as int, fs6[c6], rr);
        lemma_bytes_missed(file, w, rr);
        let v = choose|v: Value| frame_held(rr, file, ptrs, v);
        assert(ptrs2[rr.key] == ptrs[rr.key]);
        assert(frame_held(rr, apply_write(file, w), ptrs2, v));
    }
}

/// Deleting a key keeps the file holding the map: the file after the zero write, or
/// the same file when no run had the key.
#[verifier::spinoff_prover]
#[verifier::rlimit(40)]
pub proof fn lemma_delete_holds(m: BucketMap, m2: BucketMap, key: Seq<char>, r: Result<Vec<FileWrite>, Error>, file: Seq<u8>)
    requires
        holds(m, file),
        deleted(m, m2, key, r),
    ensures
        holds(
            m2,
            match r {
                Ok(ws) => apply_writes(file, writes_view(ws@)),
                Err(_) => file,
            },
        ),
{
    lemma_delete_keeps_wf(m, m2, key, r);
    let fs = m.frames_v();
    let ptrs = m.pointers@;
    let ptrs2 = m2.pointers@;
    lemma_delete_follow(fs, key, m.size as int);
    crate::map::lemma_first_from(fs, has_key(key), 0);
    match first_index(fs, has_key(key)) {
        None => {
            assert(!ptrs.contains_key(key)) by {
                if ptrs.contains_key(key) {
                    let j = choose|j: int|
                        0 <= j < fs.len() && fs[j].frame_type == DataFrameType::Frame && fs[j].key == key
                            && pointer_in_frame(ptrs[key], fs[j]);
                    assert(has_key(key)(fs[j]));
                }
            }
            assert(ptrs2 =~= ptrs);
        },
        Some(c) => {
            let fs1 = fs.update(c, DataFrameView { frame_type: DataFrameType::Clear, ..fs[c] });
            let (fs6, c6) = spec_merge_clear(fs1, c);
            let ws = r->Ok_0;
            let w = FileWriteView { offset: fs6[c6].start, data: Seq::new(fs6[c6].len as nat, |i: int| 0u8) };
            assert(writes_view(ws@) == seq![w]);
            lemma_one_write(file, w);
            assert(has_run(fs6, fs6[c6]));
            lemma_run_span(fs6, m.size as int, fs6[c6]);
            lemma_apply_write(file, w);
            assert forall|y: int| 0 <= y < fs6.len() implies run_held(#[trigger] fs6[y], apply_write(file, w), ptrs2) by {
                lemma_delete_run(m, ptrs2, key, file, fs6, c6, w, y);
            }
        },
    }
}

/// Adding a key keeps the file holding the map: after `add`, the file brought up to
/// date by the writes it returned holds the map. (A new key must not be empty.)
pub proof fn lemma_add_holds(m: BucketMap, m2: BucketMap, key: Seq<char>, value: Value, store: bool, r: Result<Vec<FileWrite>, Error>, file: Seq<u8>)
    requires
        holds(m, file),
        m.size + keyval_bytes(key, value).len() <= usize::MAX,
        !m.pointers@.contains_key(key) ==> key.len() > 0,
        !m.pointers@.contains_key(key) ==> added_new(m, m2, key, value, store, r),
        m.pointers@.contains_key(key) ==> updated(m, m2, key, value, r),
    ensures
        r matches Ok(ws) && holds(m2, apply_writes(file, writes_view(ws@))),
{
    if m.pointers@.contains_key(key) {
        lemma_update_holds(m, m2, key, value, r, file);
    } else {
        lemma_add_new_holds(m, m2, key, value, store, r, file);
    }
}

/// The map read from an empty file is held by the empty file.
pub proof fn lemma_empty_holds(m: BucketMap)
    requires
        m.pointers@ == spec_parse_map(Seq::<u8>::empty()).pointers,
        m.frames_v() == spec_parse_map(Seq::<u8>::empty()).frames,
        m.size == 0,
    ensures
        holds(m, Seq::<u8>::empty()),
{
    lemma_reopen(Seq::<(nat, Seq<char>, Value)>::empty(), 0);
    assert(map_file(Seq::<(nat, Seq<char>, Value)>::empty(), 0) =~= Seq::<u8>::empty());
    assert(m.pointers@ =~= Map::<Seq<char>, Pointer>::empty());
    assert(m.frames_v() =~= Seq::<DataFrameView>::empty());
}

/// No two units have the same key.
pub open spec fn unit_keys_distinct(us: Seq<(nat, Seq<char>, Value)>) -> bool {
    forall|i: int, j: int| 0 <= i < j < us.len() ==> #[trigger] us[i].1 != #[trigger] us[j].1
}

/// What reading units records is consistent and held by their bytes.
pub open spec fn units_held(us: Seq<(nat, Seq<char>, Value)>) -> bool {
    let st = units_scanned(us);
    let f = units_file(us);
    &&& frames_tile(st.frames, f.len() as int)
    &&& frame_keys_ok(st.frames)
    &&& pointers_ok(st.pointers, st.frames)
    &&& forall|i: int| 0 <= i < st.frames.len() ==> run_held(#[trigger] st.frames[i], f, st.pointers)
    &&& forall|k: Seq<char>| #[trigger] st.pointers.contains_key(k) <==> exists|i: int| 0 <= i < us.len() && us[i].1 == k
}

/// A run held in a file stays held in a longer file that begins with it, and with
/// more pointers for other keys.
proof fn lemma_held_extend(r: DataFrameView, f: Seq<u8>, f2: Seq<u8>, ptrs: Map<Seq<char>, Pointer>, ptrs2: Map<Seq<char>, Pointer>)
    requires
        run_held(r, f, ptrs),
        r.start <= r.end < f.len(),
        f.len() <= f2.len(),
        f2.subrange(0, f.len() as int) == f,
        r.frame_type == DataFrameType::Frame ==> ptrs2[r.key] == ptrs[r.key],
    ensures
        run_held(r, f2, ptrs2),
{
    assert(run_bytes(f2, r) =~= run_bytes(f, r)) by {
        assert forall|i: int| 0 <= i < r.end + 1 - r.start implies run_bytes(f2, r)[i] == run_bytes(f, r)[i] by {
            assert(f2.subrange(0, f.len() as int)[r.start + i] == f[r.start + i]);
        }
    }
    if r.frame_type == DataFrameType::Frame {
        let v = choose|v: Value| frame_held(r, f, ptrs, v);
        assert(frame_held(r, f2, ptrs2, v));
    }
}

/// One more unit keeps what is read consistent and held.
#[verifier::spinoff_prover]
#[verifier::rlimit(60)]
proof fn lemma_units_held_step(us: Seq<(nat, Seq<char>, Value)>)
    requires
        us.len() > 0,
        unit_keys_ok(us),
        unit_keys_distinct(us),
        units_file(us).len() <= u64::MAX,
        units_held(us.drop_last()),
    ensures
        units_held(us),
{
    let pre = us.drop_last();
    let u = us.last();
    let n = us.len() - 1;
    assert(u == us[n]);
    lemma_units_split(us);
    lemma_frame_long(u.1, u.2);
    let st = units_scanned(pre);
    let f = units_file(pre);
    let fl = f.len() as int;
    lemma_units_scanned(pre);
    let st1 = flush(st, u.0);
    let a = u.0 as int;
    let fb = keyval_bytes(u.1, u.2);
    let fr = DataFrameView {
        key: u.1,
        frame_type: DataFrameType::Frame,
        start: (fl + a) as u64,
        end: (fl + a + fb.len() - 1) as u64,
        len: fb.len() as u64,
    };
    let st2 = units_scanned(us);
    let f2 = units_file(us);
    assert(st2 == scanned_frame(st1, u.1, value_tag(u.2), value_payload(u.2)));
    assert(f2 == f + zeros(u.0) + fb);
    let er = DataFrameView { key: Seq::empty(), frame_type: DataFrameType::Empty, start: fl as u64, end: (fl + a - 1) as u64, len: a as u64 };
    let fs1 = if a > 0 { st.frames.push(er) } else { st.frames };
    assert(st1.frames == fs1);
    assert(st2.frames == fs1.push(fr));
    assert(frames_tile(fs1, fl + a)) by {
        if a > 0 {
            lemma_tile_push(st.frames, fl, er);
        }
    }
    lemma_tile_push(fs1, fl + a, fr);
    assert(!st.pointers.contains_key(u.1)) by {
        if st.pointers.contains_key(u.1) {
            let i = choose|i: int| 0 <= i < pre.len() && pre[i].1 == u.1;
            assert(pre[i] == us[i]);
        }
    }
    lemma_new_pointer_in_frame(u.1, u.2, fl + a);
    let p = new_pointer(u.1, u.2, fl + a);
    assert(st2.pointers == st.pointers.insert(u.1, p));
    let fs2 = st2.frames;
    assert forall|i: int| 0 <= i < fs2.len() implies #[trigger] fs2[i].frame_type != DataFrameType::Clear
        && (fs2[i].frame_type == DataFrameType::Frame <==> fs2[i].key.len() > 0) by {
        if i < st.frames.len() {
            assert(fs2[i] == st.frames[i]);
        }
    }
    assert forall|i: int, j: int|
        0 <= i < fs2.len() && 0 <= j < fs2.len() && i != j && fs2[i].frame_type
            == DataFrameType::Frame implies #[trigger] fs2[i].key != #[trigger] fs2[j].key by {
        if i < st.frames.len() && j < st.frames.len() {
            assert(fs2[i] == st.frames[i] && fs2[j] == st.frames[j]);
        } else if i < st.frames.len() {
            assert(fs2[i] == st.frames[i]);
            assert(st.pointers.contains_key(fs2[i].key));
        } else if j < st.frames.len() {
            assert(fs2[j] == st.frames[j]);
            if fs2[j].frame_type == DataFrameType::Frame {
                assert(st.pointers.contains_key(fs2[j].key));
            }
        }
    }
    assert forall|k: Seq<char>| #[trigger] st2.pointers.contains_key(k) implies exists|i: int|
        0 <= i < fs2.len() && fs2[i].frame_type == DataFrameType::Frame && fs2[i].key == k
            && pointer_in_frame(st2.pointers[k], fs2[i]) by {
        if k == u.1 {
            assert(fs2[fs2.len() - 1] == fr);
        } else {
            let i = choose|i: int|
                0 <= i < st.frames.len() && st.frames[i].frame_type == DataFrameType::Frame && st.frames[i].key == k
                    && pointer_in_frame(st.pointers[k], st.frames[i]);
            assert(fs2[i] == st.frames[i]);
        }
    }
    assert forall|i: int|
        0 <= i < fs2.len() && fs2[i].frame_type == DataFrameType::Frame implies st2.pointers.contains_key(
        #[trigger] fs2[i].key,
    ) by {
        if i < st.frames.len() {
            assert(fs2[i] == st.frames[i]);
        }
    }
    assert(f2.subrange(0, fl) =~= f);
    lemma_tile_order(st.frames, fl);
    assert forall|i: int| 0 <= i < fs2.len() implies run_held(#[trigger] fs2[i], f2, st2.pointers) by {
        if i < st.frames.len() {
            assert(fs2[i] == st.frames[i]);
            assert(run_held(st.frames[i], f, st.pointers));
            if st.frames[i].frame_type == DataFrameType::Frame {
                assert(st.pointers.contains_key(st.frames[i].key));
            }
            lemma_held_extend(st.frames[i], f, f2, st.pointers, st2.pointers);
        } else if fs2[i] == fr {
            assert(run_bytes(f2, fr) =~= fb);
            assert(frame_held(fr, f2, st2.pointers, u.2));
        } else {
            assert(a > 0 && fs2[i] == er);
            assert(run_bytes(f2, er) =~= zeros(a as nat));
        }
    }
    assert forall|k: Seq<char>| #[trigger] st2.pointers.contains_key(k) <==> exists|i: int| 0 <= i < us.len() && us[i].1 == k by {
        if st.pointers.contains_key(k) {
            let i = choose|i: int| 0 <= i < pre.len() && pre[i].1 == k;
            assert(pre[i] == us[i]);
        }
        if exists|i: int| 0 <= i < us.len() && us[i].1 == k {
            let i = choose|i: int| 0 <= i < us.len() && us[i].1 == k;
            if i < n {
                assert(pre[i] == us[i]);
            }
        }
    }
}

/// Units with distinct keys, read from their bytes, give a consistent map held by them.
proof fn lemma_units_held(us: Seq<(nat, Seq<char>, Value)>)
    requires
        unit_keys_ok(us),
        unit_keys_distinct(us),
        units_file(us).len() <= u64::MAX,
    ensures
        units_held(us),
    decreases us.len(),
{
    if us.len() == 0 {
        assert(units_scanned(us) == scan_initial());
        assert(units_file(us) =~= Seq::<u8>::empty());
    } else {
        let pre = us.drop_last();
        lemma_units_split(us);
        assert forall|i: int, j: int| 0 <= i < j < pre.len() implies #[trigger] pre[i].1 != #[trigger] pre[j].1 by {
            assert(pre[i] == us[i] && pre[j] == us[j]);
        }
        lemma_units_held(pre);
        lemma_units_held_step(us);
    }
}

/// Scanning units records no two neighbouring empty runs: each unit adds at most one
/// empty run, then its frame.
proof fn lemma_units_no_adjacent(us: Seq<(nat, Seq<char>, Value)>, t: nat)
    ensures
        no_adjacent_empty(flush(units_scanned(us), t).frames),
        units_scanned(us).frames.len() > 0 ==> units_scanned(us).frames.last().frame_type
            == DataFrameType::Frame,
    decreases us.len(),
{
    let st = units_scanned(us);
    if us.len() > 0 {
        let pre = us.drop_last();
        let u = us.last();
        lemma_units_no_adjacent(pre, u.0);
        let g = flush(units_scanned(pre), u.0).frames;
        assert(st.frames == g.push(st.frames.last()));
        assert forall|a: int, b: int|
            #![trigger st.frames[a], st.frames[b]]
            0 <= a && b == a + 1 && b < st.frames.len() implies !(st.frames[a].frame_type
            == DataFrameType::Empty && st.frames[b].frame_type == DataFrameType::Empty) by {
            if b < g.len() {
                assert(st.frames[a] == g[a] && st.frames[b] == g[b]);
            }
        }
    }
    let fr = flush(st, t).frames;
    assert forall|a: int, b: int|
        #![trigger fr[a], fr[b]]
        0 <= a && b == a + 1 && b < fr.len() implies !(fr[a].frame_type == DataFrameType::Empty
        && fr[b].frame_type == DataFrameType::Empty) by {
        if b < st.frames.len() {
            assert(fr[a] == st.frames[a] && fr[b] == st.frames[b]);
        } else {
            assert(fr[a] == st.frames[a]);
        }
    }
}

/// Reading a file made of frames with distinct non-empty keys, each after some zeros,
/// and of zeros after the last, gives a map that this file holds, in which no two
/// neighbouring runs are empty.
#[verifier::spinoff_prover]
pub proof fn lemma_load_holds(m: BucketMap, us: Seq<(nat, Seq<char>, Value)>, t: nat)
    requires
        unit_keys_ok(us),
        unit_keys_distinct(us),
        map_file(us, t).len() <= u64::MAX,
        m.pointers@ == spec_parse_map(map_file(us, t)).pointers,
        m.frames_v() == spec_parse_map(map_file(us, t)).frames,
        m.size == map_file(us, t).len(),
    ensures
        holds(m, map_file(us, t)),
        no_adjacent_empty(m.frames_v()),
{
    lemma_reopen(us, t);
    lemma_units_no_adjacent(us, t);
    let f = units_file(us);
    let file = map_file(us, t);
    let fl = f.len() as int;
    assert(file.len() == fl + t);
    lemma_reopen(us, t);
    lemma_units_held(us);
    lemma_units_scanned(us);
    let st = units_scanned(us);
    assert(file.subrange(0, fl) =~= f);
    lemma_tile_order(st.frames, fl);
    assert(m.pointers@ == st.pointers);
    if t == 0 {
        assert(file =~= f);
        assert(m.frames_v() == st.frames);
    } else {
        let er = DataFrameView { key: Seq::empty(), frame_type: DataFrameType::Empty, start: fl as u64, end: (fl + t - 1) as u64, len: t as u64 };
        assert(m.frames_v() == st.frames.push(er));
        lemma_tile_push(st.frames, fl, er);
        let fs = m.frames_v();
        assert forall|i: int| 0 <= i < fs.len() implies #[trigger] fs[i].frame_type != DataFrameType::Clear
            && (fs[i].frame_type == DataFrameType::Frame <==> fs[i].key.len() > 0) by {
            if i < st.frames.len() {
                assert(fs[i] == st.frames[i]);
            }
        }
        assert forall|i: int, j: int|
            0 <= i < fs.len() && 0 <= j < fs.len() && i != j && fs[i].frame_type
                == DataFrameType::Frame implies #[trigger] fs[i].key != #[trigger] fs[j].key by {
            if i < st.frames.len() && j < st.frames.len() {
                assert(fs[i] == st.frames[i] && fs[j] == st.frames[j]);
            } else if i < st.frames.len() {
                assert(fs[i] == st.frames[i]);
            }
        }
        assert forall|k: Seq<char>| #[trigger] m.pointers@.contains_key(k) implies exists|i: int|
            0 <= i < fs.len() && fs[i].frame_type == DataFrameType::Frame && fs[i].key == k
                && pointer_in_frame(m.pointers@[k], fs[i]) by {
            let i = choose|i: int|
                0 <= i < st.frames.len() && st.frames[i].frame_type == DataFrameType::Frame && st.frames[i].key == k
                    && pointer_in_frame(st.pointers[k], st.frames[i]);
            assert(fs[i] == st.frames[i]);
        }
        assert forall|i: int|
            0 <= i < fs.len() && fs[i].frame_type == DataFrameType::Frame implies m.pointers@.contains_key(
            #[trigger] fs[i].key,
        ) by {
            assert(fs[i] == st.frames[i]);
        }
        assert forall|i: int| 0 <= i < fs.len() implies run_held(#[trigger] fs[i], file, m.pointers@) by {
            if i < st.frames.len() {
                assert(fs[i] == st.frames[i]);
                assert(run_held(st.frames[i], f, st.pointers));
                lemma_held_extend(st.frames[i], f, file, st.pointers, st.pointers);
            } else {
                assert(fs[i] == er);
                assert(run_bytes(file, er) =~= zeros(t));
            }
        }
    }
}

} // verus!
