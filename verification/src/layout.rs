use vstd::prelude::*;
use crate::map::{
    frames_tile, first_index, empty_fits, place_index, spec_place, lemma_place, lemma_first_from,
    lemma_first_some, lemma_tile_retype, lemma_merge, has_key, merge_lo, merge_hi,
    spec_merge_clear, pointer_in_frame, BucketMap, FileWrite, writes_view, updated, added_new,
    deleted,
};
use crate::laws::{lemma_cleared_index, lemma_marked_place, place_of};
use crate::reload::lemma_frame_long;
use crate::scan::{DataFrameType, DataFrameView};
use crate::frame::{Value, keyval_bytes};
use crate::error::Error;

verus! {

/// The run `f` is empty and at least `n` bytes long.
pub open spec fn roomy(f: DataFrameView, n: int) -> bool {
    f.frame_type == DataFrameType::Empty && f.len >= n
}

/// The run at `e` of `fs` is the first empty run of at least `n` bytes.
pub open spec fn first_roomy(fs: Seq<DataFrameView>, n: int, e: int) -> bool {
    &&& 0 <= e < fs.len()
    &&& roomy(fs[e], n)
    &&& forall|l: int| 0 <= l < e ==> !roomy(#[trigger] fs[l], n)
}

/// Rewriting the value of a key that the map holds writes the new frame at the start
/// of the first empty run that is at least as long as the frame, and the file keeps its
/// length; only when no empty run is that long is the frame written at the end of the
/// file, which grows by the frame's length.
pub proof fn lemma_rewrite_first_fit(
    m: BucketMap,
    m2: BucketMap,
    key: Seq<char>,
    value: Value,
    r: Result<Vec<FileWrite>, Error>,
)
    requires
        m.wf(),
        m.pointers@.contains_key(key),
        updated(m, m2, key, value, r),
    ensures
        r is Ok,
        ({
            let fs = m.frames_v();
            let n = keyval_bytes(key, value).len() as int;
            let offset = writes_view(r->Ok_0@)[0].offset;
            &&& forall|e: int| #[trigger] first_roomy(fs, n, e) ==> offset == fs[e].start && m2.size == m.size
            &&& (forall|e: int| 0 <= e < fs.len() ==> !roomy(#[trigger] fs[e], n)) ==> offset == m.size
                && m2.size == m.size + n
        }),
{
    let fs = m.frames_v();
    let n = keyval_bytes(key, value).len() as int;
    let j = choose|j: int|
        0 <= j < fs.len() && fs[j].frame_type == DataFrameType::Frame && fs[j].key == key
            && pointer_in_frame(m.pointers@[key], fs[j]);
    lemma_first_some(fs, has_key(key), j);
    let i = first_index(fs, has_key(key)).unwrap();
    assert(fs[i].frame_type == DataFrameType::Frame) by {
        assert(fs[j].key.len() > 0);
    }
    let fs1 = fs.update(i, DataFrameView { frame_type: DataFrameType::Clear, ..fs[i] });
    assert forall|l: int| 0 <= l < fs.len() implies #[trigger] empty_fits(n)(fs1[l]) == roomy(fs[l], n) by {
    }
    lemma_first_from(fs1, empty_fits(n), 0);
    assert forall|e: int| #[trigger] first_roomy(fs, n, e) implies writes_view(r->Ok_0@)[0].offset
        == fs[e].start && m2.size == m.size by {
        assert(empty_fits(n)(fs1[e]));
        match first_index(fs1, empty_fits(n)) {
            Some(e2) => {
                if e2 < e {
                    assert(empty_fits(n)(fs1[e2]));
                    assert(!roomy(fs[e2], n));
                } else if e < e2 {
                    assert(!empty_fits(n)(fs1[e]));
                }
                assert(e2 == e);
            },
            None => {
                assert(!empty_fits(n)(fs1[e]));
            },
        }
    }
    if forall|e: int| 0 <= e < fs.len() ==> !roomy(#[trigger] fs[e], n) {
        match first_index(fs1, empty_fits(n)) {
            Some(e2) => {
                assert(empty_fits(n)(fs1[e2]));
                assert(!roomy(fs[e2], n));
            },
            None => {},
        }
    }
}

/// No two runs next to each other are both empty.
pub open spec fn no_adjacent_empty(fs: Seq<DataFrameView>) -> bool {
    forall|a: int, b: int|
        #![trigger fs[a], fs[b]]
        0 <= a && b == a + 1 && b < fs.len() ==> !(fs[a].frame_type == DataFrameType::Empty
            && fs[b].frame_type == DataFrameType::Empty)
}

/// Clearing a run absorbs every empty run right next to it: when no two neighbouring
/// runs were empty before, none are after.
pub proof fn lemma_merge_no_adjacent(fs: Seq<DataFrameView>, c: int, size: int)
    requires
        frames_tile(fs, size),
        0 <= c < fs.len(),
        size <= u64::MAX,
        no_adjacent_empty(fs),
    ensures
        no_adjacent_empty(spec_merge_clear(fs, c).0),
{
    lemma_merge(fs, c, size);
    let fs6 = spec_merge_clear(fs, c).0;
    let lo = merge_lo(fs, c);
    let hi = merge_hi(fs, c);
    assert forall|a: int, b: int|
        #![trigger fs6[a], fs6[b]]
        0 <= a && b == a + 1 && b < fs6.len() implies !(fs6[a].frame_type == DataFrameType::Empty
        && fs6[b].frame_type == DataFrameType::Empty) by {
        if b < lo {
            assert(fs6[a] == fs[a] && fs6[b] == fs[b]);
        } else if b == lo {
            assert(fs6[a] == fs[a]);
            if lo == c - 1 {
                assert(fs[a].frame_type != DataFrameType::Empty || fs[b].frame_type
                    != DataFrameType::Empty);
            }
        } else if a == lo {
            assert(fs6[b] == fs[hi + 1]);
            if hi == c + 1 {
                assert(fs[c + 1].frame_type != DataFrameType::Empty || fs[c + 2].frame_type
                    != DataFrameType::Empty);
            }
        } else {
            assert(fs6[a] == fs[a + (hi - lo)]);
            assert(fs6[b] == fs[b + (hi - lo)]);
            assert(fs[a + (hi - lo)].frame_type != DataFrameType::Empty || fs[b + (hi
                - lo)].frame_type != DataFrameType::Empty);
        }
    }
}

/// Placing a frame in an empty run leaves the rest of that run empty, but never next
/// to another empty run: when no two neighbouring runs were empty before, none are
/// after.
pub proof fn lemma_place_no_adjacent(fs1: Seq<DataFrameView>, key: Seq<char>, n: int, size: int)
    requires
        frames_tile(fs1, size),
        0 < n,
        size + n <= u64::MAX,
        no_adjacent_empty(fs1),
    ensures
        no_adjacent_empty(spec_place(fs1, key, n, size).0),
{
    lemma_place(fs1, key, n, size);
    let (fs3, start, size2, found) = spec_place(fs1, key, n, size);
    if found {
        let e = first_index(fs1, empty_fits(n)).unwrap();
        let ins = fs1[e].len > n;
        assert forall|a: int, b: int|
            #![trigger fs3[a], fs3[b]]
            0 <= a && b == a + 1 && b < fs3.len() implies !(fs3[a].frame_type
            == DataFrameType::Empty && fs3[b].frame_type == DataFrameType::Empty) by {
            if a == e || b == e {
            } else if b < e {
                assert(fs3[place_index(a, e, ins)] == fs1[a]);
                assert(fs3[place_index(b, e, ins)] == fs1[b]);
            } else if ins && a == e + 1 {
                assert(fs3[place_index(e + 1, e, ins)] == fs1[e + 1]);
                assert(fs1[e].frame_type != DataFrameType::Empty || fs1[e + 1].frame_type
                    != DataFrameType::Empty);
            } else if ins {
                assert(fs3[place_index(a - 1, e, ins)] == fs1[a - 1]);
                assert(fs3[place_index(b - 1, e, ins)] == fs1[b - 1]);
                assert(fs1[a - 1].frame_type != DataFrameType::Empty || fs1[b - 1].frame_type
                    != DataFrameType::Empty);
            } else {
                assert(fs3[place_index(a, e, ins)] == fs1[a]);
                assert(fs3[place_index(b, e, ins)] == fs1[b]);
            }
        }
    } else {
        assert forall|a: int, b: int|
            #![trigger fs3[a], fs3[b]]
            0 <= a && b == a + 1 && b < fs3.len() implies !(fs3[a].frame_type
            == DataFrameType::Empty && fs3[b].frame_type == DataFrameType::Empty) by {
            assert(fs3[a] == fs1[a]);
            if b < fs1.len() {
                assert(fs3[b] == fs1[b]);
            }
        }
    }
}

/// Retyping one run as being cleared keeps any two neighbouring runs from both being
/// empty.
proof fn lemma_mark_no_adjacent(fs: Seq<DataFrameView>, i: int)
    requires
        0 <= i < fs.len(),
        no_adjacent_empty(fs),
    ensures
        no_adjacent_empty(fs.update(i, DataFrameView { frame_type: DataFrameType::Clear, ..fs[i] })),
{
    let fs1 = fs.update(i, DataFrameView { frame_type: DataFrameType::Clear, ..fs[i] });
    assert forall|a: int, b: int|
        #![trigger fs1[a], fs1[b]]
        0 <= a && b == a + 1 && b < fs1.len() implies !(fs1[a].frame_type == DataFrameType::Empty
        && fs1[b].frame_type == DataFrameType::Empty) by {
        if a != i && b != i {
            assert(fs1[a] == fs[a] && fs1[b] == fs[b]);
        }
    }
}

/// `delete` leaves no two neighbouring runs empty when there were none: the cleared run
/// covers every empty run right before and right after it.
pub proof fn lemma_delete_no_adjacent_empty(m: BucketMap, m2: BucketMap, key: Seq<char>, r: Result<Vec<FileWrite>, Error>)
    requires
        m.wf(),
        deleted(m, m2, key, r),
        no_adjacent_empty(m.frames_v()),
    ensures
        no_adjacent_empty(m2.frames_v()),
{
    let fs = m.frames_v();
    lemma_first_from(fs, has_key(key), 0);
    match first_index(fs, has_key(key)) {
        None => {},
        Some(c) => {
            let fs1 = fs.update(c, DataFrameView { frame_type: DataFrameType::Clear, ..fs[c] });
            lemma_tile_retype(fs, c, DataFrameType::Clear, fs[c].key, m.size as int);
            assert(fs1 == fs.update(c, DataFrameView { frame_type: DataFrameType::Clear, key: fs[c].key, ..fs[c] }));
            lemma_mark_no_adjacent(fs, c);
            lemma_merge_no_adjacent(fs1, c, m.size as int);
        },
    }
}

/// `add` leaves no two neighbouring runs empty when there were none: a new key's frame
/// goes at the end; a rewritten key's frame leaves the rest of the run it took
/// between itself and a run that is not empty, and the old frame, once cleared, covers
/// every empty run right before and right after it.
pub proof fn lemma_add_no_adjacent_empty(
    m: BucketMap,
    m2: BucketMap,
    key: Seq<char>,
    value: Value,
    store: bool,
    r: Result<Vec<FileWrite>, Error>,
)
    requires
        m.wf(),
        m.size + keyval_bytes(key, value).len() <= usize::MAX,
        !m.pointers@.contains_key(key) ==> added_new(m, m2, key, value, store, r),
        m.pointers@.contains_key(key) ==> updated(m, m2, key, value, r),
        no_adjacent_empty(m.frames_v()),
    ensures
        no_adjacent_empty(m2.frames_v()),
{
    let fs = m.frames_v();
    let n = keyval_bytes(key, value).len() as int;
    let size = m.size as int;
    if !m.pointers@.contains_key(key) {
        let fs2 = m2.frames_v();
        assert forall|a: int, b: int|
            #![trigger fs2[a], fs2[b]]
            0 <= a && b == a + 1 && b < fs2.len() implies !(fs2[a].frame_type
            == DataFrameType::Empty && fs2[b].frame_type == DataFrameType::Empty) by {
            assert(fs2[a] == fs[a]);
            if b < fs.len() {
                assert(fs2[b] == fs[b]);
            }
        }
    } else {
        let j = choose|j: int|
            0 <= j < fs.len() && fs[j].frame_type == DataFrameType::Frame && fs[j].key == key
                && pointer_in_frame(m.pointers@[key], fs[j]);
        lemma_first_some(fs, has_key(key), j);
        let i = first_index(fs, has_key(key)).unwrap();
        assert(fs[j].key.len() > 0);
        assert(fs[i].frame_type == DataFrameType::Frame);
        lemma_frame_long(key, value);
        let fs1 = fs.update(i, DataFrameView { frame_type: DataFrameType::Clear, ..fs[i] });
        lemma_cleared_index(fs, key, n, size, i);
        lemma_marked_place(fs, key, n, size, i);
        lemma_mark_no_adjacent(fs, i);
        lemma_place_no_adjacent(fs1, key, n, size);
        let (fs3, start, size2, found) = spec_place(fs1, key, n, size);
        let c = place_of(fs1, n, i);
        lemma_merge_no_adjacent(fs3, c, size2);
        assert(m2.frames_v() == spec_merge_clear(fs3, c).0);
    }
}

} // verus!
