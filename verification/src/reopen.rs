use vstd::prelude::*;
use vstd::utf8::encode_utf8;
use crate::frame::{frame_bytes, Value, keyval_bytes, value_tag, value_payload};
use crate::scan::{
    ScanState, FrameView, MapStructureStatus, DataFrameType, frame_cleared, scanned_frame,
    chunk_pass, spec_process_flag, find_flag_from, spec_find_flag, spec_handle_unmarked,
    unmarked_fold, unmarked_run, RunCounters, scan_initial, parse_from, spec_parse_map,
    spec_read_map_chunk, scan_add,
};
use crate::reload::{
    stage_state, stage_of, stage_mark, scan_setup, pass_result, agrees, lemma_pass,
    lemma_frame_layout, lemma_stage_zero, lemma_frame_long, lemma_stage_of_mark,
    lemma_flag_skip,
};

verus! {

/// `n` zero bytes.
pub open spec fn zeros(n: nat) -> Seq<u8> {
    Seq::new(n, |i: int| 0u8)
}

/// `st` after the `z` zero bytes at its file cursor are recorded as one empty run.
pub open spec fn flush(st: ScanState, z: nat) -> ScanState {
    if z == 0 {
        st
    } else {
        let fc = st.file_cursor as int;
        ScanState {
            frames: st.frames.push(unmarked_run(DataFrameType::Empty, fc, fc + z - 1, z as int)),
            file_cursor: (fc + z) as u64,
            array_cursor: 0,
            ..st
        }
    }
}

/// Bytes that are all zeros leave the scanner's state as it is and count one zero run.
proof fn lemma_fold_zeros(st: ScanState, pool: Seq<u8>, n: int)
    requires
        0 <= n <= pool.len(),
        n <= u64::MAX,
        forall|i: int| 0 <= i < n ==> #[trigger] pool[i] == 0,
    ensures
        unmarked_fold(st, pool, 0, n) == (st, RunCounters {
            zero_count: n as u64,
            data_count: 0,
            zero_start: 0,
            data_start: 0,
        }),
    decreases n,
{
    if n > 0 {
        lemma_fold_zeros(st, pool, n - 1);
    }
}

/// Zeros ahead of a flag are recorded as one empty run and leave the bytes held.
proof fn lemma_handle_zeros(pool: Seq<u8>, z: nat, st: ScanState)
    requires
        1 <= z <= pool.len(),
        st.file_cursor + pool.len() <= u64::MAX,
        forall|i: int| 0 <= i < z ==> #[trigger] pool[i] == 0,
    ensures
        spec_handle_unmarked(pool, 0, z - 1, st) == (pool.subrange(z as int, pool.len() as int), flush(st, z)),
{
    lemma_fold_zeros(st, pool, z as int);
}

/// Looking for a flag through zeros: the search reaches the first byte after them.
proof fn lemma_find_through_zeros(p: Seq<u8>, z: int, i: int)
    requires
        0 <= i <= z <= p.len(),
        forall|j: int| 0 <= j < z ==> #[trigger] p[j] == 0,
    ensures
        find_flag_from(p, 0, i, i > 0, false) == find_flag_from(p, 0, z, z > 0, false),
    decreases z - i,
{
    if i < z {
        lemma_find_through_zeros(p, z, i + 1);
    }
}

/// A pass over zeros alone finds no flag and changes nothing.
pub proof fn lemma_pass_zeros_only(z: nat, st: ScanState, idx: int)
    requires
        st.status == MapStructureStatus::Flag,
        st.array_cursor == 0,
    ensures
        chunk_pass(zeros(z), st, idx) == (false, zeros(z), st),
{
    let p = zeros(z);
    lemma_find_through_zeros(p, z as int, 0);
}

/// A pass whose flag search lands on `b` with `q` held goes on as a pass from `b`.
proof fn lemma_chunk_after_flag(p: Seq<u8>, a: ScanState, q: Seq<u8>, b: ScanState, idx: int)
    requires
        spec_process_flag(p, a) == (true, q, b),
        spec_process_flag(q, b) == (true, q, b),
    ensures
        chunk_pass(p, a, idx) == chunk_pass(q, b, idx),
{
}

/// Through zeros and three bytes of a frame, the flag search finds the frame's flag
/// and records the zeros as one empty run.
proof fn lemma_gap_flag_found(z: nat, q: Seq<u8>, st: ScanState, key: Seq<char>, tag: u8, payload: Seq<u8>)
    requires
        scan_setup(q, flush(st, z), key, tag, payload),
        st.status == MapStructureStatus::Flag,
        st.array_cursor == 0,
        st.file_cursor + z + q.len() <= u64::MAX,
        z >= 1,
        q.len() >= 3,
    ensures
        spec_process_flag(zeros(z) + q, st) == (true, q, stage_state(flush(st, z), key, tag, payload, 1)),
{
    lemma_frame_layout(key, tag, payload);
    let f = frame_bytes(encode_utf8(key), tag, payload);
    let p = zeros(z) + q;
    let zi = z as int;
    assert(forall|j: int| 0 <= j < z ==> #[trigger] p[j] == 0);
    lemma_find_through_zeros(p, zi, 0);
    assert(q[0] == f[0] && q[1] == f[1] && q[2] == f[2]);
    assert(p[zi] == 0 && p[zi + 1] == 1 && p[zi + 2] == 0);
    assert(find_flag_from(p, 0, zi + 2, true, true) == (true, (zi + 2) as u64));
    assert(find_flag_from(p, 0, zi + 1, true, false) == (true, (zi + 2) as u64));
    assert(find_flag_from(p, 0, zi, true, false) == (true, (zi + 2) as u64));
    let st1 = ScanState { frame: frame_cleared(), ..st };
    lemma_handle_zeros(p, z, st1);
    assert(p.subrange(zi, p.len() as int) =~= q);
    reveal(stage_state);
}

/// Through zeros and fewer than three bytes of a frame, no flag is found yet.
proof fn lemma_gap_flag_missing(z: nat, q: Seq<u8>, st: ScanState, key: Seq<char>, tag: u8, payload: Seq<u8>)
    requires
        scan_setup(q, flush(st, z), key, tag, payload),
        st.status == MapStructureStatus::Flag,
        st.array_cursor == 0,
        q.len() < 3,
    ensures
        spec_process_flag(zeros(z) + q, st) == (false, zeros(z) + q, st),
{
    lemma_frame_layout(key, tag, payload);
    let f = frame_bytes(encode_utf8(key), tag, payload);
    let p = zeros(z) + q;
    let zi = z as int;
    assert(forall|j: int| 0 <= j < z ==> #[trigger] p[j] == 0);
    lemma_find_through_zeros(p, zi, 0);
    if q.len() >= 1 {
        assert(q[0] == f[0]);
        assert(p[zi] == 0);
    }
    if q.len() >= 2 {
        assert(q[1] == f[1]);
        assert(p[zi + 1] == 1);
        assert(find_flag_from(p, 0, zi + 2, true, true) == (false, p.len() as u64));
        assert(find_flag_from(p, 0, zi + 1, true, false) == (false, p.len() as u64));
    }
    if q.len() == 1 {
        assert(find_flag_from(p, 0, zi + 1, true, false) == (false, p.len() as u64));
    }
    assert(find_flag_from(p, 0, zi, zi > 0, false) == (false, p.len() as u64));
}

/// A pass over zeros followed by the start of a frame: the frame's flag is found once
/// three of its bytes have arrived, the zeros are recorded as one empty run, and the
/// pass goes on in the frame; before that, nothing changes.
#[verifier::spinoff_prover]
#[verifier::rlimit(40)]
pub proof fn lemma_pass_gap(z: nat, q: Seq<u8>, st: ScanState, key: Seq<char>, tag: u8, payload: Seq<u8>, idx: int)
    requires
        scan_setup(q, flush(st, z), key, tag, payload),
        st.status == MapStructureStatus::Flag,
        st.array_cursor == 0,
        st.file_cursor + z + q.len() <= u64::MAX,
        0 <= idx,
    ensures
        chunk_pass(zeros(z) + q, st, idx) == (if q.len() < 3 {
            (false, zeros(z) + q, st)
        } else {
            pass_result(q, flush(st, z), key, tag, payload, idx)
        }),
{
    let p = zeros(z) + q;
    if q.len() < 3 {
        lemma_gap_flag_missing(z, q, st, key, tag, payload);
    } else if z == 0 {
        assert(p =~= q);
        lemma_stage_zero(st, key, tag, payload);
        lemma_pass(q, st, key, tag, payload, 0, idx);
    } else {
        let s1 = stage_state(flush(st, z), key, tag, payload, 1);
        lemma_gap_flag_found(z, q, st, key, tag, payload);
        lemma_flag_skip(q, flush(st, z), key, tag, payload, 1);
        lemma_chunk_after_flag(p, st, q, s1, idx);
        lemma_frame_layout(key, tag, payload);
        lemma_pass(q, flush(st, z), key, tag, payload, 1, idx);
    }
}

/// A stretch of a map file as the scanner meets it: some zero bytes, then the frame of
/// a key holding a value.
pub open spec fn unit_bytes(u: (nat, Seq<char>, Value)) -> Seq<u8> {
    zeros(u.0) + keyval_bytes(u.1, u.2)
}

/// The bytes of the units `us`, one after another.
pub open spec fn units_file(us: Seq<(nat, Seq<char>, Value)>) -> Seq<u8>
    decreases us.len(),
{
    if us.len() == 0 {
        Seq::empty()
    } else {
        units_file(us.drop_last()) + unit_bytes(us.last())
    }
}

/// What the scanner records reading the units `us`: for each, its zeros as one empty
/// run (when there are any), then its frame.
pub open spec fn units_scanned(us: Seq<(nat, Seq<char>, Value)>) -> ScanState
    decreases us.len(),
{
    if us.len() == 0 {
        scan_initial()
    } else {
        let u = us.last();
        scanned_frame(flush(units_scanned(us.drop_last()), u.0), u.1, value_tag(u.2), value_payload(u.2))
    }
}

/// Every key of the units is non-empty.
pub open spec fn unit_keys_ok(us: Seq<(nat, Seq<char>, Value)>) -> bool {
    forall|i: int| 0 <= i < us.len() ==> (#[trigger] us[i]).1.len() > 0
}

/// The bytes held and the state after `x` bytes of the unit `u`, read from `st`: until
/// three bytes of its frame have arrived nothing is recorded; then its zeros are, and
/// the scanner is at the stage of the frame that the bytes allow.
pub open spec fn unit_partial(st: ScanState, u: (nat, Seq<char>, Value), x: int) -> (Seq<u8>, ScanState) {
    let a = u.0 as int;
    let b = unit_bytes(u);
    if x - a < 3 {
        (b.subrange(0, x), st)
    } else {
        (
            b.subrange(a, x),
            stage_state(
                flush(st, u.0),
                u.1,
                value_tag(u.2),
                value_payload(u.2),
                stage_of(encode_utf8(u.1).len() as int, value_payload(u.2).len() as int, x - a),
            ),
        )
    }
}

/// What one pass does over bytes `q` that begin with the unit `u`, read from `st`.
pub open spec fn unit_pass_result(q: Seq<u8>, st: ScanState, u: (nat, Seq<char>, Value), idx: int) -> (bool, Seq<u8>, ScanState) {
    let b = unit_bytes(u);
    if q.len() < b.len() {
        (false, unit_partial(st, u, q.len() as int).0, unit_partial(st, u, q.len() as int).1)
    } else {
        let r = q.subrange(b.len() as int, q.len() as int);
        let s2 = scanned_frame(flush(st, u.0), u.1, value_tag(u.2), value_payload(u.2));
        if r.len() == 0 {
            (true, r, s2)
        } else if idx >= 3 {
            (false, r, s2)
        } else {
            chunk_pass(r, s2, idx + 1)
        }
    }
}

/// One pass resumed after `x` bytes of the unit `u` over bytes `q` that begin with the
/// unit: the bytes held then, followed by those that arrived since.
#[verifier::spinoff_prover]
#[verifier::rlimit(40)]
pub proof fn lemma_pass_unit(q: Seq<u8>, st: ScanState, u: (nat, Seq<char>, Value), x: int, idx: int)
    requires
        u.1.len() > 0,
        agrees(q, unit_bytes(u)),
        0 <= x <= q.len(),
        x < unit_bytes(u).len(),
        st.status == MapStructureStatus::Flag,
        st.array_cursor == 0,
        st.file_cursor + q.len() <= u64::MAX,
        st.file_cursor + unit_bytes(u).len() <= u64::MAX,
        0 <= idx,
    ensures
        chunk_pass(
            (if x - u.0 < 3 {
                q
            } else {
                q.subrange(u.0 as int, q.len() as int)
            }),
            unit_partial(st, u, x).1,
            idx,
        ) == unit_pass_result(q, st, u, idx),
{
    let a = u.0;
    let ai = a as int;
    let (k, v) = (u.1, u.2);
    let tag = value_tag(v);
    let pay = value_payload(v);
    let f = keyval_bytes(k, v);
    let b = unit_bytes(u);
    lemma_frame_long(k, v);
    lemma_frame_layout(k, tag, pay);
    let kl = encode_utf8(k).len() as int;
    let pl = pay.len() as int;
    if q.len() < ai {
        assert(forall|j: int| 0 <= j < q.len() ==> #[trigger] q[j] == b[j]);
        assert(q =~= zeros(q.len() as nat));
        lemma_pass_zeros_only(q.len() as nat, st, idx);
        assert(b.subrange(0, q.len() as int) =~= q);
        return;
    }
    let qa = q.subrange(ai, q.len() as int);
    assert(q =~= zeros(a) + qa) by {
        assert forall|j: int| 0 <= j < ai implies q[j] == 0 by {
            assert(q[j] == b[j]);
        }
    }
    assert(agrees(qa, f)) by {
        assert forall|i: int| 0 <= i < qa.len() && i < f.len() implies #[trigger] qa[i] == f[i] by {
            assert(qa[i] == q[ai + i]);
            assert(q[ai + i] == b[ai + i]);
        }
    }
    assert(scan_setup(qa, flush(st, a), k, tag, pay));
    if x - ai < 3 {
        lemma_pass_gap(a, qa, st, k, tag, pay, idx);
    } else {
        let t = stage_of(kl, pl, x - ai);
        lemma_stage_of_mark(kl, pl, x - ai);
        lemma_pass(qa, flush(st, a), k, tag, pay, t, idx);
    }
    if q.len() < b.len() {
        assert(b.subrange(0, q.len() as int) =~= q);
        assert(b.subrange(ai, q.len() as int) =~= qa) by {
            assert forall|i: int| 0 <= i < qa.len() implies b.subrange(ai, q.len() as int)[i] == qa[i] by {
                assert(q[ai + i] == b[ai + i]);
            }
        }
    } else {
        assert(qa.subrange(f.len() as int, qa.len() as int) =~= q.subrange(b.len() as int, q.len() as int));
    }
}

/// The file of the units `us` followed by `t` zero bytes.
pub open spec fn map_file(us: Seq<(nat, Seq<char>, Value)>, t: nat) -> Seq<u8> {
    units_file(us) + zeros(t)
}

/// The bytes held and the scanner's state once the first `l` bytes of the file of
/// `us` (and of the zeros after it) have been read.
pub open spec fn ucanon(us: Seq<(nat, Seq<char>, Value)>, l: int) -> (Seq<u8>, ScanState)
    decreases us.len(),
{
    if us.len() == 0 {
        if l <= 0 {
            (Seq::empty(), scan_initial())
        } else {
            (zeros(l as nat), scan_initial())
        }
    } else {
        let pre = us.drop_last();
        let o = units_file(pre).len() as int;
        let b = unit_bytes(us.last());
        if l < o {
            ucanon(pre, l)
        } else if l >= o + b.len() {
            (zeros((l - o - b.len()) as nat), units_scanned(us))
        } else {
            unit_partial(units_scanned(pre), us.last(), l - o)
        }
    }
}

/// The last unit's bytes close the file of the units.
pub proof fn lemma_units_split(us: Seq<(nat, Seq<char>, Value)>)
    requires
        us.len() > 0,
    ensures
        units_file(us) == units_file(us.drop_last()) + unit_bytes(us.last()),
        unit_keys_ok(us) ==> unit_keys_ok(us.drop_last()) && us.last().1.len() > 0,
{
    if unit_keys_ok(us) {
        assert(us.last() == us[us.len() - 1]);
        assert forall|i: int| 0 <= i < us.drop_last().len() implies (#[trigger] us.drop_last()[i]).1.len() > 0 by {
            assert(us.drop_last()[i] == us[i]);
        }
    }
}

/// A unit is longer than ten bytes.
pub proof fn lemma_unit_long(u: (nat, Seq<char>, Value))
    requires
        u.1.len() > 0,
    ensures
        unit_bytes(u).len() == u.0 + keyval_bytes(u.1, u.2).len(),
        unit_bytes(u).len() > 10,
{
    lemma_frame_long(u.1, u.2);
}

/// After whole units the scanner awaits a flag at their end, and nothing is corrupt.
pub proof fn lemma_units_scanned(us: Seq<(nat, Seq<char>, Value)>)
    requires
        units_file(us).len() <= u64::MAX,
    ensures
        units_scanned(us).file_cursor == units_file(us).len(),
        units_scanned(us).status == MapStructureStatus::Flag,
        units_scanned(us).array_cursor == 0,
        !units_scanned(us).corrupt,
    decreases us.len(),
{
    if us.len() > 0 {
        lemma_units_split(us);
        lemma_units_scanned(us.drop_last());
    }
}

/// Up to the end of the units before the last, the scanner holds what it holds
/// reading those alone.
proof fn lemma_ucanon_prefix(us: Seq<(nat, Seq<char>, Value)>, x: int)
    requires
        unit_keys_ok(us),
        us.len() >= 1,
        0 <= x <= units_file(us.drop_last()).len(),
    ensures
        ucanon(us, x) == ucanon(us.drop_last(), x),
{
    let pre = us.drop_last();
    let o = units_file(pre).len() as int;
    lemma_units_split(us);
    lemma_unit_long(us.last());
    if x == o {
        assert(unit_bytes(us.last()).subrange(0, 0) =~= Seq::<u8>::empty());
        if pre.len() > 0 {
            lemma_units_split(pre);
            assert(zeros(0) =~= Seq::<u8>::empty());
            assert(ucanon(pre, o) == (Seq::<u8>::empty(), units_scanned(pre)));
        }
    }
}

/// A read within the last unit, or from it into the zeros after the units.
#[verifier::spinoff_prover]
#[verifier::rlimit(40)]
proof fn lemma_uchunk_last(us: Seq<(nat, Seq<char>, Value)>, t: nat, l: int, v: int)
    requires
        unit_keys_ok(us),
        map_file(us, t).len() <= u64::MAX,
        1 <= v <= 10,
        l + v <= map_file(us, t).len(),
        us.len() >= 1,
        units_file(us.drop_last()).len() <= l < units_file(us).len(),
    ensures
        ({
            let d = map_file(us, t);
            let (p, st) = ucanon(us, l);
            let (p2, st2) = ucanon(us, l + v);
            spec_read_map_chunk(p + d.subrange(l, l + v), st) == (p2.len() == 0, p2, st2)
        }),
{
    let d = map_file(us, t);
    let pre = us.drop_last();
    let u = us.last();
    lemma_units_split(us);
    lemma_unit_long(u);
    let o = units_file(pre).len() as int;
    let b = unit_bytes(u);
    lemma_units_scanned(pre);
    let q = d.subrange(o, l + v);
    assert(agrees(q, b)) by {
        assert forall|i: int| 0 <= i < q.len() && i < b.len() implies #[trigger] q[i] == b[i] by {
            assert(q[i] == d[o + i]);
            assert(d[o + i] == units_file(us)[o + i]);
        }
    }
    let x = l - o;
    lemma_pass_unit(q, units_scanned(pre), u, x, 0);
    let (p, st) = ucanon(us, l);
    if x - u.0 < 3 {
        assert(p =~= d.subrange(o, l)) by {
            assert forall|i: int| 0 <= i < x implies p[i] == d.subrange(o, l)[i] by {
                assert(d[o + i] == units_file(us)[o + i]);
            }
        }
        assert(p + d.subrange(l, l + v) =~= q);
    } else {
        assert(p =~= d.subrange(o + u.0, l)) by {
            assert forall|i: int| 0 <= i < p.len() implies p[i] == d.subrange(o + u.0, l)[i] by {
                assert(d[o + u.0 + i] == units_file(us)[o + u.0 + i]);
            }
        }
        assert(p + d.subrange(l, l + v) =~= q.subrange(u.0 as int, q.len() as int));
    }
    if q.len() >= b.len() {
        let r = q.subrange(b.len() as int, q.len() as int);
        assert(r =~= zeros((l + v - o - b.len()) as nat)) by {
            assert forall|i: int| 0 <= i < r.len() implies r[i] == 0 by {
                assert(r[i] == d[o + b.len() + i]);
            }
        }
        lemma_units_scanned(us);
        if r.len() > 0 {
            lemma_pass_zeros_only(r.len(), units_scanned(us), 1);
        }
    } else {
        let (p2, st2) = ucanon(us, l + v);
        if (l + v - o) - u.0 < 3 {
            assert(p2 =~= q) by {
                assert forall|i: int| 0 <= i < q.len() implies p2[i] == q[i] by {
                    assert(q[i] == d[o + i]);
                }
            }
        }
    }
}

/// The held bytes after `l` bytes, inside the unit that starts at `o2` of a file `d`,
/// followed by the bytes that arrive up to `e`, are what a pass resumed there reads.
proof fn lemma_held_then_read(d: Seq<u8>, o2: int, l: int, e: int, st: ScanState, u: (nat, Seq<char>, Value))
    requires
        0 <= o2 <= l <= e <= d.len(),
        l - o2 < unit_bytes(u).len(),
        forall|i: int| 0 <= i < l - o2 ==> #[trigger] d[o2 + i] == unit_bytes(u)[i],
    ensures
        ({
            let x = l - o2;
            let q = d.subrange(o2, e);
            unit_partial(st, u, x).0 + d.subrange(l, e) == (if x - u.0 < 3 {
                q
            } else {
                q.subrange(u.0 as int, q.len() as int)
            })
        }),
{
    let x = l - o2;
    let q = d.subrange(o2, e);
    let p = unit_partial(st, u, x).0;
    if x - u.0 < 3 {
        assert(p + d.subrange(l, e) =~= q) by {
            assert forall|i: int| 0 <= i < x implies p[i] == q[i] by {
                assert(d[o2 + i] == unit_bytes(u)[i]);
            }
        }
    } else {
        assert(p + d.subrange(l, e) =~= q.subrange(u.0 as int, q.len() as int)) by {
            assert forall|i: int| 0 <= i < p.len() implies p[i] == q.subrange(u.0 as int, q.len() as int)[i] by {
                let j = u.0 + i;
                assert(d[o2 + j] == unit_bytes(u)[j]);
            }
        }
    }
}

/// The second half of a crossing read: from the start of the last unit, the bytes that
/// arrived leave the scanner waiting in that unit.
#[verifier::spinoff_prover]
#[verifier::rlimit(40)]
proof fn lemma_uchunk_enter(us: Seq<(nat, Seq<char>, Value)>, t: nat, r: Seq<u8>, e: int)
    requires
        unit_keys_ok(us),
        map_file(us, t).len() <= u64::MAX,
        us.len() >= 1,
        units_file(us.drop_last()).len() < e <= units_file(us).len(),
        e - units_file(us.drop_last()).len() <= 10,
        r == map_file(us, t).subrange(units_file(us.drop_last()).len() as int, e),
    ensures
        ({
            let (p2, st2) = ucanon(us, e);
            chunk_pass(r, units_scanned(us.drop_last()), 1) == (p2.len() == 0, p2, st2)
        }),
{
    let d = map_file(us, t);
    let pre = us.drop_last();
    let u = us.last();
    lemma_units_split(us);
    lemma_unit_long(u);
    let o = units_file(pre).len() as int;
    let b = unit_bytes(u);
    lemma_units_scanned(pre);
    assert(agrees(r, b)) by {
        assert forall|i: int| 0 <= i < r.len() && i < b.len() implies #[trigger] r[i] == b[i] by {
            assert(r[i] == d[o + i]);
            assert(d[o + i] == units_file(us)[o + i]);
        }
    }
    lemma_pass_unit(r, units_scanned(pre), u, 0, 1);
    assert(b.subrange(0, 0) =~= Seq::<u8>::empty());
    let (p2, st2) = ucanon(us, e);
    if r.len() - u.0 < 3 {
        assert(p2 =~= r) by {
            assert forall|i: int| 0 <= i < r.len() implies p2[i] == r[i] by {
                assert(r[i] == d[o + i]);
            }
        }
    } else {
        assert(b.subrange(u.0 as int, r.len() as int) =~= r.subrange(u.0 as int, r.len() as int)) by {
            assert forall|i: int| 0 <= i < r.len() - u.0 implies b.subrange(u.0 as int, r.len() as int)[i] == r.subrange(u.0 as int, r.len() as int)[i] by {
                assert(r[u.0 + i] == d[o + u.0 + i]);
                assert(d[o + u.0 + i] == units_file(us)[o + u.0 + i]);
            }
        }
    }
}

/// A read that crosses from the unit before the last into the last: the first unit's
/// frame is finished and recorded, and the scanner waits in the last unit.
#[verifier::spinoff_prover]
#[verifier::rlimit(40)]
proof fn lemma_uchunk_cross(us: Seq<(nat, Seq<char>, Value)>, t: nat, l: int, v: int)
    requires
        unit_keys_ok(us),
        map_file(us, t).len() <= u64::MAX,
        1 <= v <= 10,
        l + v <= units_file(us).len(),
        us.len() >= 2,
        l < units_file(us.drop_last()).len() < l + v,
    ensures
        ({
            let d = map_file(us, t);
            let (p, st) = ucanon(us, l);
            let (p2, st2) = ucanon(us, l + v);
            spec_read_map_chunk(p + d.subrange(l, l + v), st) == (p2.len() == 0, p2, st2)
        }),
{
    let d = map_file(us, t);
    let pre = us.drop_last();
    let pre2 = pre.drop_last();
    let u2 = pre.last();
    lemma_units_split(us);
    lemma_units_split(pre);
    lemma_unit_long(us.last());
    lemma_unit_long(u2);
    let o = units_file(pre).len() as int;
    let o2 = units_file(pre2).len() as int;
    let b2 = unit_bytes(u2);
    lemma_units_scanned(pre);
    lemma_units_scanned(pre2);
    assert(o2 <= l);
    assert(ucanon(us, l) == ucanon(pre, l));
    assert(ucanon(pre, l) == unit_partial(units_scanned(pre2), u2, l - o2));
    let q = d.subrange(o2, l + v);
    assert forall|i: int| 0 <= i < o - o2 implies #[trigger] d[o2 + i] == b2[i] by {
        assert(d[o2 + i] == units_file(us)[o2 + i]);
        assert(units_file(us)[o2 + i] == units_file(pre)[o2 + i]);
    }
    assert(agrees(q, b2)) by {
        assert forall|i: int| 0 <= i < q.len() && i < b2.len() implies #[trigger] q[i] == b2[i] by {
            assert(q[i] == d[o2 + i]);
        }
    }
    lemma_held_then_read(d, o2, l, l + v, units_scanned(pre2), u2);
    lemma_pass_unit(q, units_scanned(pre2), u2, l - o2, 0);
    let r = q.subrange(b2.len() as int, q.len() as int);
    assert(r =~= d.subrange(o, l + v));
    assert(units_scanned(pre) == scanned_frame(flush(units_scanned(pre2), u2.0), u2.1, value_tag(u2.2), value_payload(u2.2)));
    lemma_uchunk_enter(us, t, r, l + v);
}

/// One read of `v` bytes (at most ten) from offset `l` of a file of units followed by
/// zeros takes the scanner from what it holds after `l` bytes to what it holds after
/// `l + v`; the read ends `true` exactly when nothing is left held.
#[verifier::spinoff_prover]
#[verifier::rlimit(40)]
pub proof fn lemma_uchunk(us: Seq<(nat, Seq<char>, Value)>, t: nat, l: int, v: int)
    requires
        unit_keys_ok(us),
        map_file(us, t).len() <= u64::MAX,
        0 <= l,
        1 <= v <= 10,
        l + v <= map_file(us, t).len(),
    ensures
        ({
            let d = map_file(us, t);
            let (p, st) = ucanon(us, l);
            let (p2, st2) = ucanon(us, l + v);
            spec_read_map_chunk(p + d.subrange(l, l + v), st) == (p2.len() == 0, p2, st2)
        }),
    decreases us.len(),
{
    let d = map_file(us, t);
    let uf = units_file(us).len() as int;
    lemma_units_scanned(us);
    if l >= uf {
        let (p, st) = ucanon(us, l);
        if us.len() > 0 {
            lemma_units_split(us);
        }
        assert(p =~= zeros((l - uf) as nat));
        assert(p + d.subrange(l, l + v) =~= zeros((l + v - uf) as nat)) by {
            assert forall|i: int| 0 <= i < v implies #[trigger] d.subrange(l, l + v)[i] == 0 by {
                assert(d[l + i] == zeros(t)[l + i - uf]);
            }
        }
        lemma_pass_zeros_only((l + v - uf) as nat, units_scanned(us), 0);
    } else {
        let pre = us.drop_last();
        lemma_units_split(us);
        let o = units_file(pre).len() as int;
        if l >= o {
            lemma_uchunk_last(us, t, l, v);
        } else if l + v <= o {
            lemma_uchunk(pre, 0, l, v);
            lemma_ucanon_prefix(us, l);
            lemma_ucanon_prefix(us, l + v);
            assert(map_file(pre, 0) =~= units_file(pre));
            assert(d.subrange(l, l + v) =~= units_file(pre).subrange(l, l + v));
        } else {
            lemma_uchunk_cross(us, t, l, v);
        }
    }
}

/// Before any byte is read the scanner holds nothing and awaits the first flag.
proof fn lemma_ucanon_start(us: Seq<(nat, Seq<char>, Value)>)
    requires
        unit_keys_ok(us),
    ensures
        ucanon(us, 0) == (Seq::<u8>::empty(), scan_initial()),
    decreases us.len(),
{
    if us.len() > 0 {
        let pre = us.drop_last();
        lemma_units_split(us);
        lemma_unit_long(us.last());
        assert(unit_bytes(us.last()).subrange(0, 0) =~= Seq::<u8>::empty());
        if pre.len() > 0 {
            lemma_units_split(pre);
            lemma_unit_long(pre.last());
            lemma_ucanon_start(pre);
        }
    }
}

/// Once the whole file is read the scanner holds the zeros after the last frame and
/// has recorded every unit.
proof fn lemma_ucanon_end(us: Seq<(nat, Seq<char>, Value)>, t: nat)
    requires
        unit_keys_ok(us),
    ensures
        ucanon(us, map_file(us, t).len() as int) == (zeros(t), units_scanned(us)),
{
    if us.len() > 0 {
        lemma_units_split(us);
    } else {
        assert(zeros(0) =~= Seq::<u8>::empty());
    }
}

/// The rest of the file read ten bytes at a time from offset `l`.
#[verifier::spinoff_prover]
#[verifier::rlimit(40)]
proof fn lemma_uparse_rest(us: Seq<(nat, Seq<char>, Value)>, t: nat, l: int)
    requires
        unit_keys_ok(us),
        map_file(us, t).len() <= u64::MAX,
        0 <= l <= map_file(us, t).len(),
    ensures
        parse_from(map_file(us, t), l, ucanon(us, l).0, ucanon(us, l).1) == (
            t == 0 && (map_file(us, t).len() - l) % 10 != 0,
            zeros(t),
            units_scanned(us),
        ),
    decreases map_file(us, t).len() - l,
{
    let d = map_file(us, t);
    let v = if d.len() - l < 10 {
        d.len() - l
    } else {
        10
    };
    lemma_ucanon_end(us, t);
    lemma_units_scanned(us);
    if v == 0 {
        let st = units_scanned(us);
        assert(zeros(t) + d.subrange(l, l) =~= zeros(t));
        lemma_pass_zeros_only(t, st, 0);
    } else {
        lemma_uchunk(us, t, l, v);
        if v == 10 {
            lemma_uparse_rest(us, t, l + 10);
        } else {
            assert(zeros(0) =~= Seq::<u8>::empty());
        }
    }
}

/// Reopening a map file whose bytes are units (zeros, then a frame) followed by zeros:
/// scanning it, ten bytes at a time, records every frame with its pointer, exactly as
/// reading the units one after another does, and each stretch of zeros as one empty
/// run. The map is marked corrupt when zeros end the file, or when its length is a
/// multiple of ten.
#[verifier::spinoff_prover]
#[verifier::rlimit(40)]
pub proof fn lemma_reopen(us: Seq<(nat, Seq<char>, Value)>, t: nat)
    requires
        unit_keys_ok(us),
        map_file(us, t).len() <= u64::MAX,
    ensures
        spec_parse_map(map_file(us, t)) == (ScanState {
            corrupt: t > 0 || map_file(us, t).len() % 10 == 0,
            ..flush(units_scanned(us), t)
        }),
        spec_parse_map(map_file(us, t)).pointers == units_scanned(us).pointers,
{
    lemma_ucanon_start(us);
    lemma_uparse_rest(us, t, 0);
    lemma_units_scanned(us);
    if t > 0 {
        lemma_handle_zeros(zeros(t), t, units_scanned(us));
    }
}

} // verus!
