use vstd::prelude::*;
use vstd::utf8::encode_utf8;
use crate::frame::{frame_bytes, lemma_frame_pointer_roundtrip, Value, keyval_bytes, value_payload};
use crate::bytes::lemma_be_roundtrip;
use crate::scan::{
    ScanState, FrameView, MapStructureStatus, frame_cleared, after_key, after_value,
    scanned_frame, chunk_pass, spec_process_flag, spec_process_key, spec_process_value,
    spec_process_end, find_flag_from, spec_find_flag, key_size_int_stage, key_size_stage,
    key_stage, value_type_stage, value_size_int_stage, value_size_stage, value_stage, Step,
    scan_inv, lemma_key_stages, lemma_value_stages,
};

verus! {

/// The number of bytes of a frame, with a key of `kl` bytes and a payload of `pl`,
/// that the scanner needs to finish its stage `t`: the start flag (1), the key's width
/// (2), length (3) and bytes (4), the type (5), the value's width (6) and length (7),
/// the value (8), and the end flag (9, the whole frame).
pub open spec fn stage_mark(kl: int, pl: int, t: int) -> int {
    if t <= 0 {
        0
    } else if t == 1 {
        3
    } else if t == 2 {
        5
    } else if t == 3 {
        14
    } else if t == 4 {
        15 + kl
    } else if t == 5 {
        17 + kl
    } else if t == 6 {
        19 + kl
    } else if t == 7 {
        28 + kl
    } else if t == 8 {
        29 + kl + pl
    } else {
        32 + kl + pl
    }
}

/// The last stage, up to 8, that `k` bytes of such a frame let the scanner finish.
pub open spec fn stage_of(kl: int, pl: int, k: int) -> int {
    if k >= stage_mark(kl, pl, 8) {
        8
    } else if k >= stage_mark(kl, pl, 7) {
        7
    } else if k >= stage_mark(kl, pl, 6) {
        6
    } else if k >= stage_mark(kl, pl, 5) {
        5
    } else if k >= stage_mark(kl, pl, 4) {
        4
    } else if k >= stage_mark(kl, pl, 3) {
        3
    } else if k >= stage_mark(kl, pl, 2) {
        2
    } else if k >= stage_mark(kl, pl, 1) {
        1
    } else {
        0
    }
}

/// The scanner's state once it has finished stage `t` of the frame of `key`, `tag`
/// and `payload` that starts where `st` awaits a flag.
#[verifier::opaque]
pub open spec fn stage_state(st: ScanState, key: Seq<char>, tag: u8, payload: Seq<u8>, t: int) -> ScanState {
    let kl = encode_utf8(key).len();
    let pl = payload.len();
    let s1 = ScanState {
        array_cursor: 2,
        frame: FrameView { start: st.file_cursor, ..frame_cleared() },
        status: MapStructureStatus::KeySizeInt,
        ..st
    };
    let s2 = ScanState {
        frame: FrameView { key_size_int: 8, ..s1.frame },
        array_cursor: 4,
        status: MapStructureStatus::KeySize,
        ..s1
    };
    let s3 = ScanState {
        frame: FrameView { key_size: kl as u64, ..s2.frame },
        array_cursor: 13,
        status: MapStructureStatus::Key,
        ..s2
    };
    let s4 = after_key(st, key);
    let s5 = ScanState {
        frame: FrameView { value_type: tag, ..s4.frame },
        array_cursor: (16 + kl) as u64,
        status: MapStructureStatus::ValueSizeInt,
        ..s4
    };
    let s6 = ScanState {
        frame: FrameView { value_size_int: 8, ..s5.frame },
        array_cursor: (18 + kl) as u64,
        status: MapStructureStatus::ValueSize,
        ..s5
    };
    let s7 = ScanState {
        frame: FrameView { value_size: pl as u64, ..s6.frame },
        array_cursor: (27 + kl) as u64,
        status: MapStructureStatus::Value,
        ..s6
    };
    if t <= 0 {
        st
    } else if t == 1 {
        s1
    } else if t == 2 {
        s2
    } else if t == 3 {
        s3
    } else if t == 4 {
        s4
    } else if t == 5 {
        s5
    } else if t == 6 {
        s6
    } else if t == 7 {
        s7
    } else {
        after_value(st, key, tag, payload)
    }
}

/// `q` holds the bytes of `f` as far as both go.
pub open spec fn agrees(q: Seq<u8>, f: Seq<u8>) -> bool {
    forall|i: int| 0 <= i < q.len() && i < f.len() ==> #[trigger] q[i] == f[i]
}

/// What one pass of the scanner does from stage `t` of a frame, given the bytes `q`
/// that start with the frame, or with as much of it as has arrived.
pub open spec fn pass_result(q: Seq<u8>, st: ScanState, key: Seq<char>, tag: u8, payload: Seq<u8>, idx: int) -> (bool, Seq<u8>, ScanState) {
    let f = frame_bytes(encode_utf8(key), tag, payload);
    let kl = encode_utf8(key).len() as int;
    let pl = payload.len() as int;
    if q.len() < f.len() {
        (false, q, stage_state(st, key, tag, payload, stage_of(kl, pl, q.len() as int)))
    } else {
        let r = q.subrange(f.len() as int, q.len() as int);
        let s2 = scanned_frame(st, key, tag, payload);
        if r.len() == 0 {
            (true, r, s2)
        } else if idx >= 3 {
            (false, r, s2)
        } else {
            chunk_pass(r, s2, idx + 1)
        }
    }
}

/// The scanner may start reading the frame of `key`, `tag` and `payload` from `st`
/// with the bytes `q`: it awaits a flag at the frame's start, the key is not empty,
/// the type is one it reads, the offsets stay within `u64`, and `q` holds the frame's
/// bytes as far as it goes.
pub open spec fn scan_setup(q: Seq<u8>, st: ScanState, key: Seq<char>, tag: u8, payload: Seq<u8>) -> bool {
    let f = frame_bytes(encode_utf8(key), tag, payload);
    &&& key.len() > 0
    &&& 1 <= tag <= 99
    &&& st.status == MapStructureStatus::Flag
    &&& st.array_cursor == 0
    &&& st.file_cursor + q.len() <= u64::MAX
    &&& st.file_cursor + f.len() <= u64::MAX
    &&& agrees(q, f)
}

/// Where each part of a frame lies.
pub proof fn lemma_frame_layout(key: Seq<char>, tag: u8, payload: Seq<u8>)
    requires
        key.len() > 0,
        encode_utf8(key).len() + payload.len() + 32 <= u64::MAX,
    ensures
        ({
            let kb = encode_utf8(key);
            let kl = kb.len() as int;
            let pl = payload.len() as int;
            let f = frame_bytes(kb, tag, payload);
            &&& kl > 0
            &&& f.len() == 32 + kl + pl
            &&& f[0] == 0 && f[1] == 1 && f[2] == 0 && f[3] == 0 && f[4] == 8 && f[5] == 0
            &&& f.subrange(6, 14) == crate::bytes::be_bytes(kl as u64)
            &&& f[14] == 0
            &&& f.subrange(15, 15 + kl) == kb
            &&& f[15 + kl] == 0 && f[16 + kl] == tag && f[17 + kl] == 0 && f[18 + kl] == 8
            &&& f[19 + kl] == 0
            &&& f.subrange(20 + kl, 28 + kl) == crate::bytes::be_bytes(pl as u64)
            &&& f[28 + kl] == 0
            &&& f[29 + kl + pl] == 0 && f[30 + kl + pl] == 2 && f[31 + kl + pl] == 0
            &&& vstd::utf8::valid_utf8(kb)
            &&& vstd::utf8::decode_utf8(kb) == key
            &&& crate::bytes::be_value(crate::bytes::be_bytes(kl as u64)) == kl
            &&& crate::bytes::be_value(crate::bytes::be_bytes(pl as u64)) == pl
        }),
{
    let kb = encode_utf8(key);
    let kl = kb.len() as int;
    let pl = payload.len() as int;
    let f = frame_bytes(kb, tag, payload);
    lemma_frame_pointer_roundtrip(kb, tag, payload, 0, 0);
    vstd::utf8::encode_utf8_valid_utf8(key);
    vstd::utf8::encode_utf8_decode_utf8(key);
    vstd::utf8::encode_utf8_first_scalar(key);
    lemma_be_roundtrip(kl as u64);
    lemma_be_roundtrip(pl as u64);
    assert(f.subrange(6, 14) =~= crate::bytes::be_bytes(kl as u64));
    assert(f.subrange(15, 15 + kl) =~= kb);
    assert(f.subrange(20 + kl, 28 + kl) =~= crate::bytes::be_bytes(pl as u64));
}

/// With fewer than three bytes of a frame there is no flag yet; with three there is,
/// and the scanner moves to the key's width.
pub proof fn lemma_flag_stage(q: Seq<u8>, st: ScanState, key: Seq<char>, tag: u8, payload: Seq<u8>)
    requires
        scan_setup(q, st, key, tag, payload),
    ensures
        q.len() < 3 ==> spec_process_flag(q, st) == (false, q, st),
        q.len() >= 3 ==> spec_process_flag(q, st) == (true, q, stage_state(st, key, tag, payload, 1)),
{
    reveal(stage_state);
    lemma_frame_layout(key, tag, payload);
    let f = frame_bytes(encode_utf8(key), tag, payload);
    if q.len() >= 3 {
        assert(q[0] == f[0] && q[1] == f[1] && q[2] == f[2]);
        assert(find_flag_from(q, 0, 2, true, true) == (true, 2u64));
        assert(find_flag_from(q, 0, 1, true, false) == (true, 2u64));
        assert(spec_find_flag(q, 0) == (true, 2u64));
    } else {
        assert(find_flag_from(q, 0, q.len() as int, q.len() >= 1, q.len() >= 2) == (false, q.len() as u64));
        if q.len() >= 1 {
            assert(q[0] == f[0]);
        }
        if q.len() >= 2 {
            assert(q[1] == f[1]);
            assert(find_flag_from(q, 0, 1, true, false) == (false, q.len() as u64));
        }
        assert(spec_find_flag(q, 0) == (false, q.len() as u64));
    }
}

/// The stages that read the key: each moves on once its bytes have arrived, and
/// waits otherwise.
proof fn lemma_key_stage_steps(q: Seq<u8>, st: ScanState, key: Seq<char>, tag: u8, payload: Seq<u8>)
    requires
        scan_setup(q, st, key, tag, payload),
    ensures
        ({
            let kl = encode_utf8(key).len() as int;
            let s = |t: int| stage_state(st, key, tag, payload, t);
            &&& q.len() >= 3 ==> key_size_int_stage(q, s(1)) == (if q.len() >= 5 {
                Step::Next(s(2))
            } else {
                Step::Done(false, s(1))
            })
            &&& q.len() >= 5 ==> key_size_stage(q, s(2)) == (if q.len() >= 14 {
                Step::Next(s(3))
            } else {
                Step::Done(false, s(2))
            })
            &&& q.len() >= 14 ==> key_stage(q, s(3)) == (if q.len() >= 15 + kl {
                Step::Done(true, s(4))
            } else {
                Step::Done(false, s(3))
            })
        }),
{
    reveal(stage_state);
    lemma_frame_layout(key, tag, payload);
    let kb = encode_utf8(key);
    let kl = kb.len() as int;
    let f = frame_bytes(kb, tag, payload);
    let s = |t: int| stage_state(st, key, tag, payload, t);
    if q.len() >= 5 {
        assert(q[3] == f[3] && q[4] == f[4]);
    }
    if q.len() >= 14 {
        assert(q[5] == f[5]);
        assert(q.subrange(6, 14) =~= f.subrange(6, 14));
    }
    if q.len() >= 15 + kl {
        assert(q[14] == f[14]);
        assert(q.subrange(15, 15 + kl) =~= f.subrange(15, 15 + kl));
        assert(s(4) == after_key(st, key));
    }
}

/// The stages that read the value: each moves on once its bytes have arrived, and
/// waits otherwise.
proof fn lemma_value_stage_steps(q: Seq<u8>, st: ScanState, key: Seq<char>, tag: u8, payload: Seq<u8>)
    requires
        scan_setup(q, st, key, tag, payload),
    ensures
        ({
            let kl = encode_utf8(key).len() as int;
            let pl = payload.len() as int;
            let s = |t: int| stage_state(st, key, tag, payload, t);
            &&& q.len() >= 15 + kl ==> value_type_stage(q, s(4)) == (if q.len() >= 17 + kl {
                Step::Next(s(5))
            } else {
                Step::Done(false, s(4))
            })
            &&& q.len() >= 17 + kl ==> value_size_int_stage(q, s(5)) == (if q.len() >= 19 + kl {
                Step::Next(s(6))
            } else {
                Step::Done(false, s(5))
            })
            &&& q.len() >= 19 + kl ==> value_size_stage(q, s(6)) == (if q.len() >= 28 + kl {
                Step::Next(s(7))
            } else {
                Step::Done(false, s(6))
            })
            &&& q.len() >= 28 + kl ==> value_stage(q, s(7)) == (if q.len() >= 29 + kl + pl {
                Step::Next(s(8))
            } else {
                Step::Done(false, s(7))
            })
        }),
{
    reveal(stage_state);
    lemma_frame_layout(key, tag, payload);
    let kb = encode_utf8(key);
    let kl = kb.len() as int;
    let pl = payload.len() as int;
    let f = frame_bytes(kb, tag, payload);
    let s = |t: int| stage_state(st, key, tag, payload, t);
    if q.len() >= 17 + kl {
        assert(q[15 + kl] == f[15 + kl] && q[16 + kl] == f[16 + kl]);
    }
    if q.len() >= 19 + kl {
        assert(q[17 + kl] == f[17 + kl] && q[18 + kl] == f[18 + kl]);
    }
    if q.len() >= 28 + kl {
        assert(q[19 + kl] == f[19 + kl]);
        assert(q.subrange(20 + kl, 28 + kl) =~= f.subrange(20 + kl, 28 + kl));
    }
    if q.len() >= 29 + kl + pl {
        assert(q[28 + kl] == f[28 + kl]);
        assert(s(8) == after_value(st, key, tag, payload));
    }
}

/// The scanner's invariant holds at each stage whose bytes have arrived.
pub proof fn lemma_stage_inv(q: Seq<u8>, st: ScanState, key: Seq<char>, tag: u8, payload: Seq<u8>, t: int)
    requires
        scan_setup(q, st, key, tag, payload),
        0 <= t <= 8,
        q.len() >= stage_mark(encode_utf8(key).len() as int, payload.len() as int, t),
    ensures
        scan_inv(q, stage_state(st, key, tag, payload, t)),
{
    reveal(stage_state);
    lemma_frame_layout(key, tag, payload);
}

/// Reading the key from stage `t`: the key is read once its bytes have arrived; the
/// scanner waits at the stage it reached otherwise; past the key nothing happens.
proof fn lemma_key_from(q: Seq<u8>, st: ScanState, key: Seq<char>, tag: u8, payload: Seq<u8>, t: int)
    requires
        scan_setup(q, st, key, tag, payload),
        1 <= t <= 8,
        q.len() >= stage_mark(encode_utf8(key).len() as int, payload.len() as int, t),
    ensures
        ({
            let kl = encode_utf8(key).len() as int;
            let pl = payload.len() as int;
            let s = |t: int| stage_state(st, key, tag, payload, t);
            spec_process_key(q, s(t)) == (if t >= 4 {
                (true, q, s(t))
            } else if q.len() >= 15 + kl {
                (true, q, s(4))
            } else {
                (false, q, s(stage_of(kl, pl, q.len() as int)))
            })
        }),
{
    reveal(stage_state);
    lemma_frame_layout(key, tag, payload);
    lemma_key_stage_steps(q, st, key, tag, payload);
    let s = |t: int| stage_state(st, key, tag, payload, t);
    lemma_stage_inv(q, st, key, tag, payload, t);
    lemma_key_stages(q, s(t));
    if t == 1 && q.len() >= 5 {
        lemma_stage_inv(q, st, key, tag, payload, 2);
        lemma_key_stages(q, s(2));
    }
    if t <= 2 && q.len() >= 14 {
        lemma_stage_inv(q, st, key, tag, payload, 3);
        lemma_key_stages(q, s(3));
    }
}

/// Reading the value from stage `t`: the value is located once its bytes have arrived;
/// the scanner waits at the stage it reached otherwise; at the end flag nothing
/// happens.
proof fn lemma_value_from(q: Seq<u8>, st: ScanState, key: Seq<char>, tag: u8, payload: Seq<u8>, t: int)
    requires
        scan_setup(q, st, key, tag, payload),
        4 <= t <= 8,
        q.len() >= stage_mark(encode_utf8(key).len() as int, payload.len() as int, t),
    ensures
        ({
            let kl = encode_utf8(key).len() as int;
            let pl = payload.len() as int;
            let s = |t: int| stage_state(st, key, tag, payload, t);
            spec_process_value(q, s(t)) == (if t == 8 || q.len() >= 29 + kl + pl {
                (true, q, s(8))
            } else {
                (false, q, s(stage_of(kl, pl, q.len() as int)))
            })
        }),
{
    reveal(stage_state);
    lemma_frame_layout(key, tag, payload);
    lemma_value_stage_steps(q, st, key, tag, payload);
}

/// The end flag: once it has arrived the frame is recorded and leaves the bytes held;
/// until then the pass fails at it.
proof fn lemma_end_from(q: Seq<u8>, st: ScanState, key: Seq<char>, tag: u8, payload: Seq<u8>)
    requires
        scan_setup(q, st, key, tag, payload),
        q.len() >= stage_mark(encode_utf8(key).len() as int, payload.len() as int, 8),
    ensures
        ({
            let f = frame_bytes(encode_utf8(key), tag, payload);
            let r = q.subrange(f.len() as int, q.len() as int);
            spec_process_end(q, stage_state(st, key, tag, payload, 8)) == (if q.len() >= f.len() {
                ((false, r.len() == 0), r, scanned_frame(st, key, tag, payload))
            } else {
                ((true, false), q, stage_state(st, key, tag, payload, 8))
            })
        }),
{
    reveal(stage_state);
    lemma_frame_layout(key, tag, payload);
    let kb = encode_utf8(key);
    let kl = kb.len() as int;
    let pl = payload.len() as int;
    let f = frame_bytes(kb, tag, payload);
    let s8 = stage_state(st, key, tag, payload, 8);
    assert(s8 == after_value(st, key, tag, payload));
    if q.len() >= f.len() {
        assert(q[29 + kl + pl] == f[29 + kl + pl]);
        assert(q[30 + kl + pl] == f[30 + kl + pl]);
        assert(q[31 + kl + pl] == f[31 + kl + pl]);
        let (r9, p9, s9) = spec_process_end(q, s8);
        assert(s9.pointers == scanned_frame(st, key, tag, payload).pointers);
        assert(s9.frames == scanned_frame(st, key, tag, payload).frames);
        assert(s9.frame == scanned_frame(st, key, tag, payload).frame);
    }
}

/// Past the flag, looking for one does nothing.
pub proof fn lemma_flag_skip(q: Seq<u8>, st: ScanState, key: Seq<char>, tag: u8, payload: Seq<u8>, t: int)
    requires
        1 <= t <= 8,
    ensures
        spec_process_flag(q, stage_state(st, key, tag, payload, t)) == (true, q, stage_state(st, key, tag, payload, t)),
{
    reveal(stage_state);
}

/// Two passes over the same bytes that agree from reading the key on agree.
pub proof fn lemma_chunk_from_key(q: Seq<u8>, a: ScanState, b: ScanState, idx: int)
    requires
        spec_process_flag(q, a) == (true, q, a),
        spec_process_flag(q, b) == (true, q, b),
        spec_process_key(q, a) == spec_process_key(q, b),
    ensures
        chunk_pass(q, a, idx) == chunk_pass(q, b, idx),
{
}

/// A pass that stops while reading the key.
proof fn lemma_chunk_key_stuck(q: Seq<u8>, a: ScanState, x: ScanState, idx: int)
    requires
        spec_process_flag(q, a) == (true, q, a),
        spec_process_key(q, a) == (false, q, x),
    ensures
        chunk_pass(q, a, idx) == (false, q, x),
{
}

/// Two passes over the same bytes, both past the key, that agree from reading the value
/// on agree.
proof fn lemma_chunk_from_value(q: Seq<u8>, a: ScanState, b: ScanState, idx: int)
    requires
        spec_process_flag(q, a) == (true, q, a),
        spec_process_flag(q, b) == (true, q, b),
        spec_process_key(q, a) == (true, q, a),
        spec_process_key(q, b) == (true, q, b),
        spec_process_value(q, a) == spec_process_value(q, b),
    ensures
        chunk_pass(q, a, idx) == chunk_pass(q, b, idx),
{
}

/// A pass, past the key, that stops while reading the value.
proof fn lemma_chunk_value_stuck(q: Seq<u8>, a: ScanState, x: ScanState, idx: int)
    requires
        spec_process_flag(q, a) == (true, q, a),
        spec_process_key(q, a) == (true, q, a),
        spec_process_value(q, a) == (false, q, x),
    ensures
        chunk_pass(q, a, idx) == (false, q, x),
{
}

/// A pass resumed at the end flag.
proof fn lemma_pass_end(q: Seq<u8>, st: ScanState, key: Seq<char>, tag: u8, payload: Seq<u8>, idx: int)
    requires
        scan_setup(q, st, key, tag, payload),
        q.len() >= stage_mark(encode_utf8(key).len() as int, payload.len() as int, 8),
        0 <= idx,
    ensures
        chunk_pass(q, stage_state(st, key, tag, payload, 8), idx) == pass_result(q, st, key, tag, payload, idx),
{
    lemma_frame_layout(key, tag, payload);
    lemma_flag_skip(q, st, key, tag, payload, 8);
    lemma_key_from(q, st, key, tag, payload, 8);
    lemma_value_from(q, st, key, tag, payload, 8);
    lemma_end_from(q, st, key, tag, payload);
}

/// A pass resumed in the value, at stage `t` (4 to 8).
proof fn lemma_pass_value(q: Seq<u8>, st: ScanState, key: Seq<char>, tag: u8, payload: Seq<u8>, t: int, idx: int)
    requires
        scan_setup(q, st, key, tag, payload),
        4 <= t <= 8,
        q.len() >= stage_mark(encode_utf8(key).len() as int, payload.len() as int, t),
        0 <= idx,
    ensures
        chunk_pass(q, stage_state(st, key, tag, payload, t), idx) == pass_result(q, st, key, tag, payload, idx),
{
    lemma_frame_layout(key, tag, payload);
    let kl = encode_utf8(key).len() as int;
    let pl = payload.len() as int;
    let st_t = stage_state(st, key, tag, payload, t);
    let s8 = stage_state(st, key, tag, payload, 8);
    lemma_flag_skip(q, st, key, tag, payload, t);
    lemma_key_from(q, st, key, tag, payload, t);
    lemma_value_from(q, st, key, tag, payload, t);
    if t < 8 && q.len() < 29 + kl + pl {
        lemma_chunk_value_stuck(q, st_t, stage_state(st, key, tag, payload, stage_of(kl, pl, q.len() as int)), idx);
    } else {
        lemma_pass_end(q, st, key, tag, payload, idx);
        lemma_flag_skip(q, st, key, tag, payload, 8);
        lemma_key_from(q, st, key, tag, payload, 8);
        lemma_value_from(q, st, key, tag, payload, 8);
        lemma_chunk_from_value(q, st_t, s8, idx);
    }
}

/// A pass resumed in the key, at stage `t` (1 to 8).
proof fn lemma_pass_key(q: Seq<u8>, st: ScanState, key: Seq<char>, tag: u8, payload: Seq<u8>, t: int, idx: int)
    requires
        scan_setup(q, st, key, tag, payload),
        1 <= t <= 8,
        q.len() >= stage_mark(encode_utf8(key).len() as int, payload.len() as int, t),
        0 <= idx,
    ensures
        chunk_pass(q, stage_state(st, key, tag, payload, t), idx) == pass_result(q, st, key, tag, payload, idx),
{
    lemma_frame_layout(key, tag, payload);
    let kl = encode_utf8(key).len() as int;
    let pl = payload.len() as int;
    if t >= 4 {
        lemma_pass_value(q, st, key, tag, payload, t, idx);
    } else {
        let st_t = stage_state(st, key, tag, payload, t);
        let s4 = stage_state(st, key, tag, payload, 4);
        lemma_flag_skip(q, st, key, tag, payload, t);
        lemma_key_from(q, st, key, tag, payload, t);
        if q.len() < 15 + kl {
            lemma_chunk_key_stuck(q, st_t, stage_state(st, key, tag, payload, stage_of(kl, pl, q.len() as int)), idx);
        } else {
            lemma_pass_value(q, st, key, tag, payload, 4, idx);
            lemma_flag_skip(q, st, key, tag, payload, 4);
            lemma_key_from(q, st, key, tag, payload, 4);
            lemma_chunk_from_key(q, st_t, s4, idx);
        }
    }
}

/// One pass of the scanner, resumed at stage `t` of a frame over bytes `q` that begin
/// with that frame: it finishes every stage whose bytes have arrived; with the whole
/// frame it records it and, when more bytes follow, goes on over them.
pub proof fn lemma_pass(q: Seq<u8>, st: ScanState, key: Seq<char>, tag: u8, payload: Seq<u8>, t: int, idx: int)
    requires
        scan_setup(q, st, key, tag, payload),
        0 <= t <= 8,
        q.len() >= stage_mark(encode_utf8(key).len() as int, payload.len() as int, t),
        0 <= idx,
    ensures
        chunk_pass(q, stage_state(st, key, tag, payload, t), idx) == pass_result(q, st, key, tag, payload, idx),
{
    lemma_frame_layout(key, tag, payload);
    if t >= 1 {
        lemma_pass_key(q, st, key, tag, payload, t, idx);
    } else {
        reveal(stage_state);
        lemma_flag_stage(q, st, key, tag, payload);
        let s1 = stage_state(st, key, tag, payload, 1);
        if q.len() < 3 {
            assert(chunk_pass(q, st, idx) == (false, q, st));
        } else {
            lemma_pass_key(q, st, key, tag, payload, 1, idx);
            lemma_flag_skip(q, st, key, tag, payload, 1);
            assert(chunk_pass(q, st, idx) == chunk_pass(q, s1, idx));
        }
    }
}

/// Stage 0 is where the frame starts.
pub proof fn lemma_stage_zero(st: ScanState, key: Seq<char>, tag: u8, payload: Seq<u8>)
    ensures
        stage_state(st, key, tag, payload, 0) == st,
{
    reveal(stage_state);
}

/// A frame is longer than ten bytes.
pub proof fn lemma_frame_long(key: Seq<char>, v: Value)
    requires
        key.len() > 0,
    ensures
        keyval_bytes(key, v).len() == 32 + encode_utf8(key).len() + value_payload(v).len(),
        keyval_bytes(key, v).len() > 10,
{
    vstd::utf8::encode_utf8_first_scalar(key);
}

/// The stage reached with `k` bytes has its bytes within those `k`.
pub proof fn lemma_stage_of_mark(kl: int, pl: int, k: int)
    requires
        0 <= k,
        0 < kl,
        0 <= pl,
    ensures
        stage_mark(kl, pl, stage_of(kl, pl, k)) <= k,
        0 <= stage_of(kl, pl, k) <= 8,
{
}

} // verus!
