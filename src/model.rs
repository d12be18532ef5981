//! What the validator computes, stated byte by byte, and why it agrees with
//! UTF-8 well-formedness.
use vstd::prelude::*;
use vstd::utf8::{
    codepoint_width_2, codepoint_width_3, codepoint_width_4, pop_first_scalar, valid_first_scalar,
    valid_utf8,
};

verus! {

/// Lead or ASCII byte followed by a byte that does not continue it.
pub const TOO_SHORT: u8 = 1;
/// ASCII byte followed by a continuation byte.
pub const TOO_LONG: u8 = 2;
/// `11100000 100xxxxx`: a three-byte form of a code point below U+0800.
pub const OVERLONG_3: u8 = 4;
/// A four-byte lead and second byte that encode more than U+10FFFF.
pub const TOO_LARGE: u8 = 8;
/// `11101101 101xxxxx`: a UTF-16 surrogate, U+D800 to U+DFFF.
pub const SURROGATE: u8 = 16;
/// `1100000x 10xxxxxx`: a two-byte form of a code point below U+0080.
pub const OVERLONG_2: u8 = 32;
/// `11110101..11111111 1000xxxx`: the part of too-large code points that
/// `TOO_LARGE` does not cover.
pub const TOO_LARGE_1000: u8 = 64;
/// `11110000 1000xxxx`: a four-byte form of a code point below U+10000.
/// Shares its bit with `TOO_LARGE_1000`.
pub const OVERLONG_4: u8 = 64;
/// A continuation byte after a continuation byte.
pub const TWO_CONTS: u8 = 128;
/// The classes that hold whatever the low nibble of the first byte is.
pub const CARRY: u8 = 131;

/// The classes that the high nibble of the earlier byte of a pair allows.
pub open spec fn high_class(n: u8) -> u8 {
    if n < 8 {
        TOO_LONG
    } else if n < 12 {
        TWO_CONTS
    } else if n == 12 {
        TOO_SHORT | OVERLONG_2
    } else if n == 13 {
        TOO_SHORT
    } else if n == 14 {
        TOO_SHORT | OVERLONG_3 | SURROGATE
    } else {
        TOO_SHORT | TOO_LARGE | TOO_LARGE_1000 | OVERLONG_4
    }
}

/// The classes that the low nibble of the earlier byte of a pair allows.
pub open spec fn low_class(n: u8) -> u8 {
    if n == 0 {
        CARRY | OVERLONG_3 | OVERLONG_2 | OVERLONG_4
    } else if n == 1 {
        CARRY | OVERLONG_2
    } else if n < 4 {
        CARRY
    } else if n == 4 {
        CARRY | TOO_LARGE
    } else if n == 13 {
        CARRY | TOO_LARGE | TOO_LARGE_1000 | SURROGATE
    } else {
        CARRY | TOO_LARGE | TOO_LARGE_1000
    }
}

/// The classes that the high nibble of the later byte of a pair allows.
pub open spec fn next_class(n: u8) -> u8 {
    if n < 8 || n >= 12 {
        TOO_SHORT
    } else if n == 8 {
        TOO_LONG | OVERLONG_2 | TWO_CONTS | OVERLONG_3 | TOO_LARGE_1000 | OVERLONG_4
    } else if n == 9 {
        TOO_LONG | OVERLONG_2 | TWO_CONTS | OVERLONG_3 | TOO_LARGE
    } else {
        TOO_LONG | OVERLONG_2 | TWO_CONTS | SURROGATE | TOO_LARGE
    }
}

/// The error classes of the byte pair `(b1, b0)`: those that all three
/// nibble classifications agree on.
pub open spec fn pair_error(b1: u8, b0: u8) -> u8 {
    high_class(b1 >> 4) & low_class(b1 & 15) & next_class(b0 >> 4)
}

/// Unsigned subtraction that stops at zero.
pub open spec fn sat_sub(a: u8, b: u8) -> u8 {
    if a >= b {
        (a - b) as u8
    } else {
        0
    }
}

/// Bit 7 is set when the byte two before is a three- or four-byte lead, or
/// the byte three before a four-byte lead: then `b0` must continue it.
pub open spec fn must_continue(b3: u8, b2: u8) -> u8 {
    (sat_sub(b2, 0x60) | sat_sub(b3, 0x70)) & 0x80
}

/// The error bits at a byte `b0` whose three predecessors are `b3, b2, b1`
/// (earliest first). Zero means no error is seen at this byte.
pub open spec fn lane_error(b3: u8, b2: u8, b1: u8, b0: u8) -> u8 {
    must_continue(b3, b2) ^ pair_error(b1, b0)
}

/// The byte at `j`, where the positions before the start read as zero.
pub open spec fn at(s: Seq<u8>, j: int) -> u8 {
    if 0 <= j < s.len() {
        s[j]
    } else {
        0
    }
}

/// The error bits at position `i` of `s`.
pub open spec fn error_at(s: Seq<u8>, i: int) -> u8 {
    lane_error(at(s, i - 3), at(s, i - 2), at(s, i - 1), s[i])
}

/// No position of `s` shows an error.
pub open spec fn scan_clean(s: Seq<u8>) -> bool {
    forall|i: int| 0 <= i < s.len() ==> #[trigger] error_at(s, i) == 0
}

/// No lead byte near the end of `s` waits for bytes that never came: the
/// third last byte is below `0xf0`, the second last below `0xe0`, the last
/// below `0xc0`.
pub open spec fn tail_complete(s: Seq<u8>) -> bool {
    let n = s.len() as int;
    at(s, n - 3) < 0xf0 && at(s, n - 2) < 0xe0 && at(s, n - 1) < 0xc0
}

/// Every one of the sixteen lanes is zero.
pub open spec fn all_zero(v: Seq<u8>) -> bool {
    forall|i: int| 0 <= i < 16 ==> #[trigger] v[i] == 0
}

/// The last sixteen bytes of `s`, reading zeros before its start.
pub open spec fn last16(s: Seq<u8>) -> Seq<u8> {
    Seq::new(16, |i: int| at(s, s.len() - 16 + i))
}

/// Byte `j` of `data`, where negative positions read back into the sixteen
/// bytes `prev` that came just before it.
pub open spec fn win(prev: Seq<u8>, data: Seq<u8>, j: int) -> u8 {
    if j >= 0 {
        data[j]
    } else {
        prev[16 + j]
    }
}

/// The error bits at position `p` of `data`, which follows `prev`.
pub open spec fn chunk_error_at(prev: Seq<u8>, data: Seq<u8>, p: int) -> u8 {
    lane_error(win(prev, data, p - 3), win(prev, data, p - 2), win(prev, data, p - 1), data[p])
}

/// No position of `data`, read after `prev`, shows an error.
pub open spec fn chunk_clean(prev: Seq<u8>, data: Seq<u8>) -> bool {
    forall|p: int| 0 <= p < data.len() ==> #[trigger] chunk_error_at(prev, data, p) == 0
}

/// A sixteen-entry table holds `f` of each index.
pub proof fn lemma_table(t: Seq<u8>, f: spec_fn(u8) -> u8)
    requires
        t =~= seq![
            f(0), f(1), f(2), f(3), f(4), f(5), f(6), f(7),
            f(8), f(9), f(10), f(11), f(12), f(13), f(14), f(15),
        ],
    ensures
        forall|k: u8| k < 16 ==> #[trigger] t[k as int] == f(k),
{
    assert forall|k: u8| k < 16 implies #[trigger] t[k as int] == f(k) by {
        assert(k == 0 || k == 1 || k == 2 || k == 3 || k == 4 || k == 5 || k == 6 || k == 7
            || k == 8 || k == 9 || k == 10 || k == 11 || k == 12 || k == 13 || k == 14 || k
            == 15);
    }
}

/// An or of bytes is zero exactly when both are.
pub proof fn lemma_or_zero()
    by (bit_vector)
    ensures
        forall|a: u8, b: u8| #[trigger] (a | b) == 0 <==> a == 0 && b == 0,
{
}

/// Scanning `seen` and then `data` is scanning `data` after the last sixteen
/// bytes of `seen`.
pub proof fn lemma_scan_append(seen: Seq<u8>, data: Seq<u8>)
    ensures
        scan_clean(seen + data) == (scan_clean(seen) && chunk_clean(last16(seen), data)),
{
    let s = seen + data;
    let n = seen.len() as int;
    assert forall|j: int| j < n implies #[trigger] at(s, j) == at(seen, j) by {}
    assert forall|i: int| 0 <= i < n implies #[trigger] error_at(s, i) == error_at(seen, i) by {
        assert(at(s, i - 3) == at(seen, i - 3));
        assert(at(s, i - 2) == at(seen, i - 2));
        assert(at(s, i - 1) == at(seen, i - 1));
    }
    assert forall|p: int| 0 <= p < data.len() implies #[trigger] error_at(s, n + p)
        == chunk_error_at(last16(seen), data, p) by {
        assert(at(s, n + p - 3) == win(last16(seen), data, p - 3));
        assert(at(s, n + p - 2) == win(last16(seen), data, p - 2));
        assert(at(s, n + p - 1) == win(last16(seen), data, p - 1));
    }
    if scan_clean(s) {
        assert forall|i: int| 0 <= i < n implies #[trigger] error_at(seen, i) == 0 by {
            assert(error_at(s, i) == 0);
        }
        assert forall|p: int| 0 <= p < data.len() implies #[trigger] chunk_error_at(
            last16(seen),
            data,
            p,
        ) == 0 by {
            assert(error_at(s, n + p) == 0);
        }
    }
    if scan_clean(seen) && chunk_clean(last16(seen), data) {
        assert forall|i: int| 0 <= i < s.len() implies #[trigger] error_at(s, i) == 0 by {
            if i < n {
                assert(error_at(seen, i) == 0);
            } else {
                assert(chunk_error_at(last16(seen), data, i - n) == 0);
                assert(error_at(s, n + (i - n)) == 0);
            }
        }
    }
}

/// What `is_incomplete` makes of the sixteen bytes `p`: lanes 13, 14 and 15
/// hold by how much the byte exceeds `0xef`, `0xdf` and `0xbf`; the other
/// lanes are zero.
pub open spec fn incomplete_of(p: Seq<u8>) -> Seq<u8> {
    Seq::new(
        16,
        |i: int|
            if i == 13 {
                sat_sub(p[13], 0xef)
            } else if i == 14 {
                sat_sub(p[14], 0xdf)
            } else if i == 15 {
                sat_sub(p[15], 0xbf)
            } else {
                0u8
            },
    )
}

/// The last three bytes of `s` are ASCII (positions before the start read
/// as zero).
pub open spec fn ascii_tail(s: Seq<u8>) -> bool {
    let n = s.len() as int;
    at(s, n - 3) < 0x80 && at(s, n - 2) < 0x80 && at(s, n - 1) < 0x80
}

/// The or of the error bits that lane `i` collects from the four blocks of
/// the 64 bytes `data`, read after the sixteen bytes `prev`.
pub open spec fn chunk_lane_errors(prev: Seq<u8>, data: Seq<u8>, i: int) -> u8 {
    chunk_error_at(prev, data, i) | chunk_error_at(prev, data, 16 + i) | chunk_error_at(
        prev,
        data,
        32 + i,
    ) | chunk_error_at(prev, data, 48 + i)
}

/// `incomplete_of(p)` is all zero exactly when no lead byte among the last
/// three of `p` waits for more bytes.
pub proof fn lemma_incomplete_zero(p: Seq<u8>)
    requires
        p.len() == 16,
    ensures
        all_zero(incomplete_of(p)) == (p[13] < 0xf0 && p[14] < 0xe0 && p[15] < 0xc0),
{
    let q = incomplete_of(p);
    assert(q[13] == sat_sub(p[13], 0xef) && q[14] == sat_sub(p[14], 0xdf) && q[15] == sat_sub(
        p[15],
        0xbf,
    ));
}

/// Lanes that are the or of two vectors are all zero exactly when both
/// vectors are.
pub proof fn lemma_or_all_zero(a: Seq<u8>, b: Seq<u8>, c: Seq<u8>)
    requires
        forall|i: int| 0 <= i < 16 ==> #[trigger] c[i] == a[i] | b[i],
    ensures
        all_zero(c) == (all_zero(a) && all_zero(b)),
{
    lemma_or_zero();
    if all_zero(c) {
        assert forall|i: int| 0 <= i < 16 implies #[trigger] a[i] == 0 by {
            assert(c[i] == 0);
        }
        assert forall|i: int| 0 <= i < 16 implies #[trigger] b[i] == 0 by {
            assert(c[i] == 0);
        }
    }
    if all_zero(a) && all_zero(b) {
        assert forall|i: int| 0 <= i < 16 implies #[trigger] c[i] == 0 by {
            assert(a[i] == 0 && b[i] == 0);
        }
    }
}

/// Before an ASCII byte, the lane error is zero exactly when no lead byte
/// among the three before it still waits for continuation bytes.
proof fn lemma_ascii_lane(b3: u8, b2: u8, b1: u8, b0: u8)
    by (bit_vector)
    requires
        b0 < 0x80,
    ensures
        (lane_error(b3, b2, b1, b0) == 0) == (b3 < 0xf0 && b2 < 0xe0 && b1 < 0xc0),
{
}

/// Three bytes that leave no lead byte waiting give the same verdict on
/// what follows as three ASCII bytes do.
proof fn lemma_complete_like_ascii(
    b3: u8,
    b2: u8,
    b1: u8,
    a3: u8,
    a2: u8,
    a1: u8,
    x: u8,
    y: u8,
    z: u8,
)
    by (bit_vector)
    requires
        b3 < 0xf0,
        b2 < 0xe0,
        b1 < 0xc0,
        a3 < 0x80,
        a2 < 0x80,
        a1 < 0x80,
    ensures
        (lane_error(b3, b2, b1, x) == 0) == (lane_error(a3, a2, a1, x) == 0),
        (lane_error(b2, b1, x, y) == 0) == (lane_error(a2, a1, x, y) == 0),
        (lane_error(b1, x, y, z) == 0) == (lane_error(a1, x, y, z) == 0),
{
}

/// ASCII bytes after `prev` are clean exactly when `prev` leaves no lead
/// byte waiting.
pub proof fn lemma_ascii_chunk_clean(prev: Seq<u8>, data: Seq<u8>)
    requires
        prev.len() == 16,
        data.len() >= 3,
        all_ascii(data),
    ensures
        chunk_clean(prev, data) == (prev[13] < 0xf0 && prev[14] < 0xe0 && prev[15] < 0xc0),
{
    lemma_ascii_lane(prev[13], prev[14], prev[15], data[0]);
    assert(chunk_error_at(prev, data, 0) == lane_error(prev[13], prev[14], prev[15], data[0]));
    if prev[13] < 0xf0 && prev[14] < 0xe0 && prev[15] < 0xc0 {
        assert forall|p: int| 0 <= p < data.len() implies #[trigger] chunk_error_at(prev, data, p)
            == 0 by {
            lemma_ascii_lane(
                win(prev, data, p - 3),
                win(prev, data, p - 2),
                win(prev, data, p - 1),
                data[p],
            );
        }
    }
}

/// When `p` leaves no lead byte waiting and `q` ends with three ASCII
/// bytes, a chunk read after either is clean or not alike.
pub proof fn lemma_stale_previous(p: Seq<u8>, q: Seq<u8>, data: Seq<u8>)
    requires
        p.len() == 16,
        q.len() == 16,
        data.len() >= 3,
        p[13] < 0xf0,
        p[14] < 0xe0,
        p[15] < 0xc0,
        q[13] < 0x80,
        q[14] < 0x80,
        q[15] < 0x80,
    ensures
        chunk_clean(p, data) == chunk_clean(q, data),
{
    lemma_complete_like_ascii(p[13], p[14], p[15], q[13], q[14], q[15], data[0], data[1], data[2]);
    assert forall|i: int| 0 <= i < data.len() implies (#[trigger] chunk_error_at(p, data, i) == 0)
        == (chunk_error_at(q, data, i) == 0) by {
        if i >= 3 {
            assert(chunk_error_at(p, data, i) == chunk_error_at(q, data, i));
        }
    }
    if chunk_clean(p, data) {
        assert forall|i: int| 0 <= i < data.len() implies #[trigger] chunk_error_at(q, data, i)
            == 0 by {
            assert(chunk_error_at(p, data, i) == 0);
        }
    }
    if chunk_clean(q, data) {
        assert forall|i: int| 0 <= i < data.len() implies #[trigger] chunk_error_at(p, data, i)
            == 0 by {
            assert(chunk_error_at(q, data, i) == 0);
        }
    }
}

// States of a byte-at-a-time UTF-8 recogniser, used to relate the lane
// errors to well-formedness. A lead byte that no continuation can make
// well-formed leads to `DOOMED`, which rejects whatever follows.
const ACCEPT: u8 = 0;
const NEED1: u8 = 1;
const NEED2: u8 = 2;
const NEED2_E0: u8 = 3;
const NEED2_ED: u8 = 4;
const NEED3: u8 = 5;
const NEED3_F0: u8 = 6;
const NEED3_F4: u8 = 7;
const DOOMED: u8 = 8;
const REJECT: u8 = 9;
const UNKNOWN: u8 = 10;

spec fn is_cont(b: u8) -> bool {
    0x80 <= b < 0xc0
}

/// The state after a byte read at a character boundary.
spec fn lead_state(b: u8) -> u8 {
    if b < 0x80 {
        ACCEPT
    } else if b < 0xc0 {
        REJECT
    } else if b < 0xc2 {
        DOOMED
    } else if b < 0xe0 {
        NEED1
    } else if b == 0xe0 {
        NEED2_E0
    } else if b == 0xed {
        NEED2_ED
    } else if b < 0xf0 {
        NEED2
    } else if b == 0xf0 {
        NEED3_F0
    } else if b < 0xf4 {
        NEED3
    } else if b == 0xf4 {
        NEED3_F4
    } else {
        DOOMED
    }
}

/// One step of the recogniser.
spec fn step(st: u8, b: u8) -> u8 {
    if st == ACCEPT {
        lead_state(b)
    } else if st == NEED1 {
        if is_cont(b) { ACCEPT } else { REJECT }
    } else if st == NEED2 {
        if is_cont(b) { NEED1 } else { REJECT }
    } else if st == NEED2_E0 {
        if 0xa0 <= b < 0xc0 { NEED1 } else { REJECT }
    } else if st == NEED2_ED {
        if 0x80 <= b < 0xa0 { NEED1 } else { REJECT }
    } else if st == NEED3 {
        if is_cont(b) { NEED2 } else { REJECT }
    } else if st == NEED3_F0 {
        if 0x90 <= b < 0xc0 { NEED2 } else { REJECT }
    } else if st == NEED3_F4 {
        if 0x80 <= b < 0x90 { NEED2 } else { REJECT }
    } else {
        REJECT
    }
}

/// A step that also accepts `UNKNOWN`: some state inside a character, left
/// by continuation bytes whose lead lies further back. In a clean stream a
/// byte that is not a continuation can only follow a finished character.
spec fn step_from(st: u8, b: u8) -> u8 {
    if st == UNKNOWN {
        if is_cont(b) { UNKNOWN } else { lead_state(b) }
    } else {
        step(st, b)
    }
}

/// The recogniser's state after a clean stream that ends with `t3, t2, t1`,
/// read off those three bytes alone. Three continuation bytes in a row can
/// only end a four-byte character.
spec fn tail_state(t3: u8, t2: u8, t1: u8) -> u8 {
    let s3 = if is_cont(t3) { UNKNOWN } else { lead_state(t3) };
    let s1 = step_from(step_from(s3, t2), t1);
    if s1 == UNKNOWN { ACCEPT } else { s1 }
}

/// The lane error of the next byte is zero exactly when the recogniser
/// takes it, and then the three-byte read-off stays right.
proof fn lemma_window_step(t3: u8, t2: u8, t1: u8, b: u8)
    by (bit_vector)
    requires
        tail_state(t3, t2, t1) != REJECT,
    ensures
        (lane_error(t3, t2, t1, b) == 0) == (step(tail_state(t3, t2, t1), b) != REJECT),
        lane_error(t3, t2, t1, b) == 0 ==> step(tail_state(t3, t2, t1), b) == tail_state(t2, t1, b),
{
}

/// At the end of a clean stream, the end check passes exactly when the
/// recogniser accepts.
proof fn lemma_window_end(t3: u8, t2: u8, t1: u8)
    by (bit_vector)
    requires
        tail_state(t3, t2, t1) != REJECT,
    ensures
        (tail_state(t3, t2, t1) == ACCEPT) == (t3 < 0xf0 && t2 < 0xe0 && t1 < 0xc0),
{
}

/// The recogniser's state after reading `s` from `st`.
spec fn run_from(st: u8, s: Seq<u8>) -> u8
    decreases s.len(),
{
    if s.len() == 0 {
        st
    } else {
        run_from(step(st, s[0]), s.skip(1))
    }
}

/// Reading `a` then `b` is reading `a + b`.
proof fn lemma_run_concat(st: u8, a: Seq<u8>, b: Seq<u8>)
    ensures
        run_from(st, a + b) == run_from(run_from(st, a), b),
    decreases a.len(),
{
    if a.len() == 0 {
        assert(a + b =~= b);
    } else {
        assert((a + b)[0] == a[0]);
        assert((a + b).skip(1) =~= a.skip(1) + b);
        lemma_run_concat(step(st, a[0]), a.skip(1), b);
    }
}

/// Reading one more byte is one more step.
proof fn lemma_run_push(st: u8, a: Seq<u8>, b: u8)
    ensures
        run_from(st, a.push(b)) == step(run_from(st, a), b),
{
    lemma_run_concat(st, a, seq![b]);
    assert(a + seq![b] =~= a.push(b));
    let t = run_from(st, a);
    assert(seq![b].skip(1) =~= Seq::<u8>::empty());
    assert(run_from(t, seq![b]) == run_from(step(t, b), seq![b].skip(1)));
}

/// Nothing leads out of `REJECT` or `DOOMED` to `ACCEPT`.
proof fn lemma_dead(st: u8, s: Seq<u8>)
    requires
        st == REJECT || st == DOOMED,
    ensures
        run_from(st, s) != ACCEPT,
        st == REJECT ==> run_from(st, s) == REJECT,
    decreases s.len(),
{
    if s.len() > 0 {
        lemma_dead(REJECT, s.skip(1));
    }
}

/// A clean stream leaves the recogniser in the state that its last three
/// bytes show; a stream with an error leaves it in `REJECT`.
proof fn lemma_run_scan(s: Seq<u8>)
    ensures
        scan_clean(s) ==> run_from(ACCEPT, s) != REJECT && run_from(ACCEPT, s) == tail_state(
            at(s, s.len() - 3),
            at(s, s.len() - 2),
            at(s, s.len() - 1),
        ),
        !scan_clean(s) ==> run_from(ACCEPT, s) == REJECT,
    decreases s.len(),
{
    let n = s.len() as int;
    if n > 0 {
        let p = s.drop_last();
        let b = s.last();
        lemma_run_scan(p);
        assert(s =~= p.push(b));
        lemma_run_push(ACCEPT, p, b);
        assert forall|j: int| j < n - 1 implies #[trigger] at(s, j) == at(p, j) by {}
        assert forall|i: int| 0 <= i < n - 1 implies #[trigger] error_at(s, i) == error_at(p, i) by {
            assert(at(s, i - 3) == at(p, i - 3));
            assert(at(s, i - 2) == at(p, i - 2));
            assert(at(s, i - 1) == at(p, i - 1));
        }
        assert(at(s, n - 4) == at(p, n - 4) && at(s, n - 3) == at(p, n - 3) && at(s, n - 2) == at(
            p,
            n - 2,
        ));
        assert(error_at(s, n - 1) == lane_error(at(p, n - 4), at(p, n - 3), at(p, n - 2), b));
        if scan_clean(p) {
            lemma_window_step(at(p, n - 4), at(p, n - 3), at(p, n - 2), b);
            if error_at(s, n - 1) == 0 {
                assert forall|i: int| 0 <= i < n implies #[trigger] error_at(s, i) == 0 by {
                    if i < n - 1 {
                        assert(error_at(p, i) == 0);
                    }
                }
            }
        } else {
            let i = choose|i: int| 0 <= i < n - 1 && #[trigger] error_at(p, i) != 0;
            assert(error_at(s, i) != 0);
        }
    }
}

/// A two-byte form is overlong exactly for the leads `c0` and `c1`.
proof fn lemma_cp2(b0: u8, b1: u8)
    by (bit_vector)
    requires
        0xc0 <= b0 <= 0xdf,
        0x80 <= b1 <= 0xbf,
    ensures
        (0x80 <= codepoint_width_2(b0, b1)) == (b0 >= 0xc2),
        codepoint_width_2(b0, b1) <= 0x7ff,
{
}

/// The three-byte forms that are overlong or surrogates, by their first two
/// bytes.
proof fn lemma_cp3(b0: u8, b1: u8, b2: u8)
    by (bit_vector)
    requires
        0xe0 <= b0 <= 0xef,
        0x80 <= b1 <= 0xbf,
        0x80 <= b2 <= 0xbf,
    ensures
        (0x800 <= codepoint_width_3(b0, b1, b2)) == (b0 != 0xe0 || b1 >= 0xa0),
        (0xd800 <= codepoint_width_3(b0, b1, b2) <= 0xdfff) == (b0 == 0xed && b1 >= 0xa0),
{
}

/// The four-byte forms of code points from U+10000 to U+10FFFF, by their
/// first two bytes.
proof fn lemma_cp4(b0: u8, b1: u8, b2: u8, b3: u8)
    by (bit_vector)
    requires
        0xf0 <= b0 <= 0xf7,
        0x80 <= b1 <= 0xbf,
        0x80 <= b2 <= 0xbf,
        0x80 <= b3 <= 0xbf,
    ensures
        (0x10000 <= codepoint_width_4(b0, b1, b2, b3) <= 0x10ffff) == (b0 <= 0xf4 && (b0 != 0xf0
            || b1 >= 0x90) && (b0 != 0xf4 || b1 < 0x90)),
{
}

/// The recogniser reads a well-formed first character back to `ACCEPT`, and
/// never accepts a stream whose first character is not well-formed.
proof fn lemma_first_scalar(s: Seq<u8>)
    requires
        s.len() > 0,
    ensures
        valid_first_scalar(s) ==> run_from(ACCEPT, s) == run_from(ACCEPT, pop_first_scalar(s)),
        !valid_first_scalar(s) ==> run_from(ACCEPT, s) != ACCEPT,
{
    let n = s.len();
    let b0 = s[0];
    let st1 = step(ACCEPT, b0);
    let r1 = s.skip(1);
    assert(run_from(ACCEPT, s) == run_from(st1, r1));
    if b0 < 0x80 {
        assert((b0 & 0x7f) as u32 <= 0x7f) by (bit_vector);
        assert(pop_first_scalar(s) =~= r1);
    } else if b0 < 0xc0 || b0 >= 0xf8 {
        lemma_dead(st1, r1);
    } else if n == 1 {
    } else {
        let b1 = s[1];
        let st2 = step(st1, b1);
        let r2 = r1.skip(1);
        assert(r1[0] == b1);
        assert(run_from(st1, r1) == run_from(st2, r2));
        if st2 == REJECT {
            lemma_dead(st2, r2);
            if n >= 3 && 0xe0 <= b0 <= 0xef && 0x80 <= b1 <= 0xbf && 0x80 <= s[2] <= 0xbf {
                lemma_cp3(b0, b1, s[2]);
            }
            if n >= 4 && 0xf0 <= b0 <= 0xf7 && 0x80 <= b1 <= 0xbf && 0x80 <= s[2] <= 0xbf && 0x80
                <= s[3] <= 0xbf {
                lemma_cp4(b0, b1, s[2], s[3]);
            }
            if 0xc0 <= b0 <= 0xdf && 0x80 <= b1 <= 0xbf {
                lemma_cp2(b0, b1);
            }
        } else if b0 < 0xe0 {
            lemma_cp2(b0, b1);
            assert(pop_first_scalar(s) =~= r2);
        } else if n == 2 {
        } else {
            let b2 = s[2];
            let st3 = step(st2, b2);
            let r3 = r2.skip(1);
            assert(r2[0] == b2);
            assert(run_from(st2, r2) == run_from(st3, r3));
            if st3 == REJECT {
                lemma_dead(st3, r3);
            } else if b0 < 0xf0 {
                lemma_cp3(b0, b1, b2);
                assert(pop_first_scalar(s) =~= r3);
            } else if n == 3 {
            } else {
                let b3 = s[3];
                let st4 = step(st3, b3);
                let r4 = r3.skip(1);
                assert(r3[0] == b3);
                assert(run_from(st3, r3) == run_from(st4, r4));
                if st4 == REJECT {
                    lemma_dead(st4, r4);
                } else {
                    lemma_cp4(b0, b1, b2, b3);
                    assert(pop_first_scalar(s) =~= r4);
                }
            }
        }
    }
}

/// The recogniser accepts exactly the valid UTF-8.
proof fn lemma_valid_run(s: Seq<u8>)
    ensures
        valid_utf8(s) == (run_from(ACCEPT, s) == ACCEPT),
    decreases s.len(),
{
    if s.len() > 0 {
        lemma_first_scalar(s);
        if valid_first_scalar(s) {
            lemma_valid_run(pop_first_scalar(s));
        }
    }
}

/// A byte sequence is valid UTF-8 exactly when no position of it shows a
/// lane error and no lead byte near its end waits for more bytes.
pub proof fn lemma_scan_is_utf8(s: Seq<u8>)
    ensures
        (scan_clean(s) && tail_complete(s)) == valid_utf8(s),
{
    lemma_run_scan(s);
    lemma_valid_run(s);
    if scan_clean(s) {
        lemma_window_end(at(s, s.len() - 3), at(s, s.len() - 2), at(s, s.len() - 1));
    }
}

/// All bytes of `s` are ASCII.
pub open spec fn all_ascii(s: Seq<u8>) -> bool {
    forall|i: int| 0 <= i < s.len() ==> #[trigger] s[i] < 0x80
}

/// ASCII keeps `ACCEPT`, and ends every other state.
proof fn lemma_run_ascii(st: u8, a: Seq<u8>)
    requires
        all_ascii(a),
    ensures
        st == ACCEPT ==> run_from(st, a) == ACCEPT,
        st != ACCEPT && a.len() > 0 ==> run_from(st, a) == REJECT,
    decreases a.len(),
{
    if a.len() > 0 {
        let st1 = step(st, a[0]);
        assert(all_ascii(a.skip(1)));
        lemma_run_ascii(st1, a.skip(1));
        if st != ACCEPT {
            lemma_dead(REJECT, a.skip(1));
        }
    }
}

/// Taking a run of ASCII bytes out of valid UTF-8 leaves valid UTF-8: ASCII
/// bytes stand only between whole characters.
pub proof fn lemma_drop_ascii(x: Seq<u8>, a: Seq<u8>, y: Seq<u8>)
    requires
        all_ascii(a),
        valid_utf8(x + a + y),
    ensures
        valid_utf8(x + y),
{
    lemma_valid_run(x + a + y);
    lemma_valid_run(x + y);
    lemma_run_concat(ACCEPT, x + a, y);
    lemma_run_concat(ACCEPT, x, a);
    lemma_run_concat(ACCEPT, x, y);
    let sx = run_from(ACCEPT, x);
    lemma_run_ascii(sx, a);
    if sx != ACCEPT && a.len() > 0 {
        lemma_dead(REJECT, y);
    }
    if a.len() == 0 {
        assert(x + a =~= x);
    }
}

/// A byte sequence of ASCII alone is valid UTF-8.
pub proof fn lemma_ascii_valid(a: Seq<u8>)
    requires
        all_ascii(a),
    ensures
        valid_utf8(a),
{
    lemma_run_ascii(ACCEPT, a);
    lemma_valid_run(a);
}

/// An error seen in a stream stays seen whatever bytes follow.
pub proof fn lemma_scan_prefix(s: Seq<u8>, t: Seq<u8>)
    ensures
        scan_clean(s + t) ==> scan_clean(s),
{
    if scan_clean(s + t) {
        assert forall|i: int| 0 <= i < s.len() implies #[trigger] error_at(s, i) == 0 by {
            assert(error_at(s + t, i) == 0);
            assert(at(s + t, i - 3) == at(s, i - 3));
            assert(at(s + t, i - 2) == at(s, i - 2));
            assert(at(s + t, i - 1) == at(s, i - 1));
        }
    }
}

/// Valid UTF-8 followed by the start of a multi-byte character cut short
/// (`c2`, `e0 a0` or `f0 90 80`) is not valid UTF-8, and the lane scan
/// with its end check rejects it.
pub proof fn lemma_truncated_tail(p: Seq<u8>, t: Seq<u8>)
    requires
        valid_utf8(p),
        t == seq![0xc2u8] || t == seq![0xe0u8, 0xa0u8] || t == seq![0xf0u8, 0x90u8, 0x80u8],
    ensures
        !valid_utf8(p + t),
        !(scan_clean(p + t) && tail_complete(p + t)),
{
    lemma_valid_run(p);
    lemma_valid_run(p + t);
    lemma_run_concat(ACCEPT, p, t);
    reveal_with_fuel(run_from, 4);
    lemma_scan_is_utf8(p + t);
}

} // verus!
