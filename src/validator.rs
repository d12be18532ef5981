//! The streaming validator: a state machine over 64-byte chunks that keeps,
//! between chunks, the last sixteen bytes it examined and the lead bytes
//! among them still waiting for continuation bytes.
use vstd::prelude::*;

use crate::error::Utf8Error;
use crate::model::{
    all_ascii, all_zero, ascii_tail, at, chunk_lane_errors, incomplete_of, lemma_ascii_chunk_clean,
    lemma_incomplete_zero, lemma_or_all_zero, lemma_stale_previous, chunk_clean, chunk_error_at, high_class, lane_error, last16,
    lemma_or_zero, lemma_scan_append, lemma_scan_is_utf8, lemma_scan_prefix, lemma_table,
    low_class, must_continue, next_class, pair_error, sat_sub, scan_clean, tail_complete, win,
    CARRY, OVERLONG_2, OVERLONG_3, OVERLONG_4, SURROGATE, TOO_LARGE, TOO_LARGE_1000, TOO_LONG,
    TOO_SHORT, TWO_CONTS,
};
use crate::simd::{lemma_lanes, Simd8x16};
use vstd::utf8::valid_utf8;

verus! {

broadcast use lemma_lanes;

/// A stateful UTF-8 validator fed 64-byte chunks in source order.
///
/// Each byte of a chunk is checked against the three bytes before it, and
/// every error found is kept for good. A chunk of ASCII alone is not looked
/// at byte by byte: it only turns a lead byte left waiting at the end of the
/// last examined chunk into an error. `finish` rejects a lead byte near the
/// end whose sequence was never completed.
pub struct Utf8Validator {
    /// Or of the error bits of every examined byte.
    error: Simd8x16,
    /// The last sixteen bytes of the last chunk that was not all ASCII.
    previous: Simd8x16,
    /// Nonzero lanes where a lead byte of `previous` lacks bytes after it.
    incomplete: Simd8x16,
    /// The chunks fed so far, in order.
    seen: Ghost<Seq<u8>>,
    /// `finish` has found an unfinished sequence at the end of `seen`.
    cut: Ghost<bool>,
}

impl Utf8Validator {
    /// The bytes of every chunk fed so far, in order.
    pub closed spec fn seen(&self) -> Seq<u8> {
        self.seen@
    }

    /// A call of `finish` found a sequence left unfinished at the end.
    pub closed spec fn tail_cut(&self) -> bool {
        self.cut@
    }

    /// The accumulated error lanes.
    pub closed spec fn error_bits(&self) -> Seq<u8> {
        self.error@
    }

    /// The last sixteen bytes of the last chunk that was not all ASCII.
    pub closed spec fn previous_block(&self) -> Seq<u8> {
        self.previous@
    }

    /// The lanes that mark lead bytes of `previous_block` left waiting.
    pub closed spec fn incomplete_bits(&self) -> Seq<u8> {
        self.incomplete@
    }

    /// No error has been recorded.
    pub open spec fn clean(&self) -> bool {
        !self.tail_cut() && scan_clean(self.seen())
    }

    /// The fields hold what the bytes fed determine. After all-ASCII chunks
    /// `previous` may lag behind `seen`; it then leaves no lead byte waiting
    /// unless an error is already recorded, and reads the same as ASCII.
    pub closed spec fn wf(&self) -> bool {
        &&& self.incomplete@ == incomplete_of(self.previous@)
        &&& all_zero(self.error@) == (!self.cut@ && scan_clean(self.seen@))
        &&& (self.previous@ == last16(self.seen@) || (ascii_tail(self.seen@) && (all_zero(
            self.error@,
        ) ==> all_zero(self.incomplete@))))
    }

    /// A validator that has seen nothing.
    pub fn new() -> (r: Self)
        ensures
            r.wf(),
            r.seen() == Seq::<u8>::empty(),
            !r.tail_cut(),
            all_zero(r.error_bits()),
            r.previous_block() == Seq::new(16, |i: int| 0u8),
    {
        let r = Utf8Validator {
            error: Simd8x16::splat(0),
            previous: Simd8x16::splat(0),
            incomplete: Simd8x16::splat(0),
            seen: Ghost(Seq::empty()),
            cut: Ghost(false),
        };
        assert(r.previous@ =~= last16(Seq::<u8>::empty()));
        assert(r.previous@ =~= Seq::new(16, |i: int| 0u8));
        assert(r.incomplete@ =~= incomplete_of(r.previous@));
        r
    }

    /// Validates one 64-byte chunk; `Ok` when no error has been recorded so
    /// far. An all-ASCII chunk only ors `incomplete` into `error`; any other
    /// is examined block by block.
    pub fn next(&mut self, data: &[u8; 64]) -> (r: Result<(), Utf8Error>)
        requires
            old(self).wf(),
        ensures
            final(self).wf(),
            final(self).seen() == old(self).seen() + data@,
            final(self).tail_cut() == old(self).tail_cut(),
            (r is Ok) == final(self).clean(),
            (r is Ok) == all_zero(final(self).error_bits()),
            !old(self).clean() ==> r is Err,
            all_ascii(data@) ==> {
                &&& final(self).previous_block() == old(self).previous_block()
                &&& final(self).incomplete_bits() == old(self).incomplete_bits()
                &&& forall|i: int|
                    0 <= i < 16 ==> #[trigger] final(self).error_bits()[i] == old(
                        self,
                    ).error_bits()[i] | old(self).incomplete_bits()[i]
            },
            !all_ascii(data@) ==> {
                &&& final(self).previous_block() == data@.subrange(48, 64)
                &&& final(self).incomplete_bits() == incomplete_of(data@.subrange(48, 64))
                &&& forall|i: int|
                    0 <= i < 16 ==> #[trigger] final(self).error_bits()[i] == old(
                        self,
                    ).error_bits()[i] | chunk_lane_errors(old(self).previous_block(), data@, i)
            },
    {
        proof {
            lemma_scan_prefix(old(self).seen(), data@);
        }
        if is_ascii(data) {
            let inc = self.incomplete;
            self.error.bitor_assign(inc);
            proof {
                let s0 = self.seen@;
                let n = s0.len() as int;
                self.seen@ = s0 + data@;
                lemma_or_all_zero(old(self).error@, inc@, self.error@);
                lemma_scan_append(s0, data@);
                lemma_ascii_chunk_clean(last16(s0), data@);
                lemma_incomplete_zero(self.previous@);
                assert(last16(s0)[13] == at(s0, n - 3) && last16(s0)[14] == at(s0, n - 2)
                    && last16(s0)[15] == at(s0, n - 1));
                let s1 = self.seen@;
                assert(at(s1, n + 61) == data@[61] && at(s1, n + 62) == data@[62] && at(
                    s1,
                    n + 63,
                ) == data@[63]);
            }
            return self.check_error();
        }
        self.validate_utf8(data)
    }

    /// Ends the input: `incomplete` is ored into `error`, so that a lead
    /// byte whose sequence is not complete at the end becomes an error.
    /// `Ok` when no error has been recorded; on a fresh validator, exactly
    /// when the bytes fed are valid UTF-8.
    pub fn finish(&mut self) -> (r: Result<(), Utf8Error>)
        requires
            old(self).wf(),
        ensures
            final(self).wf(),
            final(self).seen() == old(self).seen(),
            final(self).tail_cut() == (old(self).tail_cut() || !tail_complete(old(self).seen())),
            final(self).previous_block() == old(self).previous_block(),
            final(self).incomplete_bits() == old(self).incomplete_bits(),
            forall|i: int|
                0 <= i < 16 ==> #[trigger] final(self).error_bits()[i] == old(self).error_bits()[i]
                    | old(self).incomplete_bits()[i],
            (r is Ok) == all_zero(final(self).error_bits()),
            (r is Ok) == final(self).clean(),
            (r is Ok) == (!old(self).tail_cut() && valid_utf8(old(self).seen())),
            !old(self).clean() ==> r is Err,
    {
        proof {
            lemma_scan_is_utf8(old(self).seen());
        }
        let inc = self.incomplete;
        self.error.bitor_assign(inc);
        proof {
            let s0 = self.seen@;
            let n = s0.len() as int;
            self.cut@ = self.cut@ || !tail_complete(s0);
            lemma_or_all_zero(old(self).error@, inc@, self.error@);
            lemma_incomplete_zero(self.previous@);
            assert(last16(s0)[13] == at(s0, n - 3) && last16(s0)[14] == at(s0, n - 2)
                && last16(s0)[15] == at(s0, n - 1));
        }
        self.check_error()
    }

    /// Examines a chunk block by block, each block after the sixteen bytes
    /// before it, and keeps its last block.
    fn validate_utf8(&mut self, data: &[u8; 64]) -> (r: Result<(), Utf8Error>)
        requires
            old(self).wf(),
        ensures
            final(self).wf(),
            final(self).seen() == old(self).seen() + data@,
            final(self).tail_cut() == old(self).tail_cut(),
            final(self).previous_block() == data@.subrange(48, 64),
            final(self).incomplete_bits() == incomplete_of(data@.subrange(48, 64)),
            forall|i: int|
                0 <= i < 16 ==> #[trigger] final(self).error_bits()[i] == old(self).error_bits()[i]
                    | chunk_lane_errors(old(self).previous_block(), data@, i),
            (r is Ok) == all_zero(final(self).error_bits()),
            (r is Ok) == final(self).clean(),
    {
        let c0 = Simd8x16::load(data, 0);
        let c1 = Simd8x16::load(data, 16);
        let c2 = Simd8x16::load(data, 32);
        let c3 = Simd8x16::load(data, 48);
        let previous = self.previous;
        let ghost e0 = self.error@;

        self.validate_utf8_chunk(c0, previous);
        self.validate_utf8_chunk(c1, c0);
        self.validate_utf8_chunk(c2, c1);
        self.validate_utf8_chunk(c3, c2);
        let ghost e4 = self.error@;

        proof {
            let d = data@;
            let pv = previous@;
            let s0 = self.seen@;
            let n = s0.len() as int;
            lemma_or_zero();
            lemma_scan_append(s0, d);
            assert forall|i: int| 0 <= i < 16 implies #[trigger] e4[i] == e0[i]
                | chunk_lane_errors(pv, d, i) by {
                assert(block_error(pv, c0@, i) == chunk_error_at(pv, d, i));
                assert(block_error(c0@, c1@, i) == chunk_error_at(pv, d, 16 + i));
                assert(block_error(c1@, c2@, i) == chunk_error_at(pv, d, 32 + i));
                assert(block_error(c2@, c3@, i) == chunk_error_at(pv, d, 48 + i));
                let (x, a, b, c, e) = (
                    e0[i],
                    chunk_error_at(pv, d, i),
                    chunk_error_at(pv, d, 16 + i),
                    chunk_error_at(pv, d, 32 + i),
                    chunk_error_at(pv, d, 48 + i),
                );
                assert(((((x | a) | b) | c) | e) == x | (((a | b) | c) | e)) by (bit_vector);
            }
            if all_zero(e4) {
                assert forall|p: int| 0 <= p < 64 implies #[trigger] chunk_error_at(pv, d, p)
                    == 0 by {
                    let i = p % 16;
                    assert(e4[i] == 0);
                    assert(p == i || p == 16 + i || p == 32 + i || p == 48 + i);
                }
                assert forall|i: int| 0 <= i < 16 implies #[trigger] e0[i] == 0 by {
                    assert(e4[i] == 0);
                }
            }
            if all_zero(e0) && chunk_clean(pv, d) {
                assert forall|i: int| 0 <= i < 16 implies #[trigger] e4[i] == 0 by {
                    assert(e0[i] == 0);
                    assert(chunk_error_at(pv, d, i) == 0);
                    assert(chunk_error_at(pv, d, 16 + i) == 0);
                    assert(chunk_error_at(pv, d, 32 + i) == 0);
                    assert(chunk_error_at(pv, d, 48 + i) == 0);
                }
            }
            if all_zero(e0) && pv != last16(s0) {
                lemma_incomplete_zero(pv);
                assert(last16(s0)[13] == at(s0, n - 3) && last16(s0)[14] == at(s0, n - 2)
                    && last16(s0)[15] == at(s0, n - 1));
                lemma_stale_previous(pv, last16(s0), d);
            }
        }

        self.incomplete = is_incomplete(c3);
        self.previous = c3;
        proof {
            self.seen@ = self.seen@ + data@;
            assert(self.previous@ =~= last16(self.seen@));
            assert(self.incomplete@ =~= incomplete_of(self.previous@));
        }
        self.check_error()
    }

    /// Ors into `error` the error bits of the sixteen bytes `data`, which
    /// follow the sixteen bytes `previous`.
    fn validate_utf8_chunk(&mut self, data: Simd8x16, previous: Simd8x16)
        ensures
            final(self).previous == old(self).previous,
            final(self).incomplete == old(self).incomplete,
            final(self).seen == old(self).seen,
            final(self).cut == old(self).cut,
            forall|i: int|
                0 <= i < 16 ==> #[trigger] final(self).error@[i] == old(self).error@[i]
                    | block_error(previous@, data@, i),
    {
        let prev1 = data.prev::<1>(previous);
        let sc = special_cases(data, prev1);
        let ml = multibyte_lengths(data, previous, sc);
        self.error.bitor_assign(ml);
    }

    /// `Ok` exactly when no error bit is set.
    fn check_error(&self) -> (r: Result<(), Utf8Error>)
        ensures
            (r is Ok) == all_zero(self.error@),
    {
        if self.error.is_zero() {
            Ok(())
        } else {
            Err(Utf8Error)
        }
    }
}

impl Default for Utf8Validator {
    fn default() -> (r: Self)
        ensures
            r.wf(),
            r.seen() == Seq::<u8>::empty(),
            !r.tail_cut(),
    {
        Self::new()
    }
}

/// The error bits of lane `i` of the sixteen bytes `data` that follow the
/// sixteen bytes `prev`.
pub open spec fn block_error(prev: Seq<u8>, data: Seq<u8>, i: int) -> u8 {
    lane_error(win(prev, data, i - 3), win(prev, data, i - 2), win(prev, data, i - 1), data[i])
}

/// True when all 64 bytes are ASCII: their or has bit 7 clear.
pub fn is_ascii(data: &[u8; 64]) -> (r: bool)
    ensures
        r == all_ascii(data@),
{
    let mut acc: u8 = 0;
    let mut i: usize = 0;
    assert(0u8 & 0x80 == 0) by (bit_vector);
    while i < 64
        invariant
            0 <= i <= 64,
            (acc & 0x80 == 0) == forall|j: int| 0 <= j < i ==> #[trigger] data@[j] < 0x80,
        decreases 64 - i,
    {
        let x = data[i];
        let ghost before = acc;
        acc = acc | x;
        proof {
            assert(acc & 0x80 == 0 <==> before & 0x80 == 0 && x < 0x80) by (bit_vector)
                requires
                    acc == before | x,
            ;
            assert(data@[i as int] == x);
        }
        i += 1;
    }
    (acc & 0x80) == 0
}

/// Nonzero lanes mark lead bytes among the last three of `data` whose
/// sequence needs more bytes than follow them: a four-byte lead in lane 13,
/// a three-byte or longer lead in lane 14, any lead in lane 15.
pub fn is_incomplete(data: Simd8x16) -> (r: Simd8x16)
    ensures
        forall|i: int|
            0 <= i < 13 ==> #[trigger] r@[i] == 0,
        r@[13] == sat_sub(data@[13], 0xef),
        r@[14] == sat_sub(data@[14], 0xdf),
        r@[15] == sat_sub(data@[15], 0xbf),
        all_zero(r@) == (data@[13] < 0xf0 && data@[14] < 0xe0 && data@[15] < 0xc0),
        r@ == incomplete_of(data@),
{
    let max_array = Simd8x16::new(
        255, 255, 255, 255, 255, 255, 255, 255,
        255, 255, 255, 255, 255, 0xf0 - 1, 0xe0 - 1, 0xc0 - 1,
    );
    let r = data.gt_bits(max_array);
    proof {
        assert(r@[13] == 0 <==> data@[13] < 0xf0);
        assert(r@[14] == 0 <==> data@[14] < 0xe0);
        assert(r@[15] == 0 <==> data@[15] < 0xc0);
        assert(r@ =~= incomplete_of(data@));
    }
    r
}

/// The error classes of each byte of `data` paired with the byte before it,
/// `previous`: three table lookups, by the high and the low nibble of the
/// earlier byte and by the high nibble of the later one, anded together.
pub fn special_cases(data: Simd8x16, previous: Simd8x16) -> (r: Simd8x16)
    ensures
        forall|i: int| 0 <= i < 16 ==> #[trigger] r@[i] == pair_error(previous@[i], data@[i]),
{
    let high_table = Simd8x16::new(
        // 0_______ ________ <ASCII in byte 1>
        TOO_LONG, TOO_LONG, TOO_LONG, TOO_LONG,
        TOO_LONG, TOO_LONG, TOO_LONG, TOO_LONG,
        // 10______ ________ <continuation in byte 1>
        TWO_CONTS, TWO_CONTS, TWO_CONTS, TWO_CONTS,
        // 1100____ ________ <two byte lead in byte 1>
        TOO_SHORT | OVERLONG_2,
        // 1101____ ________ <two byte lead in byte 1>
        TOO_SHORT,
        // 1110____ ________ <three byte lead in byte 1>
        TOO_SHORT | OVERLONG_3 | SURROGATE,
        // 1111____ ________ <four+ byte lead in byte 1>
        TOO_SHORT | TOO_LARGE | TOO_LARGE_1000 | OVERLONG_4,
    );
    let low_table = Simd8x16::new(
        // ____0000 ________
        CARRY | OVERLONG_3 | OVERLONG_2 | OVERLONG_4,
        // ____0001 ________
        CARRY | OVERLONG_2,
        // ____001_ ________
        CARRY,
        CARRY,
        // ____0100 ________
        CARRY | TOO_LARGE,
        // ____0101 ________
        CARRY | TOO_LARGE | TOO_LARGE_1000,
        // ____011_ ________
        CARRY | TOO_LARGE | TOO_LARGE_1000,
        CARRY | TOO_LARGE | TOO_LARGE_1000,
        // ____1___ ________
        CARRY | TOO_LARGE | TOO_LARGE_1000,
        CARRY | TOO_LARGE | TOO_LARGE_1000,
        CARRY | TOO_LARGE | TOO_LARGE_1000,
        CARRY | TOO_LARGE | TOO_LARGE_1000,
        CARRY | TOO_LARGE | TOO_LARGE_1000,
        // ____1101 ________
        CARRY | TOO_LARGE | TOO_LARGE_1000 | SURROGATE,
        CARRY | TOO_LARGE | TOO_LARGE_1000,
        CARRY | TOO_LARGE | TOO_LARGE_1000,
    );
    let next_table = Simd8x16::new(
        // ________ 0_______ <ASCII in byte 2>
        TOO_SHORT, TOO_SHORT, TOO_SHORT, TOO_SHORT,
        TOO_SHORT, TOO_SHORT, TOO_SHORT, TOO_SHORT,
        // ________ 1000____
        TOO_LONG | OVERLONG_2 | TWO_CONTS | OVERLONG_3 | TOO_LARGE_1000 | OVERLONG_4,
        // ________ 1001____
        TOO_LONG | OVERLONG_2 | TWO_CONTS | OVERLONG_3 | TOO_LARGE,
        // ________ 101_____
        TOO_LONG | OVERLONG_2 | TWO_CONTS | SURROGATE | TOO_LARGE,
        TOO_LONG | OVERLONG_2 | TWO_CONTS | SURROGATE | TOO_LARGE,
        // ________ 11______
        TOO_SHORT, TOO_SHORT, TOO_SHORT, TOO_SHORT,
    );
    proof {
        lemma_table(high_table@, |n: u8| high_class(n));
        lemma_table(low_table@, |n: u8| low_class(n));
        lemma_table(next_table@, |n: u8| next_class(n));
    }
    let byte_1_high = previous.shr::<4>().lookup_16(high_table);
    let byte_1_low = previous.bitand(Simd8x16::splat(0x0f)).lookup_16(low_table);
    let byte_2_high = data.shr::<4>().lookup_16(next_table);
    let r = byte_1_high.bitand(byte_1_low).bitand(byte_2_high);
    proof {
        assert forall|i: int| 0 <= i < 16 implies #[trigger] r@[i] == pair_error(
            previous@[i],
            data@[i],
        ) by {
            let b1 = previous@[i];
            let b0 = data@[i];
            assert(b1 >> 4 < 16 && b1 & 0x0f < 16 && b0 >> 4 < 16 && b1 & 0x0f == b1 & 15)
                by (bit_vector);
        }
    }
    r
}

/// Ors in the positions that must hold a continuation byte because a three-
/// or four-byte lead stands two or three bytes before, then xors that with
/// the pair classes `special_cases`: a continuation that is both required and
/// present cancels its two-continuations bit, one that is only one of the two
/// sets it.
pub fn multibyte_lengths(data: Simd8x16, previous: Simd8x16, special_cases: Simd8x16) -> (r:
    Simd8x16)
    ensures
        forall|i: int|
            0 <= i < 16 ==> #[trigger] r@[i] == must_continue(
                win(previous@, data@, i - 3),
                win(previous@, data@, i - 2),
            ) ^ special_cases@[i],
{
    let prev2 = data.prev::<2>(previous);
    let prev3 = data.prev::<3>(previous);
    let must23 = must_be_2_3_continuation(prev2, prev3);
    let must23_80 = must23.bitand(Simd8x16::splat(0x80));
    must23_80.bitxor(special_cases)
}

/// Lanes whose byte two before is at least `0xe0`, or three before at least
/// `0xf0`, have bit 7 set.
pub fn must_be_2_3_continuation(previous2: Simd8x16, previous3: Simd8x16) -> (r: Simd8x16)
    ensures
        forall|i: int|
            0 <= i < 16 ==> #[trigger] r@[i] == sat_sub(previous2@[i], 0x60) | sat_sub(
                previous3@[i],
                0x70,
            ),
{
    // only 111_____ will be >= 0x80
    let is_third_byte = previous2.saturating_sub(Simd8x16::splat(0xe0 - 0x80));
    // only 1111____ will be >= 0x80
    let is_fourth_byte = previous3.saturating_sub(Simd8x16::splat(0xf0 - 0x80));
    is_third_byte.bitor(is_fourth_byte)
}

} // verus!
