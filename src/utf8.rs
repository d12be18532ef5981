//! The entry point: a byte slice in and, when it is valid UTF-8, a string
//! slice over the same bytes out.
use vstd::prelude::*;
use vstd::string::StringSliceAdditionalSpecFns;
use vstd::utf8::{valid_utf8, valid_utf8_concat};

use crate::error::Utf8Error;
use crate::model::{
    all_ascii, lemma_ascii_valid, lemma_drop_ascii, lemma_scan_is_utf8, lemma_scan_prefix,
};
use crate::validator::Utf8Validator;

verus! {

/// Inputs shorter than this many bytes are checked by `core`'s
/// byte-at-a-time validator: for them the chunk set-up costs more than it
/// saves.
pub const SHORT_INPUT: usize = 128;

/// `n` zero bytes.
pub open spec fn zeros(n: int) -> Seq<u8> {
    Seq::new(n as nat, |i: int| 0u8)
}

/// ASCII padding on either side changes nothing about validity.
pub proof fn lemma_padding(z1: Seq<u8>, v: Seq<u8>, z2: Seq<u8>)
    requires
        all_ascii(z1),
        all_ascii(z2),
    ensures
        valid_utf8(z1 + v + z2) == valid_utf8(v),
{
    let e = Seq::<u8>::empty();
    if valid_utf8(v) {
        lemma_ascii_valid(z1);
        lemma_ascii_valid(z2);
        valid_utf8_concat(z1, v);
        valid_utf8_concat(z1 + v, z2);
    }
    if valid_utf8(z1 + v + z2) {
        assert(e + z1 + (v + z2) =~= z1 + v + z2);
        lemma_drop_ascii(e, z1, v + z2);
        assert(e + (v + z2) =~= v + z2);
        assert(v + z2 + e =~= v + z2);
        lemma_drop_ascii(v, z2, e);
        assert(v + e =~= v);
    }
}

/// Valid UTF-8 shows no lane error in any prefix.
proof fn lemma_valid_prefix(x: Seq<u8>, y: Seq<u8>)
    ensures
        valid_utf8(x + y) ==> crate::model::scan_clean(x),
{
    lemma_scan_is_utf8(x + y);
    lemma_scan_prefix(x, y);
}

/// `v[from..to]` placed at byte `at` of 64 zero bytes.
fn padded_chunk(v: &[u8], from: usize, to: usize, at: usize) -> (r: [u8; 64])
    requires
        from <= to <= v@.len(),
        at + (to - from) <= 64,
    ensures
        r@ =~= zeros(at as int) + v@.subrange(from as int, to as int) + zeros(
            64 - at - (to - from),
        ),
{
    let mut out = [0u8; 64];
    let n = to - from;
    let mut i: usize = 0;
    while i < n
        invariant
            from <= to <= v@.len(),
            n == to - from,
            at + n <= 64,
            0 <= i <= n,
            forall|j: int|
                0 <= j < 64 ==> #[trigger] out@[j] == if at <= j < at + i {
                    v@[from + j - at]
                } else {
                    0u8
                },
        decreases n - i,
    {
        out[at + i] = v[from + i];
        i += 1;
    }
    out
}

/// Feeds `v` to a fresh validator in 64-byte chunks: first, when
/// `0 < offset < 64` and `offset < v.len()`, the first `offset` bytes placed
/// at the end of a zeroed chunk; then every whole chunk that follows; last,
/// what is left, followed by zeros. Stops at the first chunk that shows an
/// error. Whatever `offset` is, `Ok` comes back exactly for valid UTF-8.
#[verifier::rlimit(40)]
pub fn validate_chunks(v: &[u8], offset: usize) -> (r: Result<(), Utf8Error>)
    ensures
        (r is Ok) == valid_utf8(v@),
{
    let mut validator = Utf8Validator::new();
    let len = v.len();
    let ghost vs = v@;
    let ghost mut pre: Seq<u8> = Seq::empty();
    let mut pos: usize = 0;
    proof {
        assert(pre + vs.take(0) =~= Seq::<u8>::empty());
    }
    if 0 < offset && offset < 64 && offset < len {
        let chunk = padded_chunk(v, 0, offset, 64 - offset);
        let res = validator.next(&chunk);
        proof {
            pre = zeros(64 - offset);
            assert(chunk@ =~= pre + vs.take(offset as int));
            assert(Seq::<u8>::empty() + chunk@ =~= chunk@);
        }
        if res.is_err() {
            proof {
                let rest = vs.skip(offset as int);
                assert(pre + vs + Seq::<u8>::empty() =~= validator.seen() + rest);
                lemma_valid_prefix(validator.seen(), rest);
                lemma_padding(pre, vs, Seq::empty());
            }
            return Err(Utf8Error);
        }
        pos = offset;
    }
    while len - pos >= 64
        invariant
            len == vs.len(),
            vs == v@,
            pos <= len,
            all_ascii(pre),
            validator.wf(),
            !validator.tail_cut(),
            validator.clean(),
            validator.seen() == pre + vs.take(pos as int),
        decreases len - pos,
    {
        let chunk = padded_chunk(v, pos, pos + 64, 0);
        let ghost s0 = validator.seen();
        let res = validator.next(&chunk);
        proof {
            assert(s0 + chunk@ =~= pre + vs.take(pos + 64));
        }
        if res.is_err() {
            proof {
                let rest = vs.skip(pos + 64);
                assert(pre + vs + Seq::<u8>::empty() =~= validator.seen() + rest);
                lemma_valid_prefix(validator.seen(), rest);
                lemma_padding(pre, vs, Seq::empty());
            }
            return Err(Utf8Error);
        }
        pos = pos + 64;
    }
    let chunk = padded_chunk(v, pos, len, 0);
    let ghost s0 = validator.seen();
    let res = validator.next(&chunk);
    let ghost post = zeros(64 - (len - pos));
    proof {
        assert(s0 + chunk@ =~= pre + vs + post);
        lemma_padding(pre, vs, post);
    }
    if res.is_err() {
        proof {
            assert(validator.seen() + Seq::<u8>::empty() =~= validator.seen());
            lemma_valid_prefix(validator.seen(), Seq::empty());
        }
        return Err(Utf8Error);
    }
    validator.finish()
}

/// Converts a slice of bytes to a string slice over the same bytes, when
/// they are valid UTF-8.
///
/// Inputs of fewer than 128 bytes go to `core`'s validator. Longer ones are
/// run through the chunk validator, split at the memory alignment of `v`,
/// which decides validity on its own. The string slice then comes from
/// `core::str::from_utf8`, the one way safe code views bytes as `str`, so
/// those bytes are checked a second time.
pub fn from_utf8(v: &[u8]) -> (r: Result<&str, Utf8Error>)
    ensures
        (r is Ok) == valid_utf8(v@),
        r matches Ok(s) ==> s.spec_bytes() == v@,
{
    if v.len() >= SHORT_INPUT {
        let offset = align_offset_64(v);
        if validate_chunks(v, offset).is_err() {
            return Err(Utf8Error);
        }
    }
    match str_from_utf8(v) {
        Some(s) => Ok(s),
        None => Err(Utf8Error),
    }
}

/// Relies on `core::str::from_utf8`: `Some` exactly when the bytes are
/// valid UTF-8, and then a string slice over those same bytes.
#[verifier::external_body]
fn str_from_utf8(v: &[u8]) -> (r: Option<&str>)
    ensures
        (r is Some) == valid_utf8(v@),
        r matches Some(s) ==> s.spec_bytes() == v@,
{
    core::str::from_utf8(v).ok()
}

/// Relies on `pointer::align_offset`: the number of bytes from the start of
/// `v` to the next 64-byte boundary in memory. It depends on where `v` lies,
/// so nothing is stated of it.
#[verifier::external_body]
fn align_offset_64(v: &[u8]) -> (r: usize) {
    v.as_ptr().align_offset(64)
}

} // verus!
