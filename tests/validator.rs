use utf8simd::{
    is_ascii, is_incomplete, multibyte_lengths, must_be_2_3_continuation, special_cases,
    Simd8x16, Utf8Error, Utf8Validator,
};

fn chunk(bytes: &[u8]) -> [u8; 64] {
    bytes.try_into().unwrap()
}

fn padded(bytes: &[u8]) -> [u8; 64] {
    let mut out = [0u8; 64];
    out[..bytes.len()].copy_from_slice(bytes);
    out
}

fn lanes(v: Simd8x16) -> [u8; 16] {
    v.value()
}

#[test]
fn test_is_ascii() {
    let simd = chunk("832,qqq\n123,aaa\n456,bbb\n666,ccc\n321,qqq\n394,ddd\n123,ask\n291,aew\n".as_bytes());
    assert!(is_ascii(&simd));

    let simd = chunk("832,qqq\n😀234\n456,bbb\n666,ccc\n321,qqq\n394,ddd\n123,ask\n291,aew\n".as_bytes());
    assert!(!is_ascii(&simd));
}

#[test]
fn test_valid_utf8() {
    let mut v = Utf8Validator::new();

    let sequences = [
        "832,qqq\n123,aaa\n456,bbb\n666,ccc\n321,qqq\n394,ddd\n123,ask\n291,aew\n".as_bytes(),
        "832,qqq\n😀234\n456,bbb\n666,ccc\n321,qqq\n394,ddd\n123,ask\n291,aew\n".as_bytes(),
    ];

    for sequence in sequences {
        core::str::from_utf8(sequence).unwrap();
        let simd = chunk(sequence);
        v.next(&simd).unwrap();
    }
}

#[test]
fn test_invalid_utf8() {
    let sequences: [&[u8]; 2] = [
        b"832,qqq\n\xC1\x3F12234\n456,bbb\n666,ccc\n321,qqq\n394,ddd\n123,ask\n291,aew\n",
        b"\x1F\x8Babc,def\nabc,def\nabc,def\n,abc,def\nabc,def\nabc,def\nabc,def\nab,c\n",
    ];

    for sequence in sequences {
        let mut v = Utf8Validator::new();
        assert!(core::str::from_utf8(sequence).is_err());
        let simd = chunk(sequence);
        assert!(v.next(&simd).is_err());
    }
}

#[test]
fn fresh_validator_finishes_clean() {
    let mut v = Utf8Validator::default();
    assert_eq!(v.finish(), Ok(()));
}

#[test]
fn sequence_across_chunks() {
    // a four-byte character split 2 + 2 across the chunk boundary
    let mut first = [b'x'; 64];
    first[62] = 0xF0;
    first[63] = 0x9F;
    let mut second = [b'y'; 64];
    second[0] = 0x8C;
    second[1] = 0x8D;
    let mut v = Utf8Validator::new();
    assert_eq!(v.next(&first), Ok(()));
    assert_eq!(v.next(&second), Ok(()));
    assert_eq!(v.finish(), Ok(()));
}

#[test]
fn truncated_sequence_caught_by_finish() {
    for tail in [&b"\xC2"[..], &b"\xE0\xA0"[..], &b"\xF0\x90\x80"[..]] {
        let mut c = [b'q'; 64];
        c[64 - tail.len()..].copy_from_slice(tail);
        let mut v = Utf8Validator::new();
        assert_eq!(v.next(&c), Ok(()));
        assert_eq!(v.finish(), Err(Utf8Error));
    }
}

#[test]
fn error_is_kept() {
    let bad = padded(b"\xC0\x80 overlong nul");
    let good = padded("caf\u{e9}".as_bytes());
    let plain = [b'a'; 64];
    let mut v = Utf8Validator::new();
    assert_eq!(v.next(&bad), Err(Utf8Error));
    assert_eq!(v.next(&good), Err(Utf8Error));
    // an all-ASCII chunk keeps the recorded error too
    assert_eq!(v.next(&plain), Err(Utf8Error));
    assert_eq!(v.next(&good), Err(Utf8Error));
    assert_eq!(v.finish(), Err(Utf8Error));
    assert_eq!(v.finish(), Err(Utf8Error));
}

#[test]
fn lead_before_ascii_chunk_fails() {
    // the lead 0xC3 ends the first chunk and the next chunk opens with ASCII
    let mut first = [b'x'; 64];
    first[63] = 0xC3;
    let plain = [b'a'; 64];
    let mut third = [b'y'; 64];
    third[0] = 0xA9;
    let mut v = Utf8Validator::new();
    assert_eq!(v.next(&first), Ok(()));
    assert_eq!(v.next(&plain), Err(Utf8Error));
    assert_eq!(v.next(&third), Err(Utf8Error));
    assert_eq!(v.finish(), Err(Utf8Error));
}

#[test]
fn two_byte_lead_then_ascii_chunk_then_continuation() {
    let mut first = [b'A'; 64];
    first[63] = 0xC2;
    let plain = [b'A'; 64];
    let mut third = [0u8; 64];
    third[0] = 0xA9;
    let mut v = Utf8Validator::new();
    let _ = v.next(&first);
    let _ = v.next(&plain);
    let _ = v.next(&third);
    assert_eq!(v.finish(), Err(Utf8Error));
}

#[test]
fn ascii_chunk_between_complete_characters() {
    // the stale last block of the first chunk reads like ASCII afterwards
    let mut first = [b'x'; 64];
    first[62] = 0xC3;
    first[63] = 0xA9;
    let plain = [b'a'; 64];
    let mut third = [b'y'; 64];
    third[0] = 0xE2;
    third[1] = 0x82;
    third[2] = 0xAC;
    let mut v = Utf8Validator::new();
    assert_eq!(v.next(&first), Ok(()));
    assert_eq!(v.next(&plain), Ok(()));
    assert_eq!(v.next(&third), Ok(()));
    assert_eq!(v.finish(), Ok(()));
    let mut stray = [b'y'; 64];
    stray[0] = 0x80;
    let mut w = Utf8Validator::new();
    assert_eq!(w.next(&first), Ok(()));
    assert_eq!(w.next(&plain), Ok(()));
    assert_eq!(w.next(&stray), Err(Utf8Error));
}

#[test]
fn streaming_agrees_with_core() {
    let mut state: u64 = 0x0dd_ba11_cafe_f00d;
    let mut next = move || {
        state ^= state << 13;
        state ^= state >> 7;
        state ^= state << 17;
        state
    };
    let pieces: [&[u8]; 8] = [
        b"\xC2\xA9", b"\xE2\x82\xAC", b"\xF0\x9F\x8C\x8D", b"\x80", b"\xC2", b"\xE0\xA0",
        b"\xED\xA0\x80", b"\xF4\x90\x80\x80",
    ];
    for _ in 0..2000 {
        let n = 1 + (next() % 4) as usize;
        let mut chunks = Vec::new();
        for _ in 0..n {
            let mut c = [b'a'; 64];
            let r = next();
            if r % 3 != 0 {
                let p = pieces[((r >> 8) % 8) as usize];
                let at = if r % 2 == 0 { 64 - p.len() } else { ((r >> 16) % 60) as usize };
                c[at..at + p.len()].copy_from_slice(p);
            }
            if (r >> 24) % 5 == 0 {
                c[0] = 0x80 | ((r >> 32) as u8 & 0x3F);
            }
            chunks.push(c);
        }
        let all: Vec<u8> = chunks.iter().flat_map(|c| c.iter().copied()).collect();
        let mut v = Utf8Validator::new();
        for c in &chunks {
            let _ = v.next(c);
        }
        assert_eq!(v.finish().is_ok(), core::str::from_utf8(&all).is_ok(), "{:x?}", all);
    }
}

#[test]
fn incomplete_marks_last_three_lanes() {
    let mut b = [0u8; 16];
    b[13] = 0xF0;
    b[14] = 0xE0;
    b[15] = 0xC0;
    let r = lanes(is_incomplete(Simd8x16::new(
        b[0], b[1], b[2], b[3], b[4], b[5], b[6], b[7], b[8], b[9], b[10], b[11], b[12], b[13],
        b[14], b[15],
    )));
    assert_eq!(&r[..13], &[0u8; 13]);
    assert_eq!(r[13], 1);
    assert_eq!(r[14], 1);
    assert_eq!(r[15], 1);
    let r = lanes(is_incomplete(Simd8x16::new(
        0xFF, 0xFF, 0xFF, 0xFF, 0xFF, 0xFF, 0xFF, 0xFF, 0xFF, 0xFF, 0xFF, 0xFF, 0xFF, 0xEF, 0xDF,
        0xBF,
    )));
    assert_eq!(r, [0u8; 16]);
}

#[test]
fn special_cases_classes() {
    let prev = Simd8x16::new(
        b'a', 0xC2, 0xC0, 0xE0, 0xED, 0xF0, 0xF4, 0xF5, 0x80, b'a', 0xC2, 0xE1, 0xF1, 0xC1, 0x90,
        0xFF,
    );
    let data = Simd8x16::new(
        b'b', 0xA9, 0x80, 0x80, 0xA0, 0x80, 0x90, 0x80, 0x80, 0x80, b'z', 0x80, 0x80, 0xBF, b'c',
        b'd',
    );
    let r = lanes(special_cases(data, prev));
    assert_eq!(r[0], 0); // ASCII, ASCII
    assert_eq!(r[1], 0); // valid two-byte pair
    assert_eq!(r[2], 0x20); // overlong two-byte
    assert_eq!(r[3], 0x04); // overlong three-byte
    assert_eq!(r[4], 0x10); // surrogate
    assert_eq!(r[5], 0x40); // overlong four-byte
    assert_eq!(r[6], 0x08); // above U+10FFFF
    assert_eq!(r[7], 0x40); // lead 0xF5
    assert_eq!(r[8], 0x80); // two continuations
    assert_eq!(r[9], 0x02); // ASCII then continuation
    assert_eq!(r[10], 0x01); // lead then ASCII
    assert_eq!(r[11], 0); // three-byte lead then continuation
    assert_eq!(r[12], 0); // four-byte lead then continuation
    assert_eq!(r[13], 0x20); // overlong 0xC1
    assert_eq!(r[14], 0); // continuation then ASCII
    assert_eq!(r[15], 0x01); // 0xFF then ASCII
}

#[test]
fn continuation_requirements() {
    let previous = Simd8x16::splat(0);
    let data = Simd8x16::new(
        0xE2, 0x82, 0xAC, 0xF0, 0x9F, 0x8C, 0x8D, b'a', 0xE2, 0x82, b'b', b'c', 0, 0, 0, 0,
    );
    let prev2 = data.prev::<2>(previous);
    let prev3 = data.prev::<3>(previous);
    let must = lanes(must_be_2_3_continuation(prev2, prev3));
    assert_eq!(must[2], 0xE2 - 0x60);
    assert_eq!(must[5], (0xF0 - 0x60) | (0xAC - 0x70));
    assert_eq!(must[6], (0x9F - 0x60) | (0xF0 - 0x70));
    assert_eq!(must[0], 0);
    let prev1 = data.prev::<1>(previous);
    let sc = special_cases(data, prev1);
    let ml = lanes(multibyte_lengths(data, previous, sc));
    assert_eq!(&ml[..10], &[0u8; 10]);
    assert_eq!(ml[10], 0x80); // the third byte of the cut character is missing
}
