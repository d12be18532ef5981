use utf8simd::{from_utf8, validate_chunks, Utf8Error};

fn ascii(n: usize) -> Vec<u8> {
    (0..n).map(|i| b'a' + (i % 26) as u8).collect()
}

#[test]
fn valid_utf8() {
    let bytes = b"Hello, world!";
    let str = from_utf8(bytes).unwrap();
    assert_eq!(bytes, str.as_bytes());
}

#[test]
fn valid_utf8_empty() {
    let bytes = b"";
    let str = from_utf8(bytes).unwrap();
    assert_eq!(bytes, str.as_bytes());
}

#[test]
fn invalid_utf8() {
    let bytes = b"\x1F\x8Babcdefg";
    let err = from_utf8(bytes).unwrap_err();
    assert_eq!(err, Utf8Error);
}

#[test]
fn error_message() {
    assert_eq!(Utf8Error.message(), "invalid utf-8 sequence");
}

#[test]
fn long_ascii_accepted() {
    let bytes = vec![b'A'; 256];
    let s = from_utf8(&bytes).unwrap();
    assert_eq!(s.as_bytes(), &bytes[..]);
}

#[test]
fn overlong_two_byte_rejected() {
    let mut bytes = ascii(128);
    bytes.extend_from_slice(b"\xC1\x3F");
    bytes.extend_from_slice(&ascii(14));
    assert_eq!(from_utf8(&bytes), Err(Utf8Error));
    for off in 0..64 {
        assert_eq!(validate_chunks(&bytes, off), Err(Utf8Error));
    }
}

#[test]
fn surrogate_rejected() {
    let mut bytes = ascii(200);
    bytes.extend_from_slice(b"\xED\xA0\x80");
    bytes.extend_from_slice(&ascii(50));
    assert_eq!(from_utf8(&bytes), Err(Utf8Error));
    for off in 0..64 {
        assert_eq!(validate_chunks(&bytes, off), Err(Utf8Error));
    }
}

#[test]
fn above_max_code_point_rejected() {
    let mut bytes = ascii(200);
    bytes.extend_from_slice(b"\xF4\x90\x80\x80");
    assert_eq!(from_utf8(&bytes), Err(Utf8Error));
    for off in 0..64 {
        assert_eq!(validate_chunks(&bytes, off), Err(Utf8Error));
    }
}

#[test]
fn truncated_euro_rejected() {
    let mut bytes = ascii(200);
    bytes.extend_from_slice(b"\xE2\x82");
    assert_eq!(from_utf8(&bytes), Err(Utf8Error));
    for off in 0..64 {
        assert_eq!(validate_chunks(&bytes, off), Err(Utf8Error));
    }
}

#[test]
fn mixed_text_accepted() {
    let unit = "Hello, 世界! 🌍 Δ";
    let mut text = String::new();
    while text.len() < 128 {
        text.push_str(unit);
    }
    let s = from_utf8(text.as_bytes()).unwrap();
    assert_eq!(s, text);
    for off in 0..64 {
        assert_eq!(validate_chunks(text.as_bytes(), off), Ok(()));
    }
}

#[test]
fn lengths_around_threshold() {
    for &n in &[0usize, 1, 63, 64, 127, 128, 129] {
        let good = ascii(n);
        assert!(from_utf8(&good).is_ok(), "valid ascii of length {}", n);
        if n > 0 {
            let mut bad = good.clone();
            bad[n / 2] = 0x80;
            assert_eq!(from_utf8(&bad), Err(Utf8Error), "stray continuation at length {}", n);
            let mut cut = good.clone();
            cut[n - 1] = 0xE2;
            assert_eq!(from_utf8(&cut), Err(Utf8Error), "cut lead at length {}", n);
        }
        if n >= 2 {
            let mut two = ascii(n - 2);
            two.extend_from_slice("é".as_bytes());
            assert!(from_utf8(&two).is_ok(), "two-byte character at length {}", n);
        }
    }
}

#[test]
fn every_start_of_valid_text() {
    let mut text = String::from("Hello, ");
    while text.len() < 300 {
        text.push_str("世界! 🌍 Δ ascii ");
    }
    let bytes = text.as_bytes();
    for k in 0..8 {
        assert!(from_utf8(&bytes[k..]).is_ok(), "start {}", k);
    }
    for off in 0..70 {
        assert_eq!(validate_chunks(bytes, off), Ok(()), "offset {}", off);
    }
}

#[test]
fn error_found_from_every_start() {
    let mut bytes = ascii(300);
    bytes[150] = 0xFF;
    for k in 0..8 {
        assert_eq!(from_utf8(&bytes[k..]), Err(Utf8Error), "start {}", k);
    }
    for off in 0..70 {
        assert_eq!(validate_chunks(&bytes, off), Err(Utf8Error), "offset {}", off);
    }
}

#[test]
fn truncated_leads_after_valid_text() {
    for tail in [&b"\xC2"[..], &b"\xE0\xA0"[..], &b"\xF0\x90\x80"[..]] {
        for n in [10usize, 130, 190] {
            let mut bytes = ascii(n);
            bytes.extend_from_slice(tail);
            assert_eq!(from_utf8(&bytes), Err(Utf8Error));
            let mut whole = bytes.clone();
            whole.push(0x80);
            assert!(from_utf8(&whole).is_ok());
        }
    }
}

#[test]
fn agrees_with_core_on_pseudo_random_input() {
    let mut state: u64 = 0x1234_5678_9abc_def0;
    let mut next = move || {
        state ^= state << 13;
        state ^= state >> 7;
        state ^= state << 17;
        state
    };
    let pieces: [&[u8]; 12] = [
        b"a", b"\xC2\xA9", b"\xE2\x82\xAC", b"\xF0\x9F\x8C\x8D", b"\x80", b"\xC0\x80",
        b"\xED\xA0\x80", b"\xF4\x90\x80\x80", b"\xE0\x80\x80", b"\xFF", b"\xE2\x82", b"zz",
    ];
    for _ in 0..3000 {
        let len = (next() % 300) as usize;
        let mut bytes = Vec::new();
        while bytes.len() < len {
            let r = next();
            if r % 4 == 0 {
                bytes.push((r >> 8) as u8);
            } else if r % 4 == 1 {
                bytes.extend_from_slice(pieces[((r >> 8) % 4) as usize]);
            } else {
                bytes.extend_from_slice(pieces[((r >> 8) % 12) as usize]);
            }
        }
        let expected = core::str::from_utf8(&bytes).is_ok();
        assert_eq!(from_utf8(&bytes).is_ok(), expected, "input {:x?}", bytes);
        for off in [0usize, 1, 7, 33, 63, 64] {
            assert_eq!(validate_chunks(&bytes, off).is_ok(), expected, "offset {}", off);
        }
    }
}

#[test]
fn lead_cut_by_ascii_chunk_rejected() {
    // with whole chunks from the start, the lead 0xC3 ends the first chunk,
    // the second is all ASCII, and 0xA9 opens the third
    let mut bytes = vec![b'x'; 63];
    bytes.push(0xC3);
    bytes.extend_from_slice(&[b'a'; 64]);
    bytes.push(0xA9);
    bytes.extend_from_slice(&[b'y'; 63]);
    for off in 0..64 {
        assert_eq!(validate_chunks(&bytes, off), Err(Utf8Error), "offset {}", off);
    }
    assert_eq!(from_utf8(&bytes), Err(Utf8Error));
}
