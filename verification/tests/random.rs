use str_indices::chars::{count, count_impl, from_byte_idx, to_byte_idx, to_byte_idx_impl};

/// Deterministic 64-bit linear congruential generator.
fn lcg(state: &mut u64) -> u64 {
    *state = state
        .wrapping_mul(6364136223846793005)
        .wrapping_add(1442695040888963407);
    *state >> 16
}

/// A pseudo-random well-formed UTF-8 string of at least `min_bytes` bytes,
/// mixing 1-, 2-, 3- and 4-byte characters.
fn random_utf8(seed: u64, min_bytes: usize) -> String {
    let mut state = seed;
    let mut s = String::new();
    while s.len() < min_bytes {
        let r = lcg(&mut state);
        let c = match r % 4 {
            0 => char::from_u32(0x21 + (r / 7) as u32 % 0x5E).unwrap(),
            1 => char::from_u32(0x80 + (r / 7) as u32 % 0x700).unwrap(),
            2 => char::from_u32(0x4E00 + (r / 7) as u32 % 0x1000).unwrap(),
            _ => char::from_u32(0x10000 + (r / 7) as u32 % 0x1000).unwrap(),
        };
        s.push(c);
    }
    s
}

fn naive_count(bytes: &[u8]) -> usize {
    bytes.iter().filter(|&&b| (b & 0xC0) != 0x80).count()
}

fn naive_to_byte_idx(bytes: &[u8], char_idx: usize) -> usize {
    let mut char_count = 0usize;
    let mut byte_count = 0usize;
    for &b in bytes {
        if (b & 0xC0) != 0x80 {
            char_count += 1;
        }
        if char_count > char_idx {
            break;
        }
        byte_count += 1;
    }
    byte_count
}

#[test]
fn random_long_count_matches_naive_scan() {
    // Spans several accumulation rounds (a round covers 4080 bytes).
    let s = random_utf8(0xDEADBEEF, 13000);
    assert_eq!(count(&s), s.chars().count());
    assert_eq!(count(&s), naive_count(s.as_bytes()));
}

#[test]
fn random_long_to_byte_idx_matches_naive_at_every_index() {
    let s = random_utf8(42, 13000);
    let boundaries: Vec<usize> = s.char_indices().map(|(b, _)| b).collect();
    for (i, &b) in boundaries.iter().enumerate() {
        assert_eq!(to_byte_idx(&s, i), b);
    }
    for i in boundaries.len()..boundaries.len() + 4 {
        assert_eq!(to_byte_idx(&s, i), s.len());
    }
}

#[test]
fn random_long_from_byte_idx_matches_naive_at_every_offset() {
    let s = random_utf8(7, 13000);
    let bytes = s.as_bytes();
    // Expected index of the char containing byte i: one less than the
    // number of char starts in bytes[0..=i].
    let mut expected = 0usize;
    for i in 0..bytes.len() {
        if (bytes[i] & 0xC0) != 0x80 {
            expected = naive_count(&bytes[..i + 1]) - 1;
        }
        assert_eq!(from_byte_idx(&s, i), expected);
    }
    assert_eq!(from_byte_idx(&s, bytes.len()), s.chars().count());
    assert_eq!(from_byte_idx(&s, bytes.len() + 100), s.chars().count());
}

#[test]
fn count_impl_tolerates_malformed_bytes() {
    // Continuation bytes with no leading byte, truncated sequences, and
    // stray high bytes: the count is still the non-continuation count.
    let cases: Vec<Vec<u8>> = vec![
        vec![],
        vec![0x80],
        vec![0x80, 0x80, 0x80],
        vec![0xE0, 0x80],
        vec![0xFF, 0x80, 0x41],
        vec![0x41, 0x80, 0x80, 0x80, 0x42],
    ];
    for c in &cases {
        assert_eq!(count_impl(c), naive_count(c));
    }
    // A long malformed buffer exercising the chunked path.
    let mut state = 99u64;
    let mut buf = Vec::new();
    for _ in 0..9000 {
        buf.push((lcg(&mut state) % 256) as u8);
    }
    assert_eq!(count_impl(&buf), naive_count(&buf));
}

#[test]
fn to_byte_idx_impl_matches_naive_on_malformed_bytes() {
    let mut state = 1234u64;
    let mut buf = Vec::new();
    for _ in 0..700 {
        buf.push((lcg(&mut state) % 256) as u8);
    }
    let n = naive_count(&buf);
    for i in 0..n + 3 {
        assert_eq!(to_byte_idx_impl(&buf, i), naive_to_byte_idx(&buf, i));
    }
}

#[test]
fn to_byte_idx_impl_long_buffer_matches_naive_sampled() {
    let mut state = 555u64;
    let mut buf = Vec::new();
    for _ in 0..9000 {
        // Bias toward valid-looking text but keep arbitrary bytes.
        let b = (lcg(&mut state) % 256) as u8;
        buf.push(b);
    }
    let n = naive_count(&buf);
    let mut i = 0usize;
    while i <= n + 2 {
        assert_eq!(to_byte_idx_impl(&buf, i), naive_to_byte_idx(&buf, i));
        i += 97;
    }
}
