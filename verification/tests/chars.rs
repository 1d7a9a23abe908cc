use str_indices::chars::{count, count_inline, from_byte_idx, to_byte_idx};

#[test]
fn count_ascii_hello() {
    let s = "Hello, world!";
    assert_eq!(count(s), 13);
    assert_eq!(count_inline(s), 13);
    assert_eq!(to_byte_idx(s, 5), 5);
}

#[test]
fn three_byte_chars() {
    let s = "\u{65E5}\u{672C}\u{8A9E}";
    assert_eq!(s.len(), 9);
    assert_eq!(count(s), 3);
    assert_eq!(to_byte_idx(s, 1), 3);
    assert_eq!(to_byte_idx(s, 3), 9);
    assert_eq!(from_byte_idx(s, 4), 1);
}

#[test]
fn empty_string() {
    let s = "";
    assert_eq!(count(s), 0);
    assert_eq!(to_byte_idx(s, 0), 0);
    assert_eq!(from_byte_idx(s, 0), 0);
}

#[test]
fn seek_to_count_is_one_past_end() {
    for s in ["", "a", "Hello, world!", "a\u{00E9}\u{65E5}\u{10300}z"] {
        let c = count(s);
        assert_eq!(to_byte_idx(s, c), s.len());
        assert_eq!(to_byte_idx(s, c + 1), s.len());
        assert_eq!(to_byte_idx(s, usize::MAX), s.len());
    }
}

#[test]
fn round_trip_at_every_boundary() {
    for s in ["", "abc", "a\u{00E9}\u{65E5}\u{10300}z", "\u{10300}\u{10301}"] {
        for (b, _) in s.char_indices() {
            assert_eq!(to_byte_idx(s, from_byte_idx(s, b)), b);
        }
        assert_eq!(to_byte_idx(s, from_byte_idx(s, s.len())), s.len());
    }
}

#[test]
fn from_byte_idx_in_range_and_monotone() {
    for s in ["", "abc", "a\u{00E9}\u{65E5}\u{10300}z", "\u{10300}\u{10301}"] {
        let c = count(s);
        let mut prev = 0;
        for i in 0..=s.len() + 3 {
            let r = from_byte_idx(s, i);
            assert!(r <= c);
            assert!(r >= prev);
            prev = r;
        }
        assert_eq!(from_byte_idx(s, s.len()), c);
    }
}

#[test]
fn from_byte_idx_snaps_into_char() {
    // One 4-byte char: every interior offset belongs to char 0.
    let s = "\u{10300}";
    assert_eq!(s.len(), 4);
    for i in 0..4 {
        assert_eq!(from_byte_idx(s, i), 0);
    }
    assert_eq!(from_byte_idx(s, 4), 1);
}

#[test]
fn count_matches_std_at_chunk_and_round_boundaries() {
    // SIZE = 16 and MAX_ACC = 255, so a full accumulation round covers
    // 4080 bytes; straddle both boundaries with ASCII and multi-byte text.
    for len in [15, 16, 17, 4079, 4080, 4081] {
        let s: String = std::iter::repeat('a').take(len).collect();
        assert_eq!(s.len(), len);
        assert_eq!(count(&s), s.chars().count());
        assert_eq!(count_inline(&s), s.chars().count());
    }
    for n in [7, 8, 9, 2039, 2040, 2041] {
        let s: String = std::iter::repeat('\u{00E9}').take(n).collect();
        assert_eq!(s.len(), 2 * n);
        assert_eq!(count(&s), n);
    }
    for n in [5, 6, 1359, 1360, 1361] {
        let s: String = std::iter::repeat('\u{65E5}').take(n).collect();
        assert_eq!(s.len(), 3 * n);
        assert_eq!(count(&s), n);
    }
}

#[test]
fn count_inline_agrees_with_count() {
    for s in ["", "abc", "a\u{00E9}\u{65E5}\u{10300}z", "Hello, world!"] {
        assert_eq!(count(s), count_inline(s));
    }
}

#[test]
fn to_byte_idx_never_lands_inside_a_char() {
    let s = "a\u{00E9}\u{65E5}\u{10300}z\u{00E9}\u{10300}";
    for i in 0..count(s) + 2 {
        assert!(s.is_char_boundary(to_byte_idx(s, i)));
    }
}

#[test]
fn to_byte_idx_every_index_small() {
    let s = "a\u{00E9}\u{65E5}\u{10300}z";
    let boundaries: Vec<usize> = s.char_indices().map(|(b, _)| b).collect();
    for (i, &b) in boundaries.iter().enumerate() {
        assert_eq!(to_byte_idx(s, i), b);
    }
    assert_eq!(to_byte_idx(s, boundaries.len()), s.len());
}
