use manix::{contains_insensitive_ascii, starts_with_insensitive_ascii, Lowercase};

#[test]
fn test_starts_with_insensitive_ascii() {
    assert!(starts_with_insensitive_ascii(
        "This is a string".as_bytes(),
        &Lowercase(b"this ")
    ));
    assert!(starts_with_insensitive_ascii(
        "abc".as_bytes(),
        &Lowercase(b"abc")
    ));
    assert!(!starts_with_insensitive_ascii(
        "This is a string".as_bytes(),
        &Lowercase(b"x")
    ));
    assert!(!starts_with_insensitive_ascii(
        "thi".as_bytes(),
        &Lowercase(b"this ")
    ));
}

#[test]
fn test_contains_insensitive_ascii() {
    assert!(contains_insensitive_ascii(
        "abc".as_bytes(),
        &Lowercase(b"b")
    ));
    assert!(contains_insensitive_ascii(
        "abc".as_bytes(),
        &Lowercase(b"abc")
    ));
    assert!(contains_insensitive_ascii(
        "xabcx".as_bytes(),
        &Lowercase(b"abc")
    ));
    assert!(!contains_insensitive_ascii(
        "abc".as_bytes(),
        &Lowercase(b"x")
    ));
    assert!(!contains_insensitive_ascii(
        "abc".as_bytes(),
        &Lowercase(b"abcd")
    ));
}

#[test]
fn starts_with_own_folded_prefix() {
    // Every folded prefix of a byte string is a prefix of it under folding.
    let h = "MixedCase Path.With-Stuff".as_bytes();
    for k in 0..=h.len() {
        let folded: Vec<u8> = h[..k].iter().map(|b| b.to_ascii_lowercase()).collect();
        assert!(starts_with_insensitive_ascii(h, &Lowercase(&folded)));
    }
}

#[test]
fn contains_own_folding() {
    // A string contains the folding of itself.
    let h = "MkDerivation".as_bytes();
    let folded: Vec<u8> = h.iter().map(|b| b.to_ascii_lowercase()).collect();
    assert!(contains_insensitive_ascii(h, &Lowercase(&folded)));
}

#[test]
fn contains_rejects_longer_needle() {
    // A needle longer than the haystack never matches.
    assert!(!contains_insensitive_ascii(b"ab", &Lowercase(b"abc")));
    assert!(!contains_insensitive_ascii(b"", &Lowercase(b"a")));
}

#[test]
fn empty_needle_always_matches() {
    assert!(starts_with_insensitive_ascii(b"anything", &Lowercase(b"")));
    assert!(starts_with_insensitive_ascii(b"", &Lowercase(b"")));
    assert!(contains_insensitive_ascii(b"anything", &Lowercase(b"")));
    assert!(contains_insensitive_ascii(b"", &Lowercase(b"")));
}

#[test]
fn non_ascii_bytes_compare_verbatim() {
    // Non-ASCII bytes are never folded; they must match exactly.
    let h = "Grüße".as_bytes();
    let folded: Vec<u8> = h.iter().map(|b| b.to_ascii_lowercase()).collect();
    assert!(starts_with_insensitive_ascii(h, &Lowercase(&folded)));
    assert!(contains_insensitive_ascii(h, &Lowercase("üß".as_bytes())));
}
