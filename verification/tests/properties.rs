use utf8_builder::{Utf8Builder, Utf8Error};

#[test]
fn fresh_builder_is_empty_and_valid() {
    let builder = Utf8Builder::new();
    assert_eq!(builder.len(), 0);
    assert!(builder.is_empty());
    assert!(builder.is_valid());
    assert_eq!(builder.finalize().unwrap(), String::new());
}

#[test]
fn default_builder_is_empty_and_valid() {
    let builder = Utf8Builder::default();
    assert_eq!(builder.len(), 0);
    assert!(builder.is_empty());
    assert!(builder.is_valid());
}

#[test]
fn cloned_builder_keeps_the_state() {
    let mut builder = Utf8Builder::new();
    builder.push_str("ab").unwrap();
    builder.push(0xC3).unwrap();
    let copy = builder.clone();
    assert_eq!(copy.len(), 3);
    assert!(!copy.is_valid());
    builder.push(0xA9).unwrap();
    assert_eq!(builder.finalize().unwrap(), "abé");
}

#[test]
fn with_capacity_is_empty_and_valid() {
    let builder = Utf8Builder::with_capacity(64);
    assert_eq!(builder.len(), 0);
    assert!(builder.is_empty());
    assert!(builder.is_valid());
}

#[test]
fn reserve_changes_nothing() {
    let mut builder = Utf8Builder::new();
    builder.push_str("abc").unwrap();
    builder.reserve(128);
    assert_eq!(builder.len(), 3);
    assert!(builder.is_valid());
    assert_eq!(builder.finalize().unwrap(), "abc");
}

#[test]
fn push_rejects_continuation_bytes() {
    for b in 0x80u8..=0xBF {
        let mut builder = Utf8Builder::new();
        assert_eq!(builder.push(b), Err(Utf8Error));
        assert_eq!(builder.len(), 0);
        assert!(builder.is_valid());
    }
}

#[test]
fn push_rejects_invalid_lead_bytes() {
    let mut invalid: Vec<u8> = vec![0xC0, 0xC1];
    for b in 0xF5u8..=0xFF {
        invalid.push(b);
    }
    for b in invalid {
        let mut builder = Utf8Builder::new();
        assert_eq!(builder.push(b), Err(Utf8Error));
        assert_eq!(builder.len(), 0);
        assert!(builder.is_valid());
    }
}

#[test]
fn truncated_character_fails_finalize() {
    // Lead byte of a three-byte character followed by only one of the two
    // continuation bytes it is owed.
    let mut builder = Utf8Builder::new();
    builder.push(0xE4).unwrap();
    builder.push(0xB8).unwrap();
    assert!(!builder.is_valid());
    assert_eq!(builder.len(), 2);
    assert_eq!(builder.finalize(), Err(Utf8Error));
}

#[test]
fn truncated_lead_alone_fails_finalize() {
    let mut builder = Utf8Builder::new();
    builder.push(0xF0).unwrap();
    assert!(!builder.is_valid());
    assert_eq!(builder.finalize(), Err(Utf8Error));
}

#[test]
fn push_str_fails_mid_character_without_corruption() {
    let mut builder = Utf8Builder::new();
    builder.push_str("ab").unwrap();
    builder.push(0xC3).unwrap();
    assert_eq!(builder.push_str("cd"), Err(Utf8Error));
    assert_eq!(builder.len(), 3);
    // The pending character can still be completed afterwards.
    builder.push(0xA9).unwrap();
    assert_eq!(builder.finalize().unwrap(), "abé");
}

#[test]
fn push_char_fails_mid_character_without_corruption() {
    let mut builder = Utf8Builder::new();
    builder.push_str("ab").unwrap();
    builder.push(0xC3).unwrap();
    assert_eq!(builder.push_char('z'), Err(Utf8Error));
    assert_eq!(builder.len(), 3);
    builder.push(0xA9).unwrap();
    assert_eq!(builder.finalize().unwrap(), "abé");
}

#[test]
fn two_byte_character_byte_by_byte() {
    // The two bytes of "é" pushed one at a time.
    let mut builder = Utf8Builder::new();
    builder.push(0xC3).unwrap();
    assert!(!builder.is_valid());
    assert_eq!(builder.len(), 1);
    builder.push(0xA9).unwrap();
    assert!(builder.is_valid());
    assert_eq!(builder.finalize().unwrap(), "é");
}

#[test]
fn chunk_boundary_inside_character() {
    // The three bytes of "中" split 2/1 across two chunks.
    let mut builder = Utf8Builder::new();
    builder.push_chunk(&[0xE4, 0xB8]).unwrap();
    assert!(!builder.is_valid());
    builder.push_chunk(&[0xAD]).unwrap();
    assert!(builder.is_valid());
    assert_eq!(builder.finalize().unwrap(), "中");
}

#[test]
fn four_byte_character_in_single_byte_chunks() {
    let emoji = "😀";
    let mut builder = Utf8Builder::new();
    for b in emoji.as_bytes() {
        builder.push_chunk(std::slice::from_ref(b)).unwrap();
    }
    assert_eq!(builder.finalize().unwrap(), emoji);
}

#[test]
fn chunk_exactly_completing_character() {
    // The second chunk holds exactly the continuation bytes owed, so the
    // third chunk starts a fresh character.
    let mut builder = Utf8Builder::new();
    builder.push_chunk(&[0xE4]).unwrap();
    builder.push_chunk(&[0xB8, 0xAD]).unwrap();
    assert!(builder.is_valid());
    builder.push_chunk("文".as_bytes()).unwrap();
    assert_eq!(builder.finalize().unwrap(), "中文");
}

#[test]
fn empty_chunk_is_a_no_op() {
    let mut builder = Utf8Builder::new();
    builder.push_chunk(&[]).unwrap();
    assert!(builder.is_empty());
    builder.push(0xC3).unwrap();
    builder.push_chunk(&[]).unwrap();
    assert!(!builder.is_valid());
    assert_eq!(builder.len(), 1);
}

#[test]
fn chunk_with_invalid_byte_keeps_prefix() {
    let mut builder = Utf8Builder::new();
    assert_eq!(builder.push_chunk(&[b'a', 0xFF, b'b']), Err(Utf8Error));
    // No rollback: the bytes before the rejected one were kept.
    assert_eq!(builder.len(), 1);
    assert!(builder.is_valid());
}

#[test]
fn chunk_resuming_with_too_few_bytes_stays_pending() {
    let mut builder = Utf8Builder::new();
    builder.push_chunk(&[0xF0, 0x9F]).unwrap();
    builder.push_chunk(&[0x98]).unwrap();
    assert!(!builder.is_valid());
    assert_eq!(builder.len(), 3);
    builder.push_chunk(&[0x80]).unwrap();
    assert_eq!(builder.finalize().unwrap(), "😀");
}

#[test]
fn stray_continuation_byte_is_caught_at_finalize() {
    // While a character is in progress the next byte is accepted without a
    // range check, so a byte that is no continuation byte slips into the
    // buffer; finalize then rejects the malformed data.
    let mut builder = Utf8Builder::new();
    builder.push(0xC3).unwrap();
    builder.push(0x41).unwrap();
    assert!(builder.is_valid());
    assert_eq!(builder.finalize(), Err(Utf8Error));
}

#[test]
fn from_str_seeds_the_builder() {
    let mut builder = Utf8Builder::from_str("這是");
    assert_eq!(builder.len(), "這是".len());
    assert!(builder.is_valid());
    builder.push_str("中文。").unwrap();
    assert_eq!(builder.finalize().unwrap(), "這是中文。");
}

#[test]
fn from_string_seeds_the_builder() {
    let builder = Utf8Builder::from_string(String::from("abé"));
    assert_eq!(builder.len(), 4);
    assert_eq!(builder.finalize().unwrap(), "abé");
}

#[test]
fn mixed_operations_round_trip() {
    let mut builder = Utf8Builder::new();
    builder.push(b'T').unwrap();
    builder.push_char('h').unwrap();
    builder.push_str("is is English.").unwrap();
    builder.push_chunk("這是中文。".as_bytes()).unwrap();
    let result = builder.finalize().unwrap();
    assert_eq!(result, "This is English.這是中文。");
}
