use exbase::Pattern;

fn pattern(text: &str) -> (Vec<u8>, Vec<u8>) {
    let p = Pattern::new(text).unwrap();
    (p.bytes, p.mask)
}

#[test]
fn pattern_doc_example() {
    let (bytes, mask) = pattern("00 FF 0? F? ?? ?");
    assert_eq!(bytes, vec![0x00, 0xFF, 0x00, 0xF0, 0x00, 0x00]);
    assert_eq!(mask, vec![0xFF, 0xFF, 0xF0, 0xF0, 0x00, 0x00]);
}

#[test]
fn pattern_low_half_wildcard() {
    assert_eq!(pattern("?A"), (vec![0x0A], vec![0x0F]));
    assert_eq!(pattern("a?"), (vec![0xA0], vec![0xF0]));
}

#[test]
fn pattern_single_digit_and_case() {
    assert_eq!(pattern("f 8B 05"), (vec![0x0F, 0x8B, 0x05], vec![0xFF, 0xFF, 0xFF]));
}

#[test]
fn pattern_whitespace_between_words() {
    assert_eq!(pattern("  48\t8b\n 05  "), (vec![0x48, 0x8B, 0x05], vec![0xFF, 0xFF, 0xFF]));
    assert_eq!(pattern("48\u{3000}8b"), (vec![0x48, 0x8B], vec![0xFF, 0xFF]));
}

#[test]
fn pattern_plus_sign_as_from_str_radix() {
    assert_eq!(pattern("+1"), (vec![0x01], vec![0xFF]));
    assert_eq!(pattern("+?"), (vec![0x00], vec![0xF0]));
}

#[test]
fn pattern_refused() {
    assert!(Pattern::new("").is_none());
    assert!(Pattern::new("   \t ").is_none());
    assert!(Pattern::new("123").is_none());
    assert!(Pattern::new("GG").is_none());
    assert!(Pattern::new("-1").is_none());
    assert!(Pattern::new("?+").is_none());
    assert!(Pattern::new("é").is_none());
    assert!(Pattern::new("48 8b 0x").is_none());
    assert!(Pattern::new("+").is_none());
}

#[test]
fn scan_finds_all_plain_matches() {
    let p = Pattern::new("AB AB").unwrap();
    let buf = [0xAB, 0xAB, 0xAB, 0x00, 0xAB, 0xAB];
    assert_eq!(p.scan(&buf, false), vec![0, 1, 4]);
    assert_eq!(p.scan(&buf, true), vec![0]);
}

#[test]
fn scan_first_only_is_first_of_all() {
    let p = Pattern::new("01 02 03").unwrap();
    let buf = [9, 9, 1, 2, 3, 7, 1, 2, 3];
    let all = p.scan(&buf, false);
    assert_eq!(all, vec![2, 6]);
    assert_eq!(p.scan(&buf, true), vec![all[0]]);
    assert_eq!(p.scan(&[1, 2], true), Vec::<usize>::new());
}

#[test]
fn scan_instruction_pattern() {
    // mov rax,[rip+0x2a51]; mov eax,[rax]
    let p = Pattern::new("48 8b 05 ? ? ? ? 8b ?").unwrap();
    let buf = [0x90, 0x48, 0x8b, 0x05, 0x51, 0x2a, 0x00, 0x00, 0x8b, 0x00, 0x90];
    assert_eq!(p.scan(&buf, false), vec![1]);
}

#[test]
fn scan_nibble_masks() {
    let p = Pattern::new("4? ?B").unwrap();
    let buf = [0x41, 0x1B, 0x40, 0xFB, 0x50, 0x0B];
    assert_eq!(p.scan(&buf, false), vec![0, 2]);
    assert_eq!(p.scan(&[0x4A, 0x0B], false), vec![0]);
}

#[test]
fn scan_finds_match_after_leading_wildcard() {
    let p = Pattern::new("?? BB").unwrap();
    assert_eq!(p.scan(&[0x11, 0x22, 0xBB], false), vec![1]);
    assert_eq!(p.scan(&[0x11, 0x00, 0xBB], false), vec![1]);
    assert_eq!(Pattern::new("?? 01").unwrap().scan(&[0x05, 0x05, 0x01], false), vec![1]);
}

#[test]
fn scan_first_only_with_masked_last_byte() {
    let p = Pattern::new("12 3?").unwrap();
    assert_eq!(p.scan(&[0x00, 0x12, 0x34], true), vec![1]);
    assert_eq!(p.scan(&[0x12, 0x3F, 0x12, 0x30], false), vec![0, 2]);
}

#[test]
fn scan_empty_pattern_or_short_buffer() {
    let p = Pattern { bytes: vec![], mask: vec![] };
    assert_eq!(p.scan(&[1, 2, 3], false), Vec::<usize>::new());
    let q = Pattern::new("01 02 03 04").unwrap();
    assert_eq!(q.scan(&[1, 2, 3], false), Vec::<usize>::new());
}

#[test]
fn scan_whole_buffer_match() {
    let p = Pattern::new("de ad be ef").unwrap();
    assert_eq!(p.scan(&[0xde, 0xad, 0xbe, 0xef], false), vec![0]);
}
