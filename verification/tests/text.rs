use omapic::text::trimmed;

#[test]
fn white_space_matches_std() {
    for c in (0..=0x10ffffu32).filter_map(char::from_u32) {
        assert_eq!(trimmed(&[c]).is_empty(), c.is_whitespace(), "{:?}", c);
    }
}

#[test]
fn trimming_drops_both_ends() {
    let s: Vec<char> = "\u{3000} a b\t\n".chars().collect();
    assert_eq!(trimmed(&s), vec!['a', ' ', 'b']);
}
