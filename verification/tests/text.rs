use leviath_runtime::context::{ContextWindow, EntryKind, Region, RegionKind, TaintLevel};
use leviath_runtime::table::NameTable;
use leviath_runtime::text::{
    ascii_word, byte_len, contains, decimal_text, eq_ignore_ascii_case, estimate_tokens, find_char,
    find_from, join, message_tokens, rfind_char, take_chars, to_ascii_lower, trim,
    truncate_at_boundary, white_space,
};

#[test]
fn white_space_is_what_the_standard_library_says() {
    for code in 0..=0x10FFFFu32 {
        if let Some(c) = char::from_u32(code) {
            assert_eq!(white_space(c), c.is_whitespace(), "{code:x}");
            assert_eq!(to_ascii_lower(c), c.to_ascii_lowercase(), "{code:x}");
            assert_eq!(ascii_word(c), c.is_ascii_alphanumeric(), "{code:x}");
        }
    }
}

#[test]
fn searching_and_trimming_agree_with_the_standard_library() {
    let texts = ["", " ", "a", " a b ", "\u{a0}é\u{3000}", "aXbXc", "XX", "日本X語"];
    for s in texts {
        assert_eq!(trim(s), s.trim());
        assert_eq!(byte_len(s), s.len());
        let at = |byte: Option<usize>| byte.map(|b| s[..b].chars().count());
        assert_eq!(find_char(s, 'X'), at(s.find('X')));
        assert_eq!(rfind_char(s, 'X'), at(s.rfind('X')));
        for needle in ["", "X", "Xb", "本X", "zz"] {
            assert_eq!(contains(s, needle), s.contains(needle), "{s} {needle}");
            assert_eq!(find_from(s, needle, 0), at(s.find(needle)), "{s} {needle}");
        }
    }
    assert_eq!(find_from("aXbXc", "X", 2), Some(3));
    assert_eq!(find_from("aXbXc", "X", 4), None);
    assert!(eq_ignore_ascii_case("DoNe", "dOnE"));
    assert!(!eq_ignore_ascii_case("É", "é"));
    assert!(!eq_ignore_ascii_case("done", "don"));
}

#[test]
fn numbers_and_lists_become_text() {
    for n in [0u64, 7, 10, 99, 100, 123_456_789, u64::MAX] {
        assert_eq!(decimal_text(n), n.to_string());
    }
    let parts = vec!["a".to_string(), String::new(), "c".to_string()];
    assert_eq!(join(&parts, ", "), "a, , c");
    assert_eq!(join(&vec![], ", "), "");
}

#[test]
fn a_cut_never_splits_a_character() {
    assert_eq!(take_chars("é€🚀", 2), "é€");
    assert_eq!(truncate_at_boundary("é€🚀", 4), "é");
    assert_eq!(truncate_at_boundary("é€🚀", 5), "é€");
    assert_eq!(truncate_at_boundary("é€🚀", 9), "é€🚀");
    assert_eq!(truncate_at_boundary("é", 1), "");
    assert_eq!(estimate_tokens("12345678"), 2);
    assert_eq!(message_tokens("12345678"), 3);
}

#[test]
fn a_table_keeps_one_value_per_name() {
    let mut table = NameTable::new();
    table.insert("a".to_string(), 1);
    table.insert("b".to_string(), 2);
    table.insert("a".to_string(), 3);
    assert_eq!(table.get("a"), Some(&3));
    assert_eq!(table.entries.len(), 2);
    assert_eq!(table.remove("a"), Some(3));
    assert_eq!(table.remove("a"), None);
    assert!(!table.contains("a") && table.contains("b"));
}

#[test]
fn a_window_keeps_to_its_budgets() {
    let mut w = ContextWindow::new(10);
    w.add_region(Region::new("a".to_string(), RegionKind::Clearable, 8));
    w.add_region(Region::new("b".to_string(), RegionKind::Clearable, 8));
    assert!(w.add_to_region("a", "x".to_string(), 8).is_ok());
    assert!(w.add_to_region("a", "y".to_string(), 1).is_err());
    assert_eq!(w.current_tokens, 8);
    assert_eq!(w.calculate_tokens(), 8);
    let i = w.region_index("a").unwrap();
    w.clear_at(i);
    w.recount();
    assert_eq!(w.current_tokens, 0);
    assert!(w.get_region("a").unwrap().content.is_empty());
}

#[test]
fn the_most_sensitive_entry_taints_the_window() {
    let mut w = ContextWindow::new(100);
    w.add_region(Region::new("a".to_string(), RegionKind::Clearable, 50));
    w.add_region(Region::new("b".to_string(), RegionKind::Clearable, 50));
    let add = |w: &mut ContextWindow, region: &str, level: TaintLevel| {
        let _ = w.add_typed_tainted_to_region(region, EntryKind::Text, "x".to_string(), 1, level);
    };
    w.enable_taint_tracking();
    assert_eq!(w.overall_taint(), Some(TaintLevel::Public));
    add(&mut w, "b", TaintLevel::Internal);
    assert_eq!(w.overall_taint(), Some(TaintLevel::Internal));
    add(&mut w, "a", TaintLevel::Private);
    add(&mut w, "a", TaintLevel::Public);
    assert_eq!(w.overall_taint(), Some(TaintLevel::Private));
    assert_eq!(TaintLevel::Internal.raised_to(TaintLevel::Public), TaintLevel::Internal);
}
