use diwa_sync::text::{
    chars_of, copy_list, has, is_before, is_white_space, joined, lines, replace, same, sort,
    sort_distinct, starts_with, string_of, trim,
};

fn owned(list: &[&str]) -> Vec<String> {
    list.iter().map(|s| s.to_string()).collect()
}

const SAMPLES: [&str; 16] = [
    "",
    " ",
    "a",
    "\n",
    "\r\n",
    "\r",
    "a\r\nb\n\nc",
    "a\nb\r",
    "  both ends \t",
    "\u{a0}\u{3000}wide\u{2003}",
    "\u{feff}mark",
    "it's 'quoted'",
    "\u{e9}\u{4e2d}\u{1f600}",
    "B",
    "b",
    "ab",
];

#[test]
fn white_space_is_that_of_unicode() {
    for n in 0..=0x10ffffu32 {
        if let Some(c) = char::from_u32(n) {
            assert_eq!(is_white_space(c), c.is_whitespace(), "U+{n:04X}");
        }
    }
}

#[test]
fn trimming_takes_both_ends() {
    assert_eq!(trim("  a b\t\n"), "a b");
    for s in SAMPLES {
        assert_eq!(trim(s), s.trim(), "{s:?}");
    }
}

#[test]
fn lines_end_at_newlines() {
    assert_eq!(lines("a\r\nb\n\nc"), owned(&["a", "b", "", "c"]));
    assert_eq!(lines("a\n"), owned(&["a"]));
    for s in SAMPLES {
        let expected: Vec<String> = s.lines().map(|l| l.to_string()).collect();
        assert_eq!(lines(s), expected, "{s:?}");
    }
}

#[test]
fn sorting_is_by_code_point() {
    assert_eq!(sort(owned(&["b", "B", "ab", "a", "b"])), owned(&["B", "a", "ab", "b", "b"]));
    let mut expected = owned(&SAMPLES);
    expected.sort();
    assert_eq!(sort(owned(&SAMPLES)), expected);
    let mut turned = owned(&SAMPLES);
    turned.reverse();
    assert_eq!(sort(turned), expected);
}

#[test]
fn distinct_sorting_keeps_one_of_each() {
    assert_eq!(
        sort_distinct(owned(&["b", "a", "b", "a", "c"])),
        owned(&["a", "b", "c"])
    );
    assert!(sort_distinct(vec![]).is_empty());
}

#[test]
fn order_is_that_of_strings() {
    for a in SAMPLES {
        for b in SAMPLES {
            assert_eq!(is_before(a, b), a < b, "{a:?} {b:?}");
            assert_eq!(same(a, b), a == b);
            assert_eq!(starts_with(a, b), a.starts_with(b));
            assert_eq!(joined(a, b), format!("{a}{b}"));
        }
    }
}

#[test]
fn replacement_leaves_other_characters() {
    assert_eq!(replace("it's 'quoted'", '\'', "''"), "it''s ''quoted''");
    assert_eq!(replace("a-b-c", '-', ""), "abc");
    for s in SAMPLES {
        assert_eq!(replace(s, 'a', "<a>"), s.replace('a', "<a>"));
    }
}

#[test]
fn characters_and_lists() {
    assert_eq!(chars_of("a\u{e9}"), vec!['a', '\u{e9}']);
    assert_eq!(string_of(&vec!['a', 'b', 'c'], 1, 3), "bc");
    let list = owned(&["x", "y"]);
    assert_eq!(copy_list(&list), list);
    assert!(has(&list, "y"));
    assert!(!has(&list, "z"));
}
