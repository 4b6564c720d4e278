use reason_ready::number::{format_u64, parse_at_most};
use reason_ready::order::{relate_bytes, relate_strs, starts_with, Rel};
use reason_ready::strset::StrSet;
use reason_ready::text::{
    content_tokens, is_blank, is_stopword, lines, split_at_each, tokenize, trim,
};

fn strs(v: &[&str]) -> Vec<String> {
    v.iter().map(|s| s.to_string()).collect()
}

#[test]
fn tokens_are_lowercased_alphanumeric_runs() {
    assert_eq!(
        tokenize("How do I UPGRADE Postgres-16, safely?"),
        strs(&["how", "do", "i", "upgrade", "postgres", "16", "safely"])
    );
    assert_eq!(tokenize("  --  "), Vec::<String>::new());
    assert_eq!(tokenize(""), Vec::<String>::new());
    assert_eq!(tokenize("Ärger über ΣΟΦΟΣ"), strs(&["ärger", "über", "σοφος"]));
}

#[test]
fn a_text_is_lowercased_before_it_is_split() {
    // The lowercase of a capital I with a dot above is two characters, and the
    // second is no letter.
    assert_eq!(tokenize("\u{130}x"), strs(&["i", "x"]));
    assert_eq!(tokenize("\u{130}"), strs(&["i"]));
    // A capital sigma is final where the word ends, and an apostrophe ends none.
    assert_eq!(tokenize("A\u{3a3}'B"), strs(&["a\u{3c3}", "b"]));
    for text in ["\u{130}x", "A\u{3a3}'B", "Ünï-cødé \u{130}\u{130} 42"] {
        for t in tokenize(text) {
            assert!(!t.is_empty() && t.chars().all(|c| c.is_alphanumeric()), "{text:?}");
        }
    }
}

#[test]
fn ascii_tokens_are_runs_of_letters_and_digits() {
    for c in (0u8..128).map(char::from) {
        let want = if c.is_ascii_alphanumeric() {
            vec![c.to_ascii_lowercase().to_string()]
        } else {
            Vec::new()
        };
        assert_eq!(tokenize(&c.to_string()), want, "{c:?}");
    }
    let text = "How_do I UPGRADE\tPostgres-16, safely? \0 (v2)";
    let tokens = tokenize(text);
    assert_eq!(
        tokens,
        strs(&["how", "do", "i", "upgrade", "postgres", "16", "safely", "v2"])
    );
    assert_eq!(tokenize(&tokens.join(" ")), tokens);
    assert_eq!(tokenize(&text.to_ascii_uppercase()), tokens);
}

#[test]
fn tokens_split_at_a_separator_as_their_parts_do() {
    let mut parts = tokenize("left part");
    parts.extend(tokenize("right"));
    assert_eq!(tokenize("left part|right"), parts);
}

#[test]
fn stopwords_are_dropped_from_content() {
    assert!(is_stopword("the"));
    assert!(!is_stopword("postgres"));
    assert!(!is_stopword("The"));
    assert_eq!(content_tokens("The upgrade of the estate"), strs(&["upgrade", "estate"]));
    assert_eq!(content_tokens("of the and"), Vec::<String>::new());
}

#[test]
fn lines_are_split_as_the_standard_library_does() {
    for text in ["", "a", "a\n", "a\r\nb", "\n\n", "a\rb\n", "x\r", "one\ntwo\nthree"] {
        let want: Vec<String> = text.lines().map(|l| l.to_string()).collect();
        assert_eq!(lines(text), want, "{text:?}");
    }
}

#[test]
fn fields_are_split_at_tabs() {
    assert_eq!(split_at_each("q1\td1\t2", '\t'), strs(&["q1", "d1", "2"]));
    assert_eq!(split_at_each("", '\t'), strs(&[""]));
    assert_eq!(split_at_each("\t", '\t'), strs(&["", ""]));
}

#[test]
fn trimming_takes_white_space_at_both_ends() {
    for text in ["", "  ", " a b ", "\u{3000}x\u{a0}", "\t\r\n", "plain"] {
        assert_eq!(trim(text), text.trim(), "{text:?}");
        assert_eq!(is_blank(text), text.trim().is_empty(), "{text:?}");
    }
}

#[test]
fn white_space_is_what_the_standard_library_says() {
    for c in (0..=0x10ffffu32).filter_map(char::from_u32) {
        assert_eq!(is_blank(c.encode_utf8(&mut [0; 4])), c.is_whitespace(), "{c:?}");
        let n = c as u32;
        let want = matches!(
            n,
            0x09..=0x0d
                | 0x20
                | 0x85
                | 0xa0
                | 0x1680
                | 0x2000..=0x200a
                | 0x2028
                | 0x2029
                | 0x202f
                | 0x205f
                | 0x3000
        );
        assert_eq!(c.is_whitespace(), want, "{c:?}");
    }
}

#[test]
fn numbers_are_read_as_the_standard_library_reads_them() {
    for text in ["0", "7", "+7", "007", "255", "256", "-1", "", "+", "1 ", "x", "99999999999999999999"] {
        assert_eq!(parse_at_most(text, 255), text.parse::<u8>().ok().map(u64::from), "{text:?}");
        assert_eq!(parse_at_most(text, u64::MAX), text.parse::<u64>().ok(), "{text:?}");
    }
    for n in [0u64, 9, 10, 12345, u64::MAX] {
        assert_eq!(format_u64(n), n.to_string());
    }
}

#[test]
fn strings_are_ordered_by_their_bytes() {
    let words = ["", "a", "ab", "b", "zoo", "é", "日本", "\u{10ffff}"];
    for a in words {
        for b in words {
            let want = if a < b {
                Rel::Less
            } else if a == b {
                Rel::Equal
            } else {
                Rel::Greater
            };
            assert_eq!(relate_strs(a, b), want);
            assert_eq!(relate_bytes(a.as_bytes(), b.as_bytes()), want);
            assert_eq!(starts_with(a.as_bytes(), b.as_bytes()), a.starts_with(b));
        }
    }
}

#[test]
fn a_string_set_holds_each_string_once_and_in_order() {
    let mut a = StrSet::new();
    assert!(a.is_empty());
    for s in ["pear", "apple", "fig", "apple"] {
        a.insert(s.to_string());
    }
    let mut b = StrSet::new();
    b.insert("fig".to_string());
    b.insert("apple".to_string());
    b.insert("kiwi".to_string());
    assert!(a.contains("pear") && !a.contains("kiwi"));
    assert_eq!(a.intersect(&b).into_sorted(), strs(&["apple", "fig"]));
    a.extend(&b);
    a.remove("fig");
    let mut c = StrSet::new();
    c.insert("pear".to_string());
    a.subtract(&c);
    assert_eq!(a.into_sorted(), strs(&["apple", "kiwi"]));
}
