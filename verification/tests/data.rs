use linebreak_tables::cases::{
    case_body, case_strings, cases, push_record, random_string, random_strings, RANDOM_STRINGS, SEED,
};
use linebreak_tables::rng::Rng;
use linebreak_tables::classes::{class_runs, extend_runs, SCALARS};
use linebreak_tables::order::{bytes_less, insert_text, text_less};
use linebreak_tables::pool::{insert_char, interesting, EVERYDAY};
use linebreak_tables::tables::{class_name_of, encode_flags, encode_runs, encode_table, tables};
use unicode_linebreak::{break_property, linebreaks, split_at_safe, BreakOpportunity};

#[test]
fn class_runs_start() {
    let runs = class_runs();
    // Tab is BA (After, 12), line feed LF (2), VT and FF BK (0), CR (1); the
    // controls around them are CM (3).
    assert_eq!(runs[0], (0, 8, 3));
    assert_eq!(runs[1], (9, 9, 12));
    assert_eq!(runs[2], (10, 10, 2));
    assert_eq!(runs[3], (11, 12, 0));
    assert_eq!(runs[4], (13, 13, 1));
    assert_eq!(runs[5], (14, 31, 3));
}

#[test]
fn class_runs_describe_every_code_point() {
    let runs = class_runs();
    for w in runs.windows(2) {
        assert!(w[0].0 <= w[0].1 && w[0].1 < w[1].0);
        if w[0].1 + 1 == w[1].0 {
            assert_ne!(w[0].2, w[1].2);
        }
    }
    let mut listed = vec![42u8; SCALARS as usize];
    for &(lo, hi, v) in &runs {
        assert_ne!(v, 42);
        for cp in lo..=hi {
            listed[cp as usize] = v;
        }
    }
    for cp in 0..SCALARS {
        assert_eq!(listed[cp as usize], break_property(cp) as u8);
    }
}

#[test]
fn extend_runs_cases() {
    let mut runs = Vec::new();
    extend_runs(&mut runs, 5, 42);
    assert!(runs.is_empty());
    extend_runs(&mut runs, 5, 7);
    extend_runs(&mut runs, 6, 7);
    assert_eq!(runs, vec![(5, 6, 7)]);
    extend_runs(&mut runs, 8, 7);
    extend_runs(&mut runs, 9, 3);
    assert_eq!(runs, vec![(5, 6, 7), (8, 8, 7), (9, 9, 3)]);
}

#[test]
fn interesting_pool() {
    let pool = interesting();
    for w in pool.windows(2) {
        assert!(w[0] < w[1]);
    }
    for c in EVERYDAY.chars() {
        assert!(pool.contains(&c));
    }
    // Two of every class, the first by code point.
    let mut counts = [0usize; 43];
    for &c in &pool {
        counts[break_property(c as u32) as usize] += 1;
    }
    assert!(pool.contains(&'\u{0}') && pool.contains(&'\u{1}'));
    // Surrogates are not chars, so that class has no picks but none fails.
    assert_eq!(counts[5], 0);
    assert!(counts[29] >= 2);
}

#[test]
fn insert_char_keeps_order() {
    let mut v = Vec::new();
    for c in ['d', 'a', 'c', 'a', 'b', 'd'] {
        insert_char(&mut v, c);
    }
    assert_eq!(v, vec!['a', 'b', 'c', 'd']);
}

#[test]
fn text_order_is_byte_order() {
    assert!(bytes_less(b"", b"a"));
    assert!(!bytes_less(b"a", b"a"));
    assert!(bytes_less(b"ab", b"b"));
    assert!(bytes_less(b"a", b"ab"));
    assert!(text_less(&"Z".to_string(), &"a".to_string()));
    assert!(text_less(&"\u{ff}".to_string(), &"\u{100}".to_string()));
    let mut v: Vec<String> = Vec::new();
    for s in ["pear", "apple", "", "pear", "\u{e9}", "apple pie"] {
        insert_text(&mut v, s.to_string());
    }
    assert_eq!(v, vec!["", "apple", "apple pie", "pear", "\u{e9}"]);
}

#[test]
fn case_strings_sorted_and_unique() {
    let pool = interesting();
    let strings = case_strings(&pool);
    let mut expected: Vec<String> = strings.clone();
    expected.sort();
    expected.dedup();
    assert_eq!(strings, expected);
    assert!(strings.contains(&"Hello world!".to_string()));
    assert!(strings.contains(&String::new()));
    assert!(strings.len() > 4000 && strings.len() <= 5010);
}

#[test]
fn record_of_hello_world() {
    let mut body = String::new();
    push_record(&mut body, "a b \nc", &vec![(2, false), (5, true), (6, true)], 0);
    // 6 bytes, the string, 3 breaks: 4, 11, 13, split at 0.
    assert_eq!(body, "006a b \nc00300400;00=000");
}

#[test]
fn case_body_matches_crate() {
    let strings = vec!["Hello world!".to_string(), "a b \nc".to_string()];
    let body = case_body(&strings).unwrap();
    let mut expected = String::new();
    for s in &strings {
        let breaks: Vec<(usize, bool)> = linebreaks(s)
            .map(|(i, k)| (i, k == BreakOpportunity::Mandatory))
            .collect();
        push_record(&mut expected, s, &breaks, split_at_safe(s).0.len());
    }
    assert_eq!(body, expected);
    assert!(body.starts_with("00<Hello world!00200<00I"));
}

#[test]
fn cases_file() {
    let text = cases("-- notice\n", "-- header");
    assert!(text.starts_with("-- notice\n--\n-- Strings with the break opportunities"));
    assert!(text.contains("\n-- header\n\n-- Each: "));
    assert!(text.contains("@cfg(test)\n@pub(pkg) def cases =\n  \""));
    assert!(text.ends_with("\"\n"));
}

#[test]
fn class_names() {
    assert_eq!(class_name_of(0), "Mandatory");
    assert_eq!(class_name_of(29), "Alphabetic");
    assert_eq!(class_name_of(42), "Unknown");
}

#[test]
fn encodings_of_tables() {
    assert_eq!(encode_runs(&vec![(0, 8, 3), (0x10_ffff, 0x10_ffff, 42)]), "000000083" .to_string() + "4?oo4?ooZ");
    assert_eq!(encode_table(&vec![vec![192, 1], vec![255]]), "3001" .to_string() + "3o");
    assert_eq!(encode_flags(&vec![vec![true, false], vec![false]]), "100");
}

#[test]
fn tables_file() {
    let pairs = vec![vec![0u8; 44]];
    let safe = vec![vec![true; 43]; 43];
    let text = tables("-- notice\n", "-- header", &pairs, 43, 44, &safe);
    assert!(text.starts_with("-- notice\n--\n-- Every table is a string"));
    assert!(text.contains("@pub(pkg) def unicodeVersion = (15, 0, 0)\n"));
    assert!(text.contains("--    0 Mandatory\n--    1 CarriageReturn\n"));
    assert!(text.contains("--   42 Unknown\n@pub(pkg) def classes =\n  \"000000083"));
    assert!(text.contains("-- The state machine: 1 rows, one per state, of 44 entries"));
    assert!(text.contains("end of text (43)"));
    assert!(text.contains("start state is 44.\n"));
    assert!(text.contains("; 43 of each)"));
    // The safe pairs: two rows of 43 on each line.
    let ones = "1".repeat(86);
    assert!(text.contains(&format!("\"{}\\\n    {}\\\n", ones, ones)));
    assert!(text.ends_with(&format!("\\\n    {}\"\n", "1".repeat(43))));
    assert!(text.ends_with("11\"\n"));
}

#[test]
fn random_strings_follow_the_generator() {
    let pool: Vec<char> = "abc".chars().collect();
    let mut a = Rng(7);
    let s = random_string(&mut a, &pool);
    // By hand: a length from 1 to 10, then that many draws from the pool.
    let mut b = Rng(7);
    let len = 1 + b.below(10);
    let expected: String = (0..len).map(|_| pool[b.below(pool.len())]).collect();
    assert_eq!(s, expected);
    assert_eq!(a.0, b.0);
    let mut c = Rng(7);
    let v = random_strings(&mut c, &pool, 3);
    assert_eq!(v.len(), 3);
    assert_eq!(v[0], expected);
}

#[test]
fn case_strings_hold_fixed_and_random() {
    let pool = interesting();
    let strings = case_strings(&pool);
    let mut rng = Rng(SEED);
    let random = random_strings(&mut rng, &pool, RANDOM_STRINGS);
    for s in &random {
        assert!(strings.binary_search(s).is_ok());
    }
    for s in ["", "a b \nc", "co-operate re-\u{ad}enter x\u{2014}y 1\u{2013}2"] {
        assert!(strings.binary_search(&s.to_string()).is_ok());
    }
    let mut all: Vec<String> = random.clone();
    all.push("Hello world!".to_string());
    all.sort();
    all.dedup();
    assert!(all.len() <= strings.len());
}

#[test]
fn class_names_follow_the_crate_numbering() {
    let mut seen = [false; 43];
    for cp in 0..SCALARS {
        let class = break_property(cp);
        let v = class as usize;
        if !seen[v] {
            seen[v] = true;
            assert_eq!(format!("{:?}", class), class_name_of(v));
        }
    }
    assert!(seen.iter().filter(|s| **s).count() >= 40);
}
