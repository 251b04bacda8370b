use psearch::parse::MalformedSignatureToken;
use psearch::sched::partition;
use psearch::set::MatchReport;
use psearch::set::Pattern;
use psearch::set::run_partition;
use psearch::sig::ByteSearch;
use psearch::sig::BytePattern;

fn pat(text: &[u8]) -> BytePattern {
    BytePattern::parse(text).expect("signature text should parse")
}

fn err(text: &[u8]) -> MalformedSignatureToken {
    BytePattern::parse(text).err().expect("signature text should be rejected")
}

#[test]
fn scenario_literal_and_wildcard() {
    let p = pat(b"10 20 ?");
    let hay = [0x10u8, 0x20, 0x30, 0x10, 0x20, 0xFF];
    assert_eq!(p.find(&hay), Some(vec![0, 3]));
}

#[test]
fn scenario_signature_longer_than_haystack() {
    let p = pat(b"ff ff");
    let hay = [0x01u8];
    assert_eq!(p.find(&hay), None);
}

#[test]
fn scenario_malformed_token() {
    let e = err(b"10 zz");
    assert_eq!(e.token, b"zz".to_vec());
    assert_eq!(e.line, b"10 zz".to_vec());
}

#[test]
fn scenario_inline_pattern() {
    let p = pat(b"41 ? 43");
    let hay = [0x41u8, 0x99, 0x43, 0x00, 0x41, 0x58, 0x43];
    assert_eq!(p.find(&hay), Some(vec![0, 4]));
}

#[test]
fn scenario_five_sets_four_workers() {
    let mut sets = Vec::new();
    for name in ["set0", "set1", "set2", "set3", "set4"] {
        sets.push(Pattern::from_text(name.to_string(), b"aa bb").unwrap());
    }
    let buckets = partition(sets, 4);
    assert_eq!(buckets.len(), 4);
    let names: Vec<Vec<&str>> =
        buckets.iter().map(|b| b.iter().map(|s| s.name.as_str()).collect()).collect();
    assert_eq!(names[0], vec!["set0", "set4"]);
    assert_eq!(names[1], vec!["set1"]);
    assert_eq!(names[2], vec!["set2"]);
    assert_eq!(names[3], vec!["set3"]);
}

#[test]
fn parse_then_render_round_trips() {
    let p = pat(b"0A ?? ff");
    let text = p.render();
    assert_eq!(text, b"0a ?? ff".to_vec());
    let q = pat(&text);
    assert_eq!(q.0, p.0);
    assert_eq!(q.render(), text);
}

#[test]
fn short_wildcard_marker_renders_long() {
    let p = pat(b"?");
    assert_eq!(p.0, vec![ByteSearch::WildCard]);
    assert_eq!(p.render(), b"??".to_vec());
}

#[test]
fn hex_case_is_normalized() {
    let p = pat(b"AB cD");
    assert_eq!(p.0, vec![ByteSearch::Byte(0xAB), ByteSearch::Byte(0xCD)]);
    assert_eq!(p.render(), b"ab cd".to_vec());
}

#[test]
fn overlapping_matches_are_ascending_and_in_range() {
    let p = pat(b"aa aa");
    let hay = [0xAAu8, 0xAA, 0xAA, 0xAA];
    let offsets = p.find(&hay).unwrap();
    assert_eq!(offsets, vec![0, 1, 2]);
    for w in offsets.windows(2) {
        assert!(w[0] < w[1]);
    }
    for &o in &offsets {
        assert!(o + 2 <= hay.len());
    }
}

#[test]
fn all_wildcards_match_every_offset() {
    let p = pat(b"? ?");
    let hay = [9u8, 8, 7, 6, 5];
    assert_eq!(p.find(&hay), Some(vec![0, 1, 2, 3]));
}

#[test]
fn no_match_returns_none() {
    let p = pat(b"de ad");
    let hay = [0x00u8, 0x01, 0x02];
    assert_eq!(p.find(&hay), None);
}

#[test]
fn repeated_searches_agree() {
    let p = pat(b"10 ? 30");
    let hay = [0x10u8, 0x22, 0x30, 0x10, 0x99, 0x30, 0x10];
    let first = p.find(&hay);
    let second = p.find(&hay);
    assert_eq!(first, second);
    assert_eq!(first, Some(vec![0, 3]));
}

#[test]
fn match_pattern_checks_one_window() {
    let p = pat(b"10 ? 30");
    assert!(p.match_pattern(&[0x10, 0x55, 0x30]));
    assert!(!p.match_pattern(&[0x10, 0x55, 0x31]));
}

#[test]
fn empty_line_is_rejected() {
    let e = err(b"");
    assert_eq!(e.token, Vec::<u8>::new());
}

#[test]
fn one_hex_digit_is_rejected() {
    let e = err(b"1");
    assert_eq!(e.token, b"1".to_vec());
}

#[test]
fn three_hex_digits_are_rejected() {
    let e = err(b"123 45");
    assert_eq!(e.token, b"123".to_vec());
}

#[test]
fn doubled_space_is_rejected() {
    let e = err(b"10  20");
    assert_eq!(e.token, Vec::<u8>::new());
    assert_eq!(e.line, b"10  20".to_vec());
}

#[test]
fn first_bad_token_is_reported() {
    let e = err(b"10 ?? x1 yy");
    assert_eq!(e.token, b"x1".to_vec());
}

#[test]
fn from_text_skips_blank_lines() {
    let set = Pattern::from_text("demo".to_string(), b"10 20\n\nff ??\n").unwrap();
    assert_eq!(set.name, "demo");
    assert_eq!(set.patterns.len(), 2);
    assert_eq!(set.patterns[0].render(), b"10 20".to_vec());
    assert_eq!(set.patterns[1].render(), b"ff ??".to_vec());
}

#[test]
fn from_text_reports_bad_line() {
    let e = Pattern::from_text("demo".to_string(), b"10\nzz qq\n").err().unwrap();
    assert_eq!(e.token, b"zz".to_vec());
    assert_eq!(e.line, b"zz qq".to_vec());
}

#[test]
fn search_reports_only_matching_signatures() {
    let set = Pattern::from_text(
        "demo".to_string(),
        b"10 20\nde ad\n? ? ? ? ? ? ? ?\nff\n",
    )
    .unwrap();
    let hay = [0x10u8, 0x20, 0xFF, 0x10, 0x20];
    let reports: Vec<MatchReport> = set.search(&hay);
    assert_eq!(reports.len(), 2);
    assert_eq!(reports[0].set_name, "demo");
    assert_eq!(reports[0].pattern_text, b"10 20".to_vec());
    assert_eq!(reports[0].offsets, vec![0, 3]);
    assert_eq!(reports[1].pattern_text, b"ff".to_vec());
    assert_eq!(reports[1].offsets, vec![2]);
}

#[test]
fn run_partition_concatenates_in_set_order() {
    let a = Pattern::from_text("a".to_string(), b"10\nff\n").unwrap();
    let b = Pattern::from_text("b".to_string(), b"10 ?\n").unwrap();
    let sets = vec![a, b];
    let hay = [0x10u8, 0xFF];
    let reports = run_partition(&sets, &hay);
    assert_eq!(reports.len(), 3);
    assert_eq!(reports[0].set_name, "a");
    assert_eq!(reports[0].pattern_text, b"10".to_vec());
    assert_eq!(reports[1].set_name, "a");
    assert_eq!(reports[1].pattern_text, b"ff".to_vec());
    assert_eq!(reports[2].set_name, "b");
    assert_eq!(reports[2].offsets, vec![0]);
}

#[test]
fn run_partition_is_deterministic() {
    let a = Pattern::from_text("a".to_string(), b"10 ?\nff\n").unwrap();
    let sets = vec![a];
    let hay = [0x10u8, 0xFF, 0x10, 0x33];
    let first = run_partition(&sets, &hay);
    let second = run_partition(&sets, &hay);
    assert_eq!(first.len(), second.len());
    for (x, y) in first.iter().zip(second.iter()) {
        assert_eq!(x.set_name, y.set_name);
        assert_eq!(x.pattern_text, y.pattern_text);
        assert_eq!(x.offsets, y.offsets);
    }
}

#[test]
fn round_robin_covers_every_set_once() {
    let mut sets = Vec::new();
    for i in 0..7 {
        sets.push(Pattern::from_text(format!("s{i}"), b"aa").unwrap());
    }
    let buckets = partition(sets, 3);
    assert_eq!(buckets.len(), 3);
    let mut seen = vec![false; 7];
    for (k, bucket) in buckets.iter().enumerate() {
        for (m, set) in bucket.iter().enumerate() {
            let idx = k + m * 3;
            assert_eq!(set.name, format!("s{idx}"));
            assert!(!seen[idx]);
            seen[idx] = true;
        }
    }
    assert!(seen.iter().all(|&s| s));
}

#[test]
fn partition_of_nothing_uses_no_workers() {
    let buckets = partition(Vec::new(), 4);
    assert_eq!(buckets.len(), 0);
}

#[test]
fn partition_never_exceeds_set_count() {
    let a = Pattern::from_text("a".to_string(), b"aa").unwrap();
    let b = Pattern::from_text("b".to_string(), b"bb").unwrap();
    let buckets = partition(vec![a, b], 4);
    assert_eq!(buckets.len(), 2);
    assert_eq!(buckets[0].len(), 1);
    assert_eq!(buckets[1].len(), 1);
}
