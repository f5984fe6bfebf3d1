use terminal_tetris::highscore_controller::{
    cleanup_scores, earns_place, parse_score_str, scores_text, sort_scores, NameScore,
};

fn ns(name: &str, score: u32) -> NameScore {
    NameScore { name: String::from(name), score }
}

fn pairs(v: &[NameScore]) -> Vec<(String, u32)> {
    v.iter().map(|n| (n.name.clone(), n.score)).collect()
}

fn owned(v: &[(&str, u32)]) -> Vec<(String, u32)> {
    v.iter().map(|(n, s)| (String::from(*n), *s)).collect()
}

#[test]
fn parse_two_entries() {
    let r = parse_score_str("anna:120;bob:45;");
    assert_eq!(pairs(&r), owned(&[("anna", 120), ("bob", 45)]));
}

#[test]
fn parse_without_semicolon_is_empty() {
    assert!(parse_score_str("anna:120").is_empty());
    assert!(parse_score_str("").is_empty());
}

#[test]
fn parse_skips_pieces_without_colon() {
    let r = parse_score_str("junk;carl:9;;x");
    assert_eq!(pairs(&r), owned(&[("carl", 9)]));
}

#[test]
fn parse_bad_number_counts_as_zero() {
    let r = parse_score_str("a:abc;b:;c:-3;d:99999999999;");
    assert_eq!(pairs(&r), owned(&[("a", 0), ("b", 0), ("c", 0), ("d", 0)]));
}

#[test]
fn parse_takes_text_between_first_two_colons() {
    let r = parse_score_str("eve:17:extra;:5;f:+8;");
    assert_eq!(pairs(&r), owned(&[("eve", 17), ("", 5), ("f", 8)]));
}

#[test]
fn parse_last_piece_without_semicolon() {
    let r = parse_score_str("g:1;h:2");
    assert_eq!(pairs(&r), owned(&[("g", 1), ("h", 2)]));
}

#[test]
fn sort_is_descending_and_stable() {
    let mut v = vec![ns("a", 5), ns("b", 9), ns("c", 5), ns("d", 12), ns("e", 9)];
    sort_scores(&mut v);
    assert_eq!(pairs(&v), owned(&[("d", 12), ("b", 9), ("e", 9), ("a", 5), ("c", 5)]));
}

#[test]
fn sort_empty() {
    let mut v: Vec<NameScore> = Vec::new();
    sort_scores(&mut v);
    assert!(v.is_empty());
}

#[test]
fn cleanup_drops_zero_and_keeps_ten_best() {
    let mut v = vec![ns("zero", 0)];
    for i in 1..=12u32 {
        v.push(ns(&format!("p{}", i), i * 10));
    }
    cleanup_scores(&mut v);
    assert_eq!(v.len(), 10);
    assert_eq!(v[0].score, 120);
    assert_eq!(v[9].score, 30);
    assert!(v.iter().all(|n| n.score > 0));
}

#[test]
fn cleanup_short_table() {
    let mut v = vec![ns("a", 3), ns("b", 0), ns("c", 7)];
    cleanup_scores(&mut v);
    assert_eq!(pairs(&v), owned(&[("c", 7), ("a", 3)]));
}

#[test]
fn earns_place_rules() {
    let mut full: Vec<NameScore> = Vec::new();
    for i in 0..10u32 {
        full.push(ns("p", 100 - i));
    }
    assert!(!earns_place(&full, 0));
    assert!(!earns_place(&full, 91));
    assert!(earns_place(&full, 92));
    let short = vec![ns("a", 500)];
    assert!(earns_place(&short, 1));
    assert!(!earns_place(&short, 0));
}

#[test]
fn scores_text_trims_and_orders() {
    let v = vec![ns(" ann \n", 42), ns("bo", 1000), ns("cy", 7)];
    assert_eq!(scores_text(v), "bo:1000;ann:42;cy:7;");
}

#[test]
fn scores_text_keeps_ten() {
    let mut v = Vec::new();
    for i in 0..11u32 {
        v.push(ns("n", i));
    }
    let text = scores_text(v);
    assert_eq!(text.matches(';').count(), 10);
    assert!(text.starts_with("n:10;n:9;"));
    assert!(text.ends_with("n:1;"));
}

#[test]
fn scores_text_round_trips_through_parse() {
    let v = vec![ns("kim", 300), ns("lee", 20)];
    let text = scores_text(v);
    assert_eq!(pairs(&parse_score_str(&text)), owned(&[("kim", 300), ("lee", 20)]));
}
