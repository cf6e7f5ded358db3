use codemap::eval::{lexical_ranks, percent, rank_of, RankTally};
use codemap::extractor::Function;
use codemap::search::search;

fn func(name: &str) -> Function {
    Function {
        name: name.to_string(),
        owner: None,
        file: "f.rs".to_string(),
        line: 1,
        body: format!("fn {}() {{}}", name),
        calls: Vec::new(),
        doc: String::new(),
    }
}

#[test]
fn rank_of_finds_the_first_accepted_answer() {
    let fns = vec![func("stop_now"), func("abort"), func("abort_all")];
    let hits = search(&fns, "abort stop", 10);
    assert_eq!(rank_of(&hits, &["abort_all", "abort"]), Some(1));
    assert_eq!(rank_of(&hits, &["missing"]), None);
    assert_eq!(rank_of(&hits[..0], &["abort"]), None);
}

#[test]
fn tally_counts_thresholds() {
    let mut t = RankTally::new();
    for r in [Some(0), Some(2), Some(4), Some(7), None] {
        t.record(r);
    }
    assert_eq!((t.top1, t.top3, t.top5), (1, 2, 3));
}

#[test]
fn percentages_round_down() {
    assert_eq!(percent(3, 8), 37);
    assert_eq!(percent(8, 8), 100);
    assert_eq!(percent(0, 8), 0);
}

#[test]
fn lexical_ranks_per_case() {
    let fns = vec![func("stop_now"), func("abort"), func("abort_all"), func("child_token")];
    let cases: &[(&str, &[&str])] = &[
        ("abort stop", &["abort_all", "abort"]),
        ("create a child of a token", &["child_token"]),
        ("nothing here", &["abort"]),
    ];
    let ranks = lexical_ranks(&fns, cases);
    assert_eq!(ranks, vec![Some(1), Some(0), None]);
}
