use codemap::extractor::Function;
use codemap::search::{is_noise, round_f32, search, tokenize};

fn func(name: &str, owner: Option<&str>, body: &str) -> Function {
    Function {
        name: name.to_string(),
        owner: owner.map(|o| o.to_string()),
        file: "f.rs".to_string(),
        line: 1,
        body: body.to_string(),
        calls: Vec::new(),
        doc: String::new(),
    }
}

/// A score in points, as the library counts it (units of 2^-26 points).
fn points(units: u128) -> f64 {
    units as f64 / 67108864.0
}

#[test]
fn tokenize_splits_snake_case() {
    assert_eq!(tokenize("abort_all"), vec!["abort", "all"]);
}

#[test]
fn tokenize_splits_camel_case() {
    assert_eq!(tokenize("CancellationToken"), vec!["cancellation", "token"]);
    assert_eq!(tokenize("getHTTPResponse"), vec!["get", "httpresponse"]);
}

#[test]
fn tokenize_questions_and_digits() {
    assert_eq!(tokenize("cancel token"), vec!["cancel", "token"]);
    assert_eq!(tokenize("  Stop a running-task! "), vec!["stop", "a", "running", "task"]);
    assert_eq!(tokenize("abc123Def"), vec!["abc123def"]);
    assert!(tokenize("--- ::").is_empty());
    assert!(tokenize("").is_empty());
}

#[test]
fn noise_names() {
    for n in ["fmt", "clone", "eq", "hash", "drop", "default", "from", "as_ref", "borrow"] {
        assert!(is_noise(n));
    }
    assert!(!is_noise("cancel"));
}

#[test]
fn exact_name_word_scores_four_points() {
    let fns = vec![func("poll", None, "fn poll() {}")];
    let hits = search(&fns, "poll", 10);
    assert_eq!(hits.len(), 1);
    // 4 for the name word, 0.5 for the body.
    assert_eq!(points(hits[0].score), 4.5);
}

#[test]
fn score_parts_add_up() {
    let fns = vec![
        func("is_cancelled", Some("CancellationToken"), "fn is_cancelled(&self) -> bool { self.inner.cancelled() }"),
        func("wait", None, "fn wait() {}"),
    ];
    let hits = search(&fns, "cancel token", 10);
    assert_eq!(hits.len(), 1);
    assert_eq!(hits[0].func.name, "is_cancelled");
    // "cancel": part of "cancelled" (2) + body (0.5); "token": owner word (1).
    assert_eq!(points(hits[0].score), 3.5);
}

#[test]
fn noise_functions_keep_three_tenths_as_f32_does() {
    let fns = vec![func("clone", None, "fn clone(&self) -> Self { todo() }")];
    let hits = search(&fns, "clone", 10);
    assert_eq!(hits.len(), 1);
    let expected = 4.5f32 * 0.3f32;
    assert_eq!(points(hits[0].score), expected as f64);
}

#[test]
fn f32_rounding_matches_hardware() {
    for h in [1u128, 7, 9, 50, 90, 100, 12345, 99999, 1 << 30] {
        let v = (h as f32) * 0.5f32;
        let p = 0.3f32 * v;
        let units = round_f32(10066330 * h);
        assert_eq!(points(units), p as f64, "half points {}", h);
    }
}

#[test]
fn results_are_sorted_and_ties_keep_order() {
    let fns = vec![
        func("stop_b", None, "fn stop_b() {}"),
        func("other", None, "fn other() { stop }"),
        func("stop", None, "fn stop() {}"),
        func("stop_a", None, "fn stop_a() {}"),
    ];
    let hits = search(&fns, "stop", 10);
    let names: Vec<&str> = hits.iter().map(|h| h.func.name.as_str()).collect();
    assert_eq!(names, vec!["stop_b", "stop", "stop_a", "other"]);
    for w in hits.windows(2) {
        assert!(w[0].score >= w[1].score);
    }
}

#[test]
fn limit_truncates_to_a_prefix() {
    let fns = vec![
        func("stop_b", None, "fn stop_b() {}"),
        func("other", None, "fn other() { stop }"),
        func("stop", None, "fn stop() {}"),
    ];
    let all = search(&fns, "stop", 10);
    let two = search(&fns, "stop", 2);
    assert_eq!(two.len(), 2);
    assert_eq!(two[0].func.name, all[0].func.name);
    assert_eq!(two[1].func.name, all[1].func.name);
    assert!(search(&fns, "stop", 0).is_empty());
}

#[test]
fn nothing_matches_nothing_found() {
    let fns = vec![func("alpha", None, "fn alpha() {}")];
    assert!(search(&fns, "zzz", 10).is_empty());
    assert!(search(&fns, "", 10).is_empty());
    assert!(search(&[], "alpha", 10).is_empty());
}
