use fandango_targets::alpenglow::KPathCoverage;
use fandango_targets::coverage::grammar_fingerprint;

fn known() -> Vec<Vec<usize>> {
    vec![vec![1], vec![1, 2], vec![3], vec![1, 2]]
}

#[test]
fn fingerprint_is_fnv1a() {
    assert_eq!(grammar_fingerprint(b""), 0xcbf2_9ce4_8422_2325);
    assert_eq!(grammar_fingerprint(b"a"), 0xaf63_dc4c_8601_ec8c);
    assert_eq!(grammar_fingerprint(b"foobar"), 0x8594_4171_f739_67e8);
}

#[test]
fn observed_known_paths_are_covered() {
    let mut coverage = KPathCoverage::new(2, 0x1234, &known());
    assert_eq!(coverage.totals(), (0, 3));
    coverage.observe(&vec![vec![3], vec![1, 2], vec![9], vec![3]]);
    assert_eq!(coverage.totals(), (2, 3));
    coverage.observe(&vec![vec![1, 2]]);
    assert_eq!(coverage.totals(), (2, 3));
}

#[test]
fn state_text_lists_sorted_paths() {
    let mut coverage = KPathCoverage::new(2, 0x1234, &known());
    coverage.observe(&vec![vec![3], vec![1, 2], vec![1]]);
    assert_eq!(
        coverage.state_text(),
        "fandango-kpath-v1\nk=2\ngrammar=0000000000001234\n1\n1,2\n3\n"
    );
}

#[test]
fn state_text_loads_back() {
    let mut coverage = KPathCoverage::new(2, 0xfedc_ba98_7654_3210, &known());
    coverage.observe(&vec![vec![3], vec![1, 2]]);
    let text = coverage.state_text();
    let loaded = KPathCoverage::load_state(2, 0xfedc_ba98_7654_3210, &known(), &text).unwrap();
    assert_eq!(loaded.totals(), (2, 3));
    assert_eq!(loaded.state_text(), text);
}

#[test]
fn state_loading_accepts_blank_lines_and_any_hex_case() {
    let text = "fandango-kpath-v1\nk=2\ngrammar=+000000000000ABCD\n\n3\n\n1\n";
    let loaded = KPathCoverage::load_state(2, 0xabcd, &known(), text).unwrap();
    assert_eq!(loaded.totals(), (2, 3));
}

fn load_error(text: &str) -> String {
    match KPathCoverage::load_state(2, 0x1234, &known(), text) {
        Ok(_) => panic!("state should be refused"),
        Err(e) => e,
    }
}

#[test]
fn state_loading_reports_each_problem() {
    assert_eq!(load_error(""), "invalid state header");
    assert_eq!(load_error("fandango-kpath-v2\n"), "invalid state header");
    assert_eq!(load_error("fandango-kpath-v1\n"), "invalid k value");
    assert_eq!(load_error("fandango-kpath-v1\nk=two\n"), "invalid k value");
    assert_eq!(load_error("fandango-kpath-v1\nk=3\n"), "state uses k=3, requested k=2");
    assert_eq!(load_error("fandango-kpath-v1\nk=2\n"), "invalid grammar fingerprint");
    assert_eq!(
        load_error("fandango-kpath-v1\nk=2\ngrammar=xyz\n"),
        "invalid grammar fingerprint"
    );
    assert_eq!(
        load_error("fandango-kpath-v1\nk=2\ngrammar=00000000000000ff\n"),
        "state belongs to a different Alpenglow grammar"
    );
    let head = "fandango-kpath-v1\nk=2\ngrammar=0000000000001234\n";
    assert_eq!(
        load_error(&format!("{head}1,x\n")),
        "invalid path \"1,x\": invalid digit found in string"
    );
    assert_eq!(
        load_error(&format!("{head}1,\n")),
        "invalid path \"1,\": cannot parse integer from empty string"
    );
    assert_eq!(load_error(&format!("{head}1,2,3\n")), "invalid grammar path: 1,2,3");
    assert_eq!(load_error(&format!("{head}3\n7\n")), "unknown grammar path: 7");
}

#[test]
fn observing_only_grows_coverage_up_to_the_total() {
    let mut coverage = KPathCoverage::new(2, 0x1234, &known());
    let mut last = coverage.totals();
    for found in [vec![vec![9]], vec![vec![3]], vec![vec![1], vec![1, 2], vec![3]], vec![vec![1]]] {
        coverage.observe(&found);
        let now = coverage.totals();
        assert_eq!(now.1, last.1);
        assert!(last.0 <= now.0 && now.0 <= now.1);
        last = now;
    }
    assert_eq!(last, (3, 3));
}
