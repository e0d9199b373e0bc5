use fandango_targets::alpenglow::{
    is_alpenglow_target, observer_vote_for_draw, role_for_draw, vote_set_for_draws,
    generate_observer_vote, generate_roles, generate_tree, generate_vote_set, parse_round2_vote,
    parse_vote, parse_vote_set, render_round2_votes, render_votes, simulate_round2,
    validate_tree, AlpenglowGenerator, ConstraintVisitor, Role, Round2Vote, Scenario, Vote,
    MAX_VOTES_PER_VALIDATOR, NUM_SLOTS, VALIDATOR_COUNT,
};
use rand::rngs::StdRng;
use rand::SeedableRng;

fn chars(s: &str) -> Vec<char> {
    s.chars().collect()
}

fn round1_with(observer: Vote, others: Vec<Vote>) -> Vec<Vec<Vote>> {
    let mut round1 = vec![vec![observer]];
    for _ in 1..VALIDATOR_COUNT {
        round1.push(others.clone());
    }
    round1
}

#[test]
fn alpenglow_generated_scenario_has_shape_and_validates() {
    let scenario = Scenario::generate(&mut StdRng::seed_from_u64(7));
    assert_eq!(scenario.roles.len(), VALIDATOR_COUNT);
    assert_eq!(scenario.slots.len(), NUM_SLOTS);
    for slot in &scenario.slots {
        assert_eq!(slot.round1.len(), VALIDATOR_COUNT);
        assert_eq!(slot.round1[0].len(), 1);
        assert!(matches!(slot.round1[0][0], Vote::Block(_) | Vote::Skip));
        assert!(!slot.round2.is_empty() && slot.round2.len() <= 5);
    }
    assert!(scenario.validate().is_empty());
}

#[test]
fn alpenglow_rendered_scenario_round_trips() {
    let scenario = Scenario::generate(&mut StdRng::seed_from_u64(11));
    let parsed = Scenario::parse(&scenario.render()).unwrap();
    assert_eq!(parsed, scenario);
}

#[test]
fn alpenglow_generated_tree_validates() {
    let tree = generate_tree(&mut StdRng::seed_from_u64(13));
    assert!(validate_tree(tree.into_bytes()).is_ok());
    let mut generator = AlpenglowGenerator;
    let text = generator.generate(&mut StdRng::seed_from_u64(14)).unwrap();
    assert!(Scenario::parse(&text).unwrap().validate().is_empty());
}

#[test]
fn alpenglow_wrong_round2_is_reported() {
    let mut scenario = Scenario::generate(&mut StdRng::seed_from_u64(21));
    let expected = scenario.slots[2].round2.clone();
    scenario.slots[2].round2 = if expected == vec![Round2Vote::NoVote] {
        vec![Round2Vote::Finalize]
    } else {
        vec![Round2Vote::NoVote]
    };
    let violations = scenario.validate();
    assert_eq!(violations.len(), 1);
    assert!(violations[0].starts_with("wrong round2 votes in slot 2: expected "));
    let text = scenario.render();
    let result = validate_tree(text.into_bytes());
    assert_eq!(result.unwrap_err(), violations);
}

#[test]
fn alpenglow_observer_must_vote_once() {
    let mut scenario = Scenario::generate(&mut StdRng::seed_from_u64(22));
    scenario.slots[0].round1[0] = vec![Vote::Skip, Vote::Skip];
    let violations = scenario.validate();
    assert_eq!(violations[0], "v1 must have exactly one vote in slot 0");
}

#[test]
fn alpenglow_validator_count_is_checked() {
    let mut scenario = Scenario::generate(&mut StdRng::seed_from_u64(23));
    scenario.roles.pop();
    assert_eq!(scenario.validate(), vec!["expected 100 validators, got 99".to_string()]);
}

#[test]
fn alpenglow_slot_count_is_checked() {
    let mut scenario = Scenario::generate(&mut StdRng::seed_from_u64(24));
    scenario.slots.truncate(3);
    let violations = scenario.validate();
    assert_eq!(violations[0], "expected 32 slots, got 3");
    assert_eq!(violations.len(), 1);
}

#[test]
fn alpenglow_round1_count_is_checked() {
    let mut scenario = Scenario::generate(&mut StdRng::seed_from_u64(25));
    scenario.slots[5].round1.pop();
    let violations = scenario.validate();
    assert!(violations.contains(&"slot 5 has 99 round1 assignments".to_string()));
}

#[test]
fn alpenglow_unanimous_notarization_finalizes() {
    let round1 = round1_with(Vote::Block(0), vec![Vote::Block(0)]);
    let (round2, skips) = simulate_round2(&round1, 0, false);
    assert_eq!(round2, vec![Round2Vote::Notarize(0), Round2Vote::Finalize]);
    assert!(!skips);
}

#[test]
fn alpenglow_skip_with_safe_block_sends_fallback() {
    let round1 = round1_with(Vote::Skip, vec![Vote::Block(1)]);
    let (round2, skips) = simulate_round2(&round1, 0, false);
    assert_eq!(round2, vec![Round2Vote::NotarFallback(1)]);
    assert!(skips);
    let (later, later_skips) = simulate_round2(&round1, 1, false);
    assert_eq!(later, vec![Round2Vote::NotarFallback(1)]);
    assert!(later_skips);
}

#[test]
fn alpenglow_nothing_to_send_is_none() {
    let round1 = round1_with(Vote::Skip, vec![Vote::Absent]);
    let (round2, skips) = simulate_round2(&round1, 0, false);
    assert_eq!(round2, vec![Round2Vote::NoVote]);
    assert!(skips);
}

#[test]
fn alpenglow_already_skipped_observer_is_ignored() {
    let round1 = round1_with(Vote::Block(2), vec![Vote::Absent]);
    let (round2, skips) = simulate_round2(&round1, 1, true);
    assert_eq!(round2, vec![Round2Vote::NoVote]);
    assert!(skips);
}

#[test]
fn alpenglow_split_vote_is_safe_to_skip() {
    let mut round1 = vec![vec![Vote::Block(0)]];
    for v in 1..VALIDATOR_COUNT {
        round1.push(vec![if v % 2 == 0 { Vote::Block(0) } else { Vote::Skip }]);
    }
    let (round2, skips) = simulate_round2(&round1, 0, false);
    assert_eq!(round2, vec![Round2Vote::Notarize(0), Round2Vote::SkipFallback]);
    assert!(skips);
}

#[test]
fn alpenglow_votes_render_in_grammar_syntax() {
    let mut out = String::new();
    render_votes(
        &mut out,
        &vec![Vote::Block(0), Vote::NotarFallback(2), Vote::Skip, Vote::SkipFallback],
    );
    assert_eq!(out, "b1,notar-fallback(b3),skip,skip-fallback");
    let mut absent = String::new();
    render_votes(&mut absent, &vec![Vote::Absent]);
    assert_eq!(absent, "absent");
    let mut round2 = String::new();
    render_round2_votes(
        &mut round2,
        &vec![
            Round2Vote::Notarize(0),
            Round2Vote::Finalize,
            Round2Vote::NotarFallback(1),
            Round2Vote::SkipFallback,
        ],
    );
    assert_eq!(round2, "notarize(b1),finalize,notar-fallback(b2),skip-fallback");
    let mut none = String::new();
    render_round2_votes(&mut none, &vec![Round2Vote::NoVote]);
    assert_eq!(none, "none");
}

#[test]
fn alpenglow_votes_parse() {
    assert_eq!(parse_vote(&chars("b4")), Ok(Vote::Block(3)));
    assert_eq!(parse_vote(&chars("notar-fallback(b2)")), Ok(Vote::NotarFallback(1)));
    assert_eq!(parse_vote(&chars("skip")), Ok(Vote::Skip));
    assert_eq!(parse_vote(&chars("skip-fallback")), Ok(Vote::SkipFallback));
    assert_eq!(parse_vote(&chars("absent")), Ok(Vote::Absent));
    assert_eq!(
        parse_vote(&chars("b5")),
        Err("block number is out of range: 5".to_string())
    );
    assert_eq!(
        parse_vote(&chars("bx")),
        Err("invalid block number \"x\": invalid digit found in string".to_string())
    );
    assert_eq!(parse_vote(&chars("vote")), Err("invalid vote: \"vote\"".to_string()));
    assert_eq!(parse_round2_vote(&chars("none")), Ok(Round2Vote::NoVote));
    assert_eq!(parse_round2_vote(&chars("notarize(b1)")), Ok(Round2Vote::Notarize(0)));
    assert_eq!(parse_round2_vote(&chars("finalize")), Ok(Round2Vote::Finalize));
    assert_eq!(
        parse_round2_vote(&chars("skip")),
        Err("invalid round2 vote: \"skip\"".to_string())
    );
}

#[test]
fn alpenglow_vote_sets_parse() {
    assert_eq!(
        parse_vote_set(&chars("b1,skip,b1")),
        Ok(vec![Vote::Block(0), Vote::Skip, Vote::Block(0)])
    );
    assert!(parse_vote_set(&chars("absent,b1")).is_err());
    assert!(parse_vote_set(&chars("b1,b1,b1,b1,b1,b1")).is_err());
    assert_eq!(parse_vote_set(&chars("absent")), Ok(vec![Vote::Absent]));
}

#[test]
fn alpenglow_roles_have_names() {
    assert_eq!(Role::Honest.as_str(), "honest");
    assert_eq!(Role::Absent.as_str(), "absent");
    assert_eq!(Role::Byzantine.as_str(), "byzantine");
    assert_eq!(generate_roles(&mut StdRng::seed_from_u64(1)).len(), VALIDATOR_COUNT);
}

#[test]
fn alpenglow_random_votes_stay_in_grammar() {
    let mut rng = StdRng::seed_from_u64(99);
    for _ in 0..200 {
        let observer = generate_observer_vote(&mut rng);
        assert!(matches!(observer, Vote::Skip | Vote::Block(0..=3)));
        let set = generate_vote_set(&mut rng);
        assert!(!set.is_empty() && set.len() <= MAX_VOTES_PER_VALIDATOR);
        assert!(set == vec![Vote::Absent] || !set.contains(&Vote::Absent));
    }
}

#[test]
fn alpenglow_parse_errors_are_reported() {
    assert_eq!(
        Scenario::parse(""),
        Err("expected \"committee:\", reached end of input".to_string())
    );
    assert_eq!(
        Scenario::parse("committee\n"),
        Err("expected \"committee:\", got \"committee\"".to_string())
    );
    let scenario = Scenario::generate(&mut StdRng::seed_from_u64(30));
    let text = scenario.render().replacen("role=honest", "role=sleepy", 1);
    if text != scenario.render() {
        let error = Scenario::parse(&text).unwrap_err();
        assert!(error.starts_with("invalid role in committee line: "));
    }
}

#[test]
fn alpenglow_visitor_records_paths() {
    let mut visitor = ConstraintVisitor::new();
    assert!(!visitor.checked());
    visitor.visit_output(b"committee:\n".to_vec(), 7);
    assert!(visitor.checked());
    assert_eq!(visitor.violations().len(), 1);
    assert_eq!(visitor.paths().len(), 1);
    assert_eq!(visitor.paths()[0].iter().copied().collect::<Vec<_>>(), vec![7]);
    let tree = generate_tree(&mut StdRng::seed_from_u64(31));
    visitor.visit_output(tree.into_bytes(), 0);
    assert_eq!(visitor.violations().len(), 1);
}

fn first_lines(text: &str, n: usize) -> String {
    text.lines().take(n).map(|l| format!("{l}\n")).collect()
}

#[test]
fn alpenglow_parse_reports_the_first_line_out_of_place() {
    let text = Scenario::generate(&mut StdRng::seed_from_u64(40)).render();
    assert_eq!(
        Scenario::parse(&first_lines(&text, 2)),
        Err("missing committee line for v2".to_string())
    );
    assert_eq!(
        Scenario::parse(&first_lines(&text, 101)),
        Err("expected \"blocks:\", reached end of input".to_string())
    );
    assert_eq!(
        Scenario::parse(&first_lines(&text, 103)),
        Err("missing b2 in slot 0".to_string())
    );
    assert_eq!(
        Scenario::parse(&first_lines(&text, 107)),
        Err("missing round1 in slot 0".to_string())
    );
    assert_eq!(
        Scenario::parse(&first_lines(&text, 108)),
        Err("missing round2 in slot 0".to_string())
    );
    let broken = text.replacen("  b2=", "  b9=", 1);
    let error = Scenario::parse(&broken).unwrap_err();
    assert!(error.starts_with("invalid block line in slot 0: \"  b9="));
    let short_id = text.replacen("  b1=", "  b1=0", 1);
    assert_eq!(
        Scenario::parse(&short_id),
        Err("invalid block ID length: 65".to_string())
    );
    let extra = format!("{text}\n  \nnope\n");
    assert_eq!(
        Scenario::parse(&extra),
        Err("unexpected trailing line: \"nope\"".to_string())
    );
}

#[test]
fn draws_map_to_roles_and_votes() {
    assert_eq!(role_for_draw(0), Role::Honest);
    assert_eq!(role_for_draw(1), Role::Absent);
    assert_eq!(role_for_draw(2), Role::Byzantine);
    assert_eq!(observer_vote_for_draw(0), Vote::Skip);
    assert_eq!(observer_vote_for_draw(1), Vote::Block(0));
    assert_eq!(observer_vote_for_draw(4), Vote::Block(3));
    assert_eq!(vote_set_for_draws(0, &vec![]), vec![Vote::Absent]);
    assert_eq!(
        vote_set_for_draws(3, &vec![0, 3, 4, 7, 8, 9, 2]),
        vec![
            Vote::Block(0),
            Vote::Block(3),
            Vote::NotarFallback(0),
            Vote::NotarFallback(3),
            Vote::Skip,
            Vote::SkipFallback,
            Vote::Block(2),
        ]
    );
}

#[test]
fn alpenglow_grammar_is_recognised_by_name() {
    assert!(is_alpenglow_target("alpenglow-simpler.fan"));
    assert!(!is_alpenglow_target("alpenglow_two_rounds.fan"));
    assert!(!is_alpenglow_target("alpenglow-simpler.fan.bak"));
    assert!(!is_alpenglow_target(""));
}

#[test]
fn skipped_observer_ignores_its_own_votes() {
    let others = vec![Vote::Block(1), Vote::NotarFallback(2)];
    let a = round1_with(Vote::Block(1), others.clone());
    let b = round1_with(Vote::Skip, others);
    for slot in [0, 1, 4] {
        let (round2, skips) = simulate_round2(&a, slot, true);
        assert_eq!((round2.clone(), skips), simulate_round2(&b, slot, true));
        assert!(skips);
        assert!(round2
            .iter()
            .all(|v| matches!(v, Round2Vote::NotarFallback(_) | Round2Vote::NoVote)));
    }
}

#[test]
fn visitor_paths_pair_with_violations_over_visits() {
    let mut visitor = ConstraintVisitor::new();
    visitor.visit_output(b"committee:\n".to_vec(), 3);
    let tree = generate_tree(&mut StdRng::seed_from_u64(5));
    visitor.visit_output(tree.into_bytes(), 4);
    visitor.visit_output(vec![0xff, 0xfe], 9);
    assert_eq!(visitor.paths().len(), visitor.violations().len());
    let paths: Vec<Vec<usize>> = visitor
        .paths()
        .iter()
        .map(|p| p.iter().copied().collect())
        .collect();
    assert_eq!(paths, vec![vec![3], vec![9]]);
}
