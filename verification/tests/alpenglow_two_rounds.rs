use fandango_targets::alpenglow_two_rounds::{
    stakes_from_cuts, vote_for_draw, generate_tree, validate_tree, Scenario, Vote, NUM_SLOTS, TOTAL_STAKE, VALIDATOR_COUNT,
};
use rand::rngs::StdRng;
use rand::SeedableRng;

#[test]
fn generated_scenario_has_requested_shape() {
    let scenario = Scenario::generate(&mut StdRng::seed_from_u64(7));

    assert_eq!(scenario.stakes.len(), VALIDATOR_COUNT);
    assert!(scenario.stakes.iter().all(|stake| *stake > 0));
    assert_eq!(scenario.stakes.iter().sum::<u64>(), TOTAL_STAKE);
    assert_eq!(scenario.slots.len(), NUM_SLOTS);
    assert!(scenario.slots.iter().all(|slot| {
        slot.round1.len() == VALIDATOR_COUNT && slot.round2.len() == VALIDATOR_COUNT
    }));
    assert!(scenario.validate().is_empty());
}

#[test]
fn rendered_scenario_round_trips() {
    let scenario = Scenario::generate(&mut StdRng::seed_from_u64(11));
    let parsed = Scenario::parse(&scenario.render()).unwrap();

    assert_eq!(parsed, scenario);
}

#[test]
fn typed_tree_generation_validates() {
    let tree = generate_tree(&mut StdRng::seed_from_u64(13));

    assert!(validate_tree(tree.into_bytes()).is_ok());
}

#[test]
fn two_rounds_stake_sum_is_checked() {
    let mut scenario = Scenario::generate(&mut StdRng::seed_from_u64(3));
    scenario.stakes[0] += 1;
    let violations = scenario.validate();
    assert!(!violations.is_empty());
    let rendered = scenario.render();
    let parsed = Scenario::parse(&rendered).unwrap();
    assert_eq!(parsed.validate(), violations);
}

#[test]
fn two_rounds_zero_stake_is_reported() {
    let mut scenario = Scenario::generate(&mut StdRng::seed_from_u64(4));
    let moved = scenario.stakes[0];
    scenario.stakes[0] = 0;
    scenario.stakes[1] += moved;
    let violations = scenario.validate();
    assert_eq!(violations.len(), 1);
}

#[test]
fn two_rounds_parse_rejects_truncated_text() {
    let scenario = Scenario::generate(&mut StdRng::seed_from_u64(5));
    let rendered = scenario.render();
    let cut = &rendered[..rendered.len() / 2];
    assert!(Scenario::parse(cut).is_err());
    assert!(Scenario::parse("").is_err());
}

#[test]
fn two_rounds_parse_accepts_trailing_blank_lines() {
    let scenario = Scenario::generate(&mut StdRng::seed_from_u64(6));
    let mut rendered = scenario.render();
    rendered.push_str("\n   \n");
    assert_eq!(Scenario::parse(&rendered).unwrap(), scenario);
    rendered.push_str("extra\n");
    assert!(Scenario::parse(&rendered).is_err());
}

#[test]
fn two_rounds_rejects_invalid_utf8() {
    let result = validate_tree(vec![0xff, 0xfe]);
    let violations = result.unwrap_err();
    assert_eq!(violations.len(), 1);
    assert!(violations[0].starts_with("generated tree is not UTF-8: "));
}

#[test]
fn two_rounds_generated_votes_name_slot_blocks() {
    let scenario = Scenario::generate(&mut StdRng::seed_from_u64(8));
    for slot in &scenario.slots {
        for vote in slot.round1.iter().chain(slot.round2.iter()) {
            match vote {
                Vote::Notarize(b) | Vote::NotarizeFallback(b) => assert!(*b < 4),
                _ => {}
            }
        }
    }
}

fn first_lines(text: &str, n: usize) -> String {
    text.lines().take(n).map(|l| format!("{l}\n")).collect()
}

#[test]
fn two_rounds_parse_reports_the_first_line_out_of_place() {
    let text = Scenario::generate(&mut StdRng::seed_from_u64(41)).render();
    assert_eq!(
        Scenario::parse(&first_lines(&text, 1)),
        Err("missing committee line for v1".to_string())
    );
    assert_eq!(
        Scenario::parse(&first_lines(&text, 106)),
        Err("expected \"slot\", reached end of input".to_string())
    );
    assert_eq!(
        Scenario::parse(&first_lines(&text, 107)),
        Err("missing round1 in slot 0".to_string())
    );
    let zero = text.replacen("stake=", "stake=0", 0);
    assert!(Scenario::parse(&zero).is_ok());
    let mut lines: Vec<String> = text.lines().map(|l| l.to_string()).collect();
    lines[1] = "  v1 stake=0".to_string();
    let rebuilt: String = lines.iter().map(|l| format!("{l}\n")).collect();
    assert_eq!(Scenario::parse(&rebuilt), Err("v1 has zero stake".to_string()));
    lines[1] = "  v1 weight=5".to_string();
    let rebuilt: String = lines.iter().map(|l| format!("{l}\n")).collect();
    assert_eq!(
        Scenario::parse(&rebuilt),
        Err("invalid stake in committee line: \"  v1 weight=5\"".to_string())
    );
    lines[1] = "  v1 stake=lots".to_string();
    let rebuilt: String = lines.iter().map(|l| format!("{l}\n")).collect();
    assert_eq!(
        Scenario::parse(&rebuilt),
        Err("invalid stake in committee line \"  v1 stake=lots\": invalid digit found in string".to_string())
    );
}

#[test]
fn draws_map_to_votes() {
    assert_eq!(vote_for_draw(0, 0), Vote::Skip);
    assert_eq!(vote_for_draw(1, 0), Vote::Finalize);
    assert_eq!(vote_for_draw(2, 3), Vote::Notarize(3));
    assert_eq!(vote_for_draw(3, 1), Vote::NotarizeFallback(1));
    assert_eq!(vote_for_draw(4, 0), Vote::SkipFallback);
    assert_eq!(vote_for_draw(5, 0), Vote::Absent);
}

#[test]
fn stakes_are_the_gaps_between_cuts() {
    let stakes = stakes_from_cuts(&vec![10, 30, 31]);
    assert_eq!(stakes, vec![10, 20, 1, TOTAL_STAKE - 31]);
    assert_eq!(stakes.iter().sum::<u64>(), TOTAL_STAKE);
    assert_eq!(stakes_from_cuts(&vec![]), vec![TOTAL_STAKE]);
}
