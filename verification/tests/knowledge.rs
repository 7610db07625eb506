use revise::{Knowledge, KnowledgeLevel};

fn knowledge(level: u8, safety_net: bool) -> Knowledge {
    Knowledge { level: KnowledgeLevel::new(level).unwrap(), safety_net }
}

#[test]
fn levels_run_from_zero_to_three() {
    for value in 0..=3 {
        assert_eq!(KnowledgeLevel::new(value).unwrap().get(), value);
    }
    assert_eq!(KnowledgeLevel::new(4), None);
    assert_eq!(KnowledgeLevel::new(255), None);
    assert_eq!(KnowledgeLevel::saturating(2).get(), 2);
    assert_eq!(KnowledgeLevel::saturating(200).get(), 3);
    assert_eq!(KnowledgeLevel::default().get(), 0);
}

#[test]
fn a_right_answer_lifts_the_level() {
    assert_eq!(knowledge(0, false).correct(), knowledge(1, true));
    assert_eq!(knowledge(2, true).correct(), knowledge(3, true));
    assert_eq!(knowledge(3, false).correct(), knowledge(3, true));
}

#[test]
fn a_wrong_answer_uses_the_safety_net_first() {
    assert_eq!(knowledge(1, true).incorrect(), knowledge(1, false));
    assert_eq!(knowledge(1, false).incorrect(), knowledge(0, false));
    assert_eq!(knowledge(0, false).incorrect(), knowledge(0, false));
    assert_eq!(knowledge(3, false).incorrect(), knowledge(2, false));
}

#[test]
fn answers_in_a_row() {
    let mut known = Knowledge::default();
    assert_eq!(known, knowledge(0, false));
    known = known.correct();
    assert_eq!(known, knowledge(1, true));
    known = known.incorrect();
    assert_eq!(known, knowledge(1, false));
    known = known.incorrect();
    assert_eq!(known, knowledge(0, false));
    for _ in 0..20 {
        known = known.correct();
    }
    assert_eq!(known, knowledge(3, true));
}
