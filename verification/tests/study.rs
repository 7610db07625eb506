use rand::distributions::Distribution as _;
use rand::{Rng, SeedableRng};
use revise::study::{
    advance, count_choosable, distribution, pick, stage_after, Action, Event, Session, Stage,
};
use revise::{Knowledge, KnowledgeLevel, OptionSet};

fn levels(values: &[u8]) -> Vec<KnowledgeLevel> {
    values.iter().map(|value| KnowledgeLevel::new(*value).unwrap()).collect()
}

fn options(items: &[&str]) -> OptionSet {
    let mut set = OptionSet::new();
    for item in items {
        set.insert((*item).to_owned());
    }
    set
}

fn line(text: &str) -> Event {
    Event::Line(text.to_owned())
}

#[test]
fn cards_are_counted_by_level() {
    let cards = levels(&[0, 3, 1, 0, 0, 2, 3]);
    assert_eq!(distribution(&cards, None), [3, 1, 1, 2]);
    assert_eq!(distribution(&cards, Some(0)), [2, 1, 1, 2]);
    assert_eq!(distribution(&cards, Some(5)), [3, 1, 0, 2]);
    assert_eq!(distribution(&cards, Some(7)), [3, 1, 1, 2]);
    assert_eq!(distribution(&levels(&[]), None), [0, 0, 0, 0]);
    assert_eq!(count_choosable(&cards, 0, Some(3)), 2);
    assert_eq!(count_choosable(&cards, 4, None), 0);
}

#[test]
fn a_roll_stands_for_a_card() {
    let cards = levels(&[0, 3, 1, 0, 0, 2, 3]);
    assert_eq!(pick(&cards, None, 0, 0), Some(0));
    assert_eq!(pick(&cards, None, 0, 1), Some(3));
    assert_eq!(pick(&cards, None, 0, 2), Some(4));
    assert_eq!(pick(&cards, None, 0, 3), None);
    assert_eq!(pick(&cards, Some(3), 0, 1), Some(4));
    assert_eq!(pick(&cards, Some(3), 0, 2), None);
    assert_eq!(pick(&cards, Some(1), 3, 0), Some(6));
    assert_eq!(pick(&cards, None, 2, 0), Some(5));
    assert_eq!(pick(&cards, Some(5), 2, 0), None);
}

#[test]
fn every_choosable_card_has_its_roll() {
    let cards = levels(&[1, 1, 2, 1, 0, 1]);
    for previous in [None, Some(0), Some(3), Some(4)] {
        let counts = distribution(&cards, previous);
        for level in 0..4u8 {
            let mut found = Vec::new();
            for number in 0..counts[usize::from(level)] {
                let index = pick(&cards, previous, level, number).unwrap();
                assert_eq!(cards[index].get(), level);
                assert_ne!(Some(index), previous);
                found.push(index);
            }
            assert!(found.windows(2).all(|pair| pair[0] < pair[1]));
            assert_eq!(pick(&cards, previous, level, counts[usize::from(level)]), None);
        }
    }
}

#[test]
fn a_card_is_not_asked_twice_in_a_row() {
    let mut session = Session::new();
    assert_eq!(session.previous(), None);
    session.begin(3);
    session.asked(2);
    assert_eq!(session.previous(), Some(2));
    session.begin(3);
    assert_eq!(session.previous(), Some(2));
    session.begin(1);
    assert_eq!(session.previous(), None);
}

#[test]
fn answers_are_compared_as_sets() {
    let definitions = options(&["water", "dihydrogen monoxide"]);
    assert_eq!(
        advance(Stage::Answering, line("dihydrogen monoxide,water"), &definitions),
        Action::Record(true)
    );
    assert_eq!(
        advance(Stage::Answering, line("\"water\", water ,dihydrogen monoxide,"), &definitions),
        Action::Record(true)
    );
    assert_eq!(advance(Stage::Answering, line("water"), &definitions), Action::ShowAnswer);
    assert_eq!(advance(Stage::Answering, line(""), &definitions), Action::ShowAnswer);
    assert_eq!(
        advance(Stage::Answering, line("water, dihydrogen monoxide, ice"), &definitions),
        Action::ShowAnswer
    );
}

#[test]
fn a_wrong_answer_is_overruled_or_typed_out() {
    let definitions = options(&["b"]);
    assert_eq!(advance(Stage::Judging, Event::Key('c'), &definitions), Action::Record(true));
    assert_eq!(
        advance(Stage::Judging, Event::Key('x'), &definitions),
        Action::ReadLine(Stage::Practising)
    );
    assert_eq!(advance(Stage::Judging, line("b"), &definitions), Action::ShowAnswer);
    assert_eq!(
        advance(Stage::Practising, line("a"), &definitions),
        Action::ReadLine(Stage::Practising)
    );
    assert_eq!(advance(Stage::Practising, line("b"), &definitions), Action::Record(false));
    assert_eq!(
        advance(Stage::Practising, Event::Key('c'), &definitions),
        Action::ReadLine(Stage::Practising)
    );
    assert_eq!(
        advance(Stage::Answering, Event::Key('c'), &definitions),
        Action::ReadLine(Stage::Answering)
    );
}

#[test]
fn giving_up() {
    let definitions = options(&["b"]);
    assert_eq!(advance(Stage::Answering, Event::Quit, &definitions), Action::Stop);
    assert_eq!(advance(Stage::Judging, Event::Quit, &definitions), Action::Stop);
    assert_eq!(advance(Stage::Practising, Event::Quit, &definitions), Action::Record(false));
}

#[test]
fn stages_follow_actions() {
    assert_eq!(stage_after(Action::ReadLine(Stage::Practising)), Some(Stage::Practising));
    assert_eq!(stage_after(Action::ReadLine(Stage::Answering)), Some(Stage::Answering));
    assert_eq!(stage_after(Action::ShowAnswer), Some(Stage::Judging));
    assert_eq!(stage_after(Action::Record(true)), None);
    assert_eq!(stage_after(Action::Stop), None);
}

fn ask<R: Rng>(session: &mut Session, known: &[Knowledge], weights: [f64; 4], rng: &mut R) -> usize {
    session.begin(known.len());
    let levels: Vec<KnowledgeLevel> = known.iter().map(|knowledge| knowledge.level).collect();
    let choosable = distribution(&levels, session.previous());
    let weights = choosable.into_iter().zip(weights).map(|(count, weight)| (count as f64) * weight);
    let level = rand::distributions::WeightedIndex::new(weights).unwrap().sample(rng);
    let number = rng.gen_range(0..choosable[level]);
    let index = pick(&levels, session.previous(), level as u8, number).unwrap();
    session.asked(index);
    index
}

#[test]
fn no_duplicates() {
    let mut rng = rand::rngs::StdRng::seed_from_u64(7);
    let mut session = Session::new();

    let mut known = vec![Knowledge::default(); 2];

    let mut previous = None;
    for _ in 0..1000 {
        let index = ask(&mut session, &known, [1.0; 4], &mut rng);
        if let Some(previous) = previous {
            assert_ne!(index, previous);
        }
        previous = Some(index);

        known[index] = if rng.gen() { known[index].correct() } else { known[index].incorrect() };
    }

    assert!(previous.is_some());
}

#[test]
fn equal_distribution() {
    let mut rng = rand::rngs::StdRng::seed_from_u64(7);
    let mut session = Session::new();

    let mut known = vec![Knowledge::default(); 5];
    let mut occurrences = (0..known.len()).map(|_| 0).collect::<Vec<_>>();

    const ITERATIONS: usize = 1000;
    for _ in 0..ITERATIONS {
        let index = ask(&mut session, &known, [1.0; 4], &mut rng);
        occurrences[index] += 1;
        known[index] = known[index].correct();
    }

    let average = ITERATIONS / known.len();
    for occurrences in occurrences {
        assert!(
            ((average - 50)..(average + 50)).contains(&occurrences),
            "{occurrences} is too far off {average}"
        );
    }
}
