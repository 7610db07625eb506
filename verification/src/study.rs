//! A study session: which card can be asked next, and what an answer leads to.
//!
//! A card is not asked twice in a row. The card to ask is chosen by chance among
//! the cards of one level; the chance is rolled outside, and `pick` finds the card
//! that a roll stands for. `advance` says what follows each thing that the
//! learner does.

use crate::guess::{guess, parse_guess};
use crate::knowledge::KnowledgeLevel;
use crate::model::{OptionSet, same_options};
use vstd::prelude::*;

verus! {

/// The levels of `levels` as numbers.
pub open spec fn level_values(levels: Seq<KnowledgeLevel>) -> Seq<int> {
    Seq::new(levels.len(), |i: int| levels[i]@)
}

/// The card at `index` is at `level` and was not asked last.
pub open spec fn choosable(levels: Seq<int>, level: int, previous: Option<int>, index: int) -> bool {
    0 <= index < levels.len() && levels[index] == level && previous != Some(index)
}

/// The number of choosable cards at or behind `from`.
pub open spec fn choosable_from(
    levels: Seq<int>,
    level: int,
    previous: Option<int>,
    from: int,
) -> nat
    decreases levels.len() - from,
{
    if 0 <= from < levels.len() {
        choosable_from(levels, level, previous, from + 1) + if choosable(
            levels,
            level,
            previous,
            from,
        ) {
            1nat
        } else {
            0nat
        }
    } else {
        0
    }
}

/// The number of cards at `level`, not counting the card that was asked last.
pub open spec fn choosable_count(levels: Seq<int>, level: int, previous: Option<int>) -> nat {
    choosable_from(levels, level, previous, 0)
}

/// The choosable card at or behind `from` before which `number` choosable cards stand.
pub open spec fn nth_choosable(
    levels: Seq<int>,
    level: int,
    previous: Option<int>,
    number: nat,
    from: int,
) -> Option<int>
    decreases levels.len() - from,
{
    if 0 <= from < levels.len() {
        if choosable(levels, level, previous, from) {
            if number == 0 {
                Some(from)
            } else {
                nth_choosable(levels, level, previous, (number - 1) as nat, from + 1)
            }
        } else {
            nth_choosable(levels, level, previous, number, from + 1)
        }
    } else {
        None
    }
}

/// There is an `number`-th choosable card where there are more than `number` choosable
/// cards, and only there; and the card that is found is choosable.
pub proof fn lemma_nth_choosable(
    levels: Seq<int>,
    level: int,
    previous: Option<int>,
    number: nat,
    from: int,
)
    requires
        0 <= from,
    ensures
        match nth_choosable(levels, level, previous, number, from) {
            Some(index) => from <= index && choosable(levels, level, previous, index) && number
                < choosable_from(levels, level, previous, from),
            None => number >= choosable_from(levels, level, previous, from),
        },
    decreases levels.len() - from,
{
    if from < levels.len() {
        if choosable(levels, level, previous, from) {
            if number > 0 {
                lemma_nth_choosable(levels, level, previous, (number - 1) as nat, from + 1);
            }
        } else {
            lemma_nth_choosable(levels, level, previous, number, from + 1);
        }
    }
}

/// The index as a number, where there is one.
pub open spec fn index_value(index: Option<usize>) -> Option<int> {
    match index {
        Some(i) => Some(i as int),
        None => None,
    }
}

/// The number of cards at `level`, not counting the card at `previous`.
pub fn count_choosable(levels: &Vec<KnowledgeLevel>, level: u8, previous: Option<usize>) -> (count:
    usize)
    ensures
        count == choosable_count(level_values(levels@), level as int, index_value(previous)),
{
    let ghost values = level_values(levels@);
    let ghost except = index_value(previous);
    let mut count: usize = 0;
    let mut i: usize = levels.len();
    while i > 0
        invariant
            i <= levels.len(),
            values == level_values(levels@),
            except == index_value(previous),
            count == choosable_from(values, level as int, except, i as int),
            count <= levels.len() - i,
        decreases i,
    {
        i -= 1;
        let asked = match previous {
            Some(p) => p == i,
            None => false,
        };
        if levels[i].get() == level && !asked {
            count += 1;
        }
    }
    count
}

/// The number of cards at each level, not counting the card at `previous`.
pub fn distribution(levels: &Vec<KnowledgeLevel>, previous: Option<usize>) -> (counts: [usize; 4])
    ensures
        forall|level: int|
            0 <= level < 4 ==> #[trigger] counts@[level] == choosable_count(
                level_values(levels@),
                level,
                index_value(previous),
            ),
{
    [
        count_choosable(levels, 0, previous),
        count_choosable(levels, 1, previous),
        count_choosable(levels, 2, previous),
        count_choosable(levels, 3, previous),
    ]
}

/// The card that a roll stands for: of the cards at `level`, not counting the card at
/// `previous`, the one before which `number` such cards stand.
pub fn pick(levels: &Vec<KnowledgeLevel>, previous: Option<usize>, level: u8, number: usize) -> (found:
    Option<usize>)
    ensures
        index_value(found) == nth_choosable(
            level_values(levels@),
            level as int,
            index_value(previous),
            number as nat,
            0,
        ),
        found is Some <==> number < choosable_count(
            level_values(levels@),
            level as int,
            index_value(previous),
        ),
{
    let ghost values = level_values(levels@);
    let ghost except = index_value(previous);
    let mut left = number;
    let mut i: usize = 0;
    while i < levels.len()
        invariant
            i <= levels.len(),
            values == level_values(levels@),
            except == index_value(previous),
            nth_choosable(values, level as int, except, left as nat, i as int) == nth_choosable(
                values,
                level as int,
                except,
                number as nat,
                0,
            ),
        decreases levels.len() - i,
    {
        let asked = match previous {
            Some(p) => p == i,
            None => false,
        };
        if levels[i].get() == level && !asked {
            if left == 0 {
                proof {
                    lemma_nth_choosable(values, level as int, except, number as nat, 0);
                }
                return Some(i);
            }
            left -= 1;
        }
        i += 1;
    }
    proof {
        lemma_nth_choosable(values, level as int, except, number as nat, 0);
    }
    None
}

/// What a session remembers from one question to the next.
#[derive(Debug)]
pub struct Session {
    previous: Option<usize>,
}

impl View for Session {
    type V = Option<int>;

    closed spec fn view(&self) -> Option<int> {
        index_value(self.previous)
    }
}

impl Session {
    /// A session in which nothing was asked yet.
    pub fn new() -> (session: Session)
        ensures
            session@ is None,
    {
        Session { previous: None }
    }

    /// Gets ready to ask one of `cards` cards: where there is only one card, it may be asked
    /// again.
    pub fn begin(&mut self, cards: usize)
        requires
            cards > 0,
        ensures
            final(self)@ == if cards == 1 {
                None
            } else {
                old(self)@
            },
    {
        if cards == 1 {
            self.previous = None;
        }
    }

    /// The card that was asked last, which is not asked now.
    pub fn previous(&self) -> (previous: Option<usize>)
        ensures
            index_value(previous) == self@,
    {
        self.previous
    }

    /// Remembers the card that is asked.
    pub fn asked(&mut self, index: usize)
        ensures
            final(self)@ == Some(index as int),
    {
        self.previous = Some(index);
    }
}

/// Where a question stands.
#[derive(Debug, Clone, Copy, PartialEq, Eq, Structural)]
pub enum Stage {
    /// The learner types the answer.
    Answering,
    /// The answer was wrong; the learner may overrule that.
    Judging,
    /// The answer was wrong; the learner types the right answer out.
    Practising,
}

/// What the learner did.
#[derive(Debug)]
pub enum Event {
    /// A line was typed.
    Line(String),
    /// A key was pressed.
    Key(char),
    /// The learner gave up.
    Quit,
}

/// What is to be done next.
#[derive(Debug, Clone, Copy, PartialEq, Eq, Structural)]
pub enum Action {
    /// Read a line in the given stage.
    ReadLine(Stage),
    /// Show the right answer, and read a key.
    ShowAnswer,
    /// Record the answer as right or wrong, and ask the next question.
    Record(bool),
    /// End the session.
    Stop,
}

/// The typed line gives the definitions.
pub open spec fn answers(line: Seq<char>, definitions: Seq<Seq<char>>) -> bool {
    same_options(guess(line), definitions)
}

/// What follows `event` in `stage`. A right answer is recorded as right. A wrong answer is
/// shown to be wrong; the learner overrules that with `c`, or types the right answer out
/// until it is right or the learner gives up, and the answer is recorded as wrong. Giving up
/// before that ends the session. A key in a stage that reads lines, and a line in the stage
/// that reads a key, change nothing.
pub open spec fn next_action(stage: Stage, event: Event, definitions: Seq<Seq<char>>) -> Action {
    match (stage, event) {
        (Stage::Answering, Event::Line(line)) => if answers(line@, definitions) {
            Action::Record(true)
        } else {
            Action::ShowAnswer
        },
        (Stage::Answering, Event::Key(_)) => Action::ReadLine(Stage::Answering),
        (Stage::Answering, Event::Quit) => Action::Stop,
        (Stage::Judging, Event::Key(key)) => if key == 'c' {
            Action::Record(true)
        } else {
            Action::ReadLine(Stage::Practising)
        },
        (Stage::Judging, Event::Line(_)) => Action::ShowAnswer,
        (Stage::Judging, Event::Quit) => Action::Stop,
        (Stage::Practising, Event::Line(line)) => if answers(line@, definitions) {
            Action::Record(false)
        } else {
            Action::ReadLine(Stage::Practising)
        },
        (Stage::Practising, Event::Key(_)) => Action::ReadLine(Stage::Practising),
        (Stage::Practising, Event::Quit) => Action::Record(false),
    }
}

/// The stage after `action`, where the question goes on.
pub open spec fn next_stage(action: Action) -> Option<Stage> {
    match action {
        Action::ReadLine(stage) => Some(stage),
        Action::ShowAnswer => Some(Stage::Judging),
        Action::Record(_) => None,
        Action::Stop => None,
    }
}

/// Says what follows `event` in `stage`, for the card with the given definitions.
pub fn advance(stage: Stage, event: Event, definitions: &OptionSet) -> (action: Action)
    ensures
        action == next_action(stage, event, definitions@),
{
    match event {
        Event::Line(line) => {
            let right = parse_guess(line.as_str()) == *definitions;
            match stage {
                Stage::Answering => {
                    if right {
                        Action::Record(true)
                    } else {
                        Action::ShowAnswer
                    }
                },
                Stage::Judging => Action::ShowAnswer,
                Stage::Practising => {
                    if right {
                        Action::Record(false)
                    } else {
                        Action::ReadLine(Stage::Practising)
                    }
                },
            }
        },
        Event::Key(key) => match stage {
            Stage::Answering => Action::ReadLine(Stage::Answering),
            Stage::Judging => {
                if key == 'c' {
                    Action::Record(true)
                } else {
                    Action::ReadLine(Stage::Practising)
                }
            },
            Stage::Practising => Action::ReadLine(Stage::Practising),
        },
        Event::Quit => match stage {
            Stage::Answering => Action::Stop,
            Stage::Judging => Action::Stop,
            Stage::Practising => Action::Record(false),
        },
    }
}

/// The stage in which the question goes on after `action`.
pub fn stage_after(action: Action) -> (stage: Option<Stage>)
    ensures
        stage == next_stage(action),
{
    match action {
        Action::ReadLine(stage) => Some(stage),
        Action::ShowAnswer => Some(Stage::Judging),
        Action::Record(_) => None,
        Action::Stop => None,
    }
}

} // verus!
