//! How well a learner knows a card.
//!
//! A card is known at one of four levels, 0 to 3. A right answer lifts the
//! card one level and gives it a safety net; a wrong answer uses up the
//! safety net, or, without one, lowers the card one level.

use vstd::prelude::*;

verus! {

/// The highest level.
pub const MAX_LEVEL: u8 = 3;

/// `value`, or the highest level where `value` lies above it.
pub open spec fn capped(value: int) -> int {
    if value <= MAX_LEVEL {
        value
    } else {
        MAX_LEVEL as int
    }
}

/// The level after a right answer at `level`.
pub open spec fn raised(level: int) -> int {
    capped(level + 1)
}

/// The level after a wrong answer at `level`.
pub open spec fn lowered(level: int, safety_net: bool) -> int {
    if safety_net || level == 0 {
        level
    } else {
        level - 1
    }
}

/// A level from 0 to 3.
#[derive(Debug, Clone, Copy, PartialEq, Eq, PartialOrd, Ord, Hash)]
pub struct KnowledgeLevel(u8);

impl View for KnowledgeLevel {
    type V = int;

    closed spec fn view(&self) -> int {
        self.0 as int
    }
}

impl KnowledgeLevel {
    #[verifier::type_invariant]
    spec fn in_range(self) -> bool {
        self.0 <= MAX_LEVEL
    }

    /// The level `value`, where there is one.
    pub fn new(value: u8) -> (level: Option<KnowledgeLevel>)
        ensures
            value <= MAX_LEVEL ==> level is Some && level->Some_0@ == value,
            value > MAX_LEVEL ==> level is None,
    {
        if value <= MAX_LEVEL {
            Some(KnowledgeLevel(value))
        } else {
            None
        }
    }

    /// The level `value`, or the highest level where `value` lies above it.
    pub fn saturating(value: u8) -> (level: KnowledgeLevel)
        ensures
            level@ == capped(value as int),
    {
        if value <= MAX_LEVEL {
            KnowledgeLevel(value)
        } else {
            KnowledgeLevel(MAX_LEVEL)
        }
    }

    /// The level as a number.
    pub fn get(self) -> (value: u8)
        ensures
            value == self@,
            value <= MAX_LEVEL,
    {
        proof {
            use_type_invariant(self);
        }
        self.0
    }
}

impl Default for KnowledgeLevel {
    fn default() -> (level: KnowledgeLevel)
        ensures
            level@ == 0,
    {
        KnowledgeLevel(0)
    }
}

/// What is known of a card: its level, and whether it has a safety net.
#[derive(Debug, Clone, Copy, PartialEq, Eq, PartialOrd, Ord, Hash)]
pub struct Knowledge {
    /// The level, from 0 to 3.
    pub level: KnowledgeLevel,
    /// A safety net keeps the level where it is at the next wrong answer.
    pub safety_net: bool,
}

impl Knowledge {
    /// The knowledge after a right answer: one level up, with a safety net.
    pub fn correct(self) -> (after: Knowledge)
        ensures
            after.level@ == raised(self.level@),
            after.safety_net,
    {
        Knowledge { level: KnowledgeLevel::saturating(self.level.get() + 1), safety_net: true }
    }

    /// The knowledge after a wrong answer: the safety net is gone, or, where there was none,
    /// the level is one lower.
    pub fn incorrect(self) -> (after: Knowledge)
        ensures
            after.level@ == lowered(self.level@, self.safety_net),
            !after.safety_net,
    {
        let level = self.level.get();
        let lower = if self.safety_net || level == 0 {
            level
        } else {
            level - 1
        };
        Knowledge { level: KnowledgeLevel::saturating(lower), safety_net: false }
    }
}

impl Default for Knowledge {
    fn default() -> (knowledge: Knowledge)
        ensures
            knowledge.level@ == 0,
            !knowledge.safety_net,
    {
        Knowledge { level: KnowledgeLevel(0), safety_net: false }
    }
}

/// No sequence of answers leads out of the levels 0 to 3.
pub proof fn lemma_levels_stay_in_range(level: int, safety_net: bool)
    requires
        0 <= level <= MAX_LEVEL,
    ensures
        0 <= raised(level) <= MAX_LEVEL,
        0 <= lowered(level, safety_net) <= MAX_LEVEL,
{
}

/// A wrong answer after a right one leaves the level that the right answer gave.
pub proof fn lemma_safety_net_holds(level: int)
    ensures
        lowered(raised(level), true) == raised(level),
{
}

} // verus!
