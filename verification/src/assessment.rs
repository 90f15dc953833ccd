//! The comparable value that ranks candidate actions.

use vstd::prelude::*;

verus! {

/// What kind of move an assessment belongs to.
#[derive(Copy, Clone, Debug, PartialEq, Eq, Structural)]
pub enum ActionType {
    Play,
    Discard,
    Hint,
}

/// The heuristic worth of one candidate action. Higher is better under
/// `better_eq_spec`.
#[derive(PartialEq, Eq, Clone, Copy, Debug, Structural)]
pub struct ActionAssessment {
    pub new_touches: usize,
    pub delay_until_relevant: usize,
    pub is_unconventional: bool,
    pub action_type: ActionType,
    pub sure_influence_on_clue_count: i8,
    pub last_resort: bool,
    pub next_player_might_be_locked_with_no_clue: bool,
    pub tempo: usize,
}

impl ActionAssessment {
    pub open spec fn is_unconventional_spec(self) -> bool {
        self.is_unconventional
    }

    /// `self` ranks at least as high as `other`: conventional beats
    /// unconventional, then not-last-resort, then not-locking the next
    /// player, then a play, then more new touches, then better clue economy,
    /// then lower delay.
    pub open spec fn better_eq_spec(self, other: Self) -> bool {
        if self.is_unconventional_spec() != other.is_unconventional_spec() {
            other.is_unconventional_spec()
        } else if self.last_resort != other.last_resort {
            other.last_resort
        } else if self.next_player_might_be_locked_with_no_clue
            != other.next_player_might_be_locked_with_no_clue {
            other.next_player_might_be_locked_with_no_clue
        } else if (self.action_type == ActionType::Play) != (other.action_type
            == ActionType::Play) {
            self.action_type == ActionType::Play
        } else if self.new_touches != other.new_touches {
            self.new_touches > other.new_touches
        } else if self.sure_influence_on_clue_count != other.sure_influence_on_clue_count {
            self.sure_influence_on_clue_count > other.sure_influence_on_clue_count
        } else {
            self.delay_until_relevant <= other.delay_until_relevant
        }
    }

    /// The sentinel that sorts strictly below every conventional assessment.
    pub fn unconvectional() -> (r: Self)
        ensures
            r.is_unconventional_spec(),
            r.new_touches == 100,
            r.delay_until_relevant == 0,
            r.action_type == ActionType::Hint,
            r.sure_influence_on_clue_count == 9,
            !r.last_resort,
            !r.next_player_might_be_locked_with_no_clue,
            r.tempo == 1000,
    {
        Self {
            is_unconventional: true,
            new_touches: 100,
            delay_until_relevant: 0,
            action_type: ActionType::Hint,
            sure_influence_on_clue_count: 9,
            last_resort: false,
            next_player_might_be_locked_with_no_clue: false,
            tempo: 1000,
        }
    }

    pub fn is_unconventional(&self) -> (r: &bool)
        ensures
            *r == self.is_unconventional_spec(),
    {
        &self.is_unconventional
    }

    /// A conventional assessment with the given measures.
    pub fn new(
        new_touches: usize,
        delay_until_relevant: usize,
        action_type: ActionType,
        sure_influence_on_clue_count: i8,
        last_resort: bool,
        tempo: usize,
    ) -> (r: Self)
        ensures
            !r.is_unconventional_spec(),
            r.new_touches == new_touches,
            r.delay_until_relevant == delay_until_relevant,
            r.action_type == action_type,
            r.sure_influence_on_clue_count == sure_influence_on_clue_count,
            r.last_resort == last_resort,
            !r.next_player_might_be_locked_with_no_clue,
            r.tempo == tempo,
    {
        Self {
            new_touches,
            delay_until_relevant,
            is_unconventional: false,
            action_type,
            sure_influence_on_clue_count,
            last_resort,
            next_player_might_be_locked_with_no_clue: false,
            tempo,
        }
    }

    /// Whether `self` ranks at least as high as `other`.
    pub fn at_least_as_good(&self, other: &Self) -> (r: bool)
        ensures
            r == self.better_eq_spec(*other),
    {
        if self.is_unconventional != other.is_unconventional {
            other.is_unconventional
        } else if self.last_resort != other.last_resort {
            other.last_resort
        } else if self.next_player_might_be_locked_with_no_clue
            != other.next_player_might_be_locked_with_no_clue {
            other.next_player_might_be_locked_with_no_clue
        } else if (matches!(self.action_type, ActionType::Play)) != (matches!(
            other.action_type,
            ActionType::Play,
        )) {
            matches!(self.action_type, ActionType::Play)
        } else if self.new_touches != other.new_touches {
            self.new_touches > other.new_touches
        } else if self.sure_influence_on_clue_count != other.sure_influence_on_clue_count {
            self.sure_influence_on_clue_count > other.sure_influence_on_clue_count
        } else {
            self.delay_until_relevant <= other.delay_until_relevant
        }
    }
}

/// Law: the ranking is total — of any two assessments one ranks at least as
/// high as the other.
pub proof fn lemma_better_eq_total(a: ActionAssessment, b: ActionAssessment)
    ensures
        a.better_eq_spec(b) || b.better_eq_spec(a),
{
}

/// Law: the ranking is transitive.
pub proof fn lemma_better_eq_transitive(
    a: ActionAssessment,
    b: ActionAssessment,
    c: ActionAssessment,
)
    requires
        a.better_eq_spec(b),
        b.better_eq_spec(c),
    ensures
        a.better_eq_spec(c),
{
}

/// Law: the unconventional sentinel never ranks above a conventional
/// assessment.
pub proof fn lemma_unconventional_sorts_last(a: ActionAssessment, b: ActionAssessment)
    requires
        a.is_unconventional_spec(),
        !b.is_unconventional_spec(),
    ensures
        !a.better_eq_spec(b),
        b.better_eq_spec(a),
{
}

/// The comparable worth of one hint considered on its own.
#[derive(PartialEq, Eq, Clone, Copy, Structural)]
pub struct HintValue {
    pub new_touches: usize,
    pub delay_until_relevant: usize,
}

impl HintValue {
    /// `self` is worth at least as much: more new touches, then lower delay.
    pub open spec fn better_eq_spec(self, other: Self) -> bool {
        if self.new_touches != other.new_touches {
            self.new_touches > other.new_touches
        } else {
            self.delay_until_relevant <= other.delay_until_relevant
        }
    }

    /// Whether `self` is worth at least as much as `other`.
    pub fn at_least_as_good(&self, other: &Self) -> (r: bool)
        ensures
            r == self.better_eq_spec(*other),
    {
        if self.new_touches != other.new_touches {
            self.new_touches > other.new_touches
        } else {
            self.delay_until_relevant <= other.delay_until_relevant
        }
    }
}

} // verus!
