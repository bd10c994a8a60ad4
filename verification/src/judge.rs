use vstd::prelude::*;

verus! {

/// How a battle between attacking and defending words ends.
#[derive(Debug, PartialEq, Eq)]
pub enum Outcome {
    /// There was nothing to fight over.
    NoBattle,
    /// The attack failed: every attacking word is lost.
    DefenderWins,
    /// The attack succeeded: the defending words at these places of the
    /// list of defenders are lost.
    AttackerWins(Vec<usize>),
}

/// The policy that decides battles: which words are valid, and which words
/// beat which.
pub trait Judge {
    /// Decides the battle of `attackers` against `defenders`, each word
    /// spelled as its owner reads it.
    fn battle(&self, attackers: Vec<String>, defenders: Vec<String>) -> Outcome;
}

} // verus!
