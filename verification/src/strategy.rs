use vstd::prelude::*;

verus! {

/// The ways of turning the root children's final statistics into one
/// chosen action after the search loop ends.
pub enum Strategy {
    /// The child with the highest visit count.
    MostVisited,
    /// The child with the highest mean reward.
    HighestQValue,
    /// One child drawn from a softmax over the children's mean rewards.
    Probabilistic,
    /// A child whose recorded transition reward was strictly positive,
    /// if any; otherwise one of the children tied for the best mean
    /// reward.
    HeuristicWin,
}

} // verus!
