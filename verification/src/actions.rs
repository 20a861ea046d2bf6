use vstd::prelude::*;

verus! {

/// The actions a player can take during a hand.
#[derive(Debug, Clone, PartialEq, Eq)]
pub enum Action {
    PlayFaceUp { card_id: String },
    PlayFaceDown { card_id: String },
    Raise { to: u8 },
    AcceptRaise,
    Fold,
    AcceptEleven,
    FoldEleven,
    ConcedeHand,
}

impl Action {
    /// Every action but conceding the hand is a strategic choice.
    pub fn is_strategic(&self) -> (r: bool)
        ensures
            r == !(*self is ConcedeHand),
    {
        !matches!(self, Action::ConcedeHand)
    }

    /// A copy of the action that is equal to it as a value.
    pub fn duplicate(&self) -> (r: Action)
        ensures
            r == *self,
    {
        match self {
            Action::PlayFaceUp { card_id } => Action::PlayFaceUp { card_id: card_id.clone() },
            Action::PlayFaceDown { card_id } => Action::PlayFaceDown { card_id: card_id.clone() },
            Action::Raise { to } => Action::Raise { to: *to },
            Action::AcceptRaise => Action::AcceptRaise,
            Action::Fold => Action::Fold,
            Action::AcceptEleven => Action::AcceptEleven,
            Action::FoldEleven => Action::FoldEleven,
            Action::ConcedeHand => Action::ConcedeHand,
        }
    }
}

} // verus!
