//! The states of the interface: the dungeon, or a dialog in front of it.
use crate::input::System;
use vstd::prelude::*;

verus! {

/// The dialogs.
#[derive(Clone, Copy, Debug, PartialEq, Eq, Structural, Hash)]
pub enum MordalKind {
    /// The list of what the player carries.
    Inventory,
    /// The question whether to leave the game.
    Quit,
}

/// What the interface shows.
#[derive(Clone, Copy, Debug, PartialEq, Eq, Structural, Hash)]
pub enum UiState {
    Dungeon,
    Mordal(MordalKind),
}

/// What a dialog answers to an input.
#[derive(Clone, Copy, Debug, PartialEq, Eq, Structural, Hash)]
pub enum MordalMsg {
    /// Close the dialog.
    Cancel,
    /// Save the game.
    Save,
    /// Leave the game.
    Quit,
    /// The input means nothing to the dialog.
    Ignored,
}

impl MordalKind {
    /// The answer of the dialog to `input`: the question whether to leave is
    /// answered by yes, no, cancel and save; the inventory closes on cancel,
    /// continue and enter.
    pub open spec fn answer(self, input: System) -> MordalMsg {
        match self {
            MordalKind::Quit => match input {
                System::Yes => MordalMsg::Quit,
                System::No | System::Cancel => MordalMsg::Cancel,
                System::Save => MordalMsg::Save,
                _ => MordalMsg::Ignored,
            },
            MordalKind::Inventory => match input {
                System::Cancel | System::Continue | System::Enter => MordalMsg::Cancel,
                _ => MordalMsg::Ignored,
            },
        }
    }

    /// Answers `input`.
    pub fn process(&mut self, input: System) -> (msg: MordalMsg)
        ensures
            msg == old(self).answer(input),
            *final(self) == *old(self),
    {
        match self {
            MordalKind::Quit => match input {
                System::Yes => MordalMsg::Quit,
                System::No | System::Cancel => MordalMsg::Cancel,
                System::Save => MordalMsg::Save,
                _ => MordalMsg::Ignored,
            },
            MordalKind::Inventory => match input {
                System::Cancel | System::Continue | System::Enter => MordalMsg::Cancel,
                _ => MordalMsg::Ignored,
            },
        }
    }
}

} // verus!
