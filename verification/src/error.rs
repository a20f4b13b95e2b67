//! The errors of the session layer.
use crate::input::{InputCode, Key};
use vstd::prelude::*;

verus! {

/// What is wrong with a setting.
#[derive(Clone, Copy, Debug, PartialEq, Eq, Structural)]
pub enum SettingFault {
    WidthTooNarrow,
    WidthTooWide,
    HeightTooNarrow,
    HeightTooWide,
}

/// What went wrong.
#[derive(Clone, Copy, Debug, PartialEq, Eq, Structural)]
pub enum ErrorId {
    /// The configuration asks for what the game cannot do.
    InvalidSetting(SettingFault),
    /// The input has no meaning in the current state of the interface.
    IgnoredInput(InputCode),
    /// No input is bound to the key.
    InvalidInput(Key),
    /// The command is known, but nothing carries it out yet.
    Unimplemented,
}

pub type GameResult<T> = Result<T, ErrorId>;

} // verus!
