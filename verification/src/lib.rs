//! Core of a roguelike engine: the dungeon layout generator that links a grid
//! of rooms into one connected floor plan, and the session layer around it.
use crate::dungeon::{Direction, X, Y};
use crate::error::{ErrorId, GameResult, SettingFault};
use crate::input::{Action, InputCode, Key, KeyMap, System};
use crate::item::ItemKind;
use crate::ui::{MordalKind, MordalMsg, UiState};
use vstd::prelude::*;

pub mod bits;
pub mod dungeon;
pub mod error;
pub mod fenwick;
pub mod input;
pub mod item;
pub mod rng;
pub mod ui;

verus! {

/// The width of the screen where none is configured.
pub const DEFAULT_WIDTH: i32 = 80;

/// The height of the screen where none is configured.
pub const DEFAULT_HEIGHT: i32 = 24;

/// The widest screen that a game can be played on.
pub const MAX_WIDTH: i32 = DEFAULT_WIDTH * 2;

/// The highest screen that a game can be played on.
pub const MAX_HEIGHT: i32 = DEFAULT_HEIGHT * 2;

/// The narrowest screen that a game can be played on.
pub const MIN_WIDTH: i32 = 32;

/// The lowest screen that a game can be played on.
pub const MIN_HEIGHT: i32 = 16;

/// Where the seed of a game comes from.
#[derive(Clone, Copy, Debug, PartialEq, Eq, Structural)]
pub enum SeedPlan {
    /// The seed is given.
    Fixed(u128),
    /// The seed is to be drawn from the half-open range between the two.
    Ranged(u128, u128),
    /// The seed is to be drawn from all numbers.
    Random,
}

/// The configuration of a game.
#[derive(Clone, Debug)]
pub struct GameConfig {
    /// The width of the screen.
    pub width: i32,
    /// The height of the screen.
    pub height: i32,
    /// The seed of the random source; drawn at random where there is none.
    pub seed: Option<u128>,
    /// The half-open range to draw the seed from, where no seed is given.
    pub seed_range: Option<[u128; 2]>,
    /// The inputs that the keys are bound to.
    pub keymap: KeyMap,
    /// Whether the dungeon is hidden until the player has seen it.
    pub hide_dungeon: bool,
}

/// The settings that hold for a whole game.
#[derive(Clone, Copy, Debug, PartialEq, Eq, Structural)]
pub struct GlobalConfig {
    pub width: X,
    pub height: Y,
    pub seed: u128,
    pub hide_dungeon: bool,
}

/// What the parts of a game share and change.
#[derive(Clone, Copy, Debug, PartialEq, Eq, Structural)]
pub struct GameInfo {
    is_cleared: bool,
}

impl GameInfo {
    /// Whether the game has been won.
    pub closed spec fn cleared(self) -> bool {
        self.is_cleared
    }

    /// What a game starts with: it has not been won.
    pub fn new() -> (info: GameInfo)
        ensures
            !info.cleared(),
    {
        GameInfo { is_cleared: false }
    }
}

/// What to tell the player.
#[derive(Clone, Debug, PartialEq)]
pub enum GameMsg {
    CantMove(Direction),
    CantGetItem(ItemKind),
    GotItem { kind: ItemKind, num: u32 },
    HitTo(String),
    HitFrom(String),
    MissTo(String),
    MissFrom(String),
    Killed(String),
    NoDownStair,
    SecretDoor,
    Quit,
}

/// What an input has brought about.
#[derive(Clone, Debug, PartialEq)]
pub enum Reaction {
    /// The dungeon has to be drawn again.
    Redraw,
    /// The status of the player has changed.
    StatusUpdated,
    /// The interface has changed its state.
    UiTransition(UiState),
    /// There is something to tell the player.
    Notify(GameMsg),
}

/// What a session did with an input: it reacted by itself, or it leaves an
/// action to be performed on the dungeon.
#[derive(Clone, Debug, PartialEq)]
pub enum Step {
    Reacted(Vec<Reaction>),
    Perform(Action),
}

/// The view of a `Step`.
pub enum Answer {
    Reacted(Seq<Reaction>),
    Perform(Action),
}

impl View for Step {
    type V = Answer;

    open spec fn view(&self) -> Answer {
        match self {
            Step::Reacted(reactions) => Answer::Reacted(reactions@),
            Step::Perform(action) => Answer::Perform(*action),
        }
    }
}

/// The setting that keeps a screen of the given size from being used, if any;
/// the width is judged before the height.
pub open spec fn screen_fault(width: int, height: int) -> Option<SettingFault> {
    if width < MIN_WIDTH {
        Some(SettingFault::WidthTooNarrow)
    } else if width > MAX_WIDTH {
        Some(SettingFault::WidthTooWide)
    } else if height < MIN_HEIGHT {
        Some(SettingFault::HeightTooNarrow)
    } else if height > MAX_HEIGHT {
        Some(SettingFault::HeightTooWide)
    } else {
        None
    }
}

/// Whether a system input closes or confirms a dialog.
pub open spec fn cancels(sys: System) -> bool {
    sys == System::Cancel || sys == System::Enter || sys == System::Continue
}

/// The dialog that a system input opens in front of the dungeon, or why it
/// opens none.
pub open spec fn interruption(input: System) -> Result<UiState, ErrorId> {
    match input {
        System::Quit => Ok(UiState::Mordal(MordalKind::Quit)),
        System::Inventory => Ok(UiState::Mordal(MordalKind::Inventory)),
        System::Save => Err(ErrorId::Unimplemented),
        _ => Err(ErrorId::IgnoredInput(InputCode::Sys(input))),
    }
}

/// What the interface in state `ui` does with `input`: its next state, and
/// its answer.
///
/// In the dungeon a system input opens a dialog and every other input is an
/// action to perform. A dialog takes the system part of an input, and closes,
/// asks to leave the game, or stays as it is.
pub open spec fn response(ui: UiState, input: InputCode) -> (UiState, Result<Answer, ErrorId>) {
    match ui {
        UiState::Dungeon => match input {
            InputCode::Sys(sys) => match interruption(sys) {
                Ok(next) => (next, Ok(Answer::Reacted(seq![Reaction::UiTransition(next)]))),
                Err(e) => (ui, Err(e)),
            },
            InputCode::Act(act) => (ui, Ok(Answer::Perform(act))),
            InputCode::Both { act, sys } => (ui, Ok(Answer::Perform(act))),
        },
        UiState::Mordal(kind) => match input {
            InputCode::Act(_) => (ui, Err(ErrorId::IgnoredInput(input))),
            InputCode::Sys(sys) | InputCode::Both { act: _, sys } => match kind.answer(sys) {
                MordalMsg::Cancel => (
                    UiState::Dungeon,
                    Ok(Answer::Reacted(seq![Reaction::UiTransition(UiState::Dungeon)])),
                ),
                MordalMsg::Save => (ui, Err(ErrorId::Unimplemented)),
                MordalMsg::Quit => (
                    ui,
                    Ok(Answer::Reacted(seq![Reaction::Notify(GameMsg::Quit)])),
                ),
                MordalMsg::Ignored => (ui, Ok(Answer::Reacted(Seq::empty()))),
            },
        },
    }
}

impl GameConfig {
    /// The settings of a game with this configuration, or the setting that
    /// keeps it from being played. `drawn_seed` is its seed where the
    /// configuration gives none.
    pub open spec fn settings(self, drawn_seed: u128) -> GameResult<GlobalConfig> {
        match screen_fault(self.width as int, self.height as int) {
            Some(fault) => Err(ErrorId::InvalidSetting(fault)),
            None => Ok(
                GlobalConfig {
                    width: X(self.width),
                    height: Y(self.height),
                    seed: match self.seed {
                        Some(seed) => seed,
                        None => drawn_seed,
                    },
                    hide_dungeon: self.hide_dungeon,
                },
            ),
        }
    }

    /// Where the seed of the game comes from: the seed if one is given, else
    /// the range if one is given.
    pub fn seed_plan(&self) -> (plan: SeedPlan)
        ensures
            plan == match (self.seed, self.seed_range) {
                (Some(seed), _) => SeedPlan::Fixed(seed),
                (None, Some(range)) => SeedPlan::Ranged(range[0], range[1]),
                (None, None) => SeedPlan::Random,
            },
    {
        match self.seed {
            Some(seed) => SeedPlan::Fixed(seed),
            None => match self.seed_range {
                Some(range) => SeedPlan::Ranged(range[0], range[1]),
                None => SeedPlan::Random,
            },
        }
    }

    /// The settings of a game with this configuration. `drawn_seed` is its
    /// seed where the configuration gives none.
    pub fn to_global(&self, drawn_seed: u128) -> (res: GameResult<GlobalConfig>)
        ensures
            res == self.settings(drawn_seed),
    {
        let seed = match self.seed {
            Some(s) => s,
            None => drawn_seed,
        };
        let (w, h) = (self.width, self.height);
        if w < MIN_WIDTH {
            return Err(ErrorId::InvalidSetting(SettingFault::WidthTooNarrow));
        }
        if w > MAX_WIDTH {
            return Err(ErrorId::InvalidSetting(SettingFault::WidthTooWide));
        }
        if h < MIN_HEIGHT {
            return Err(ErrorId::InvalidSetting(SettingFault::HeightTooNarrow));
        }
        if h > MAX_HEIGHT {
            return Err(ErrorId::InvalidSetting(SettingFault::HeightTooWide));
        }
        Ok(GlobalConfig { width: X(w), height: Y(h), seed, hide_dungeon: self.hide_dungeon })
    }

    /// Starts a session with this configuration: in the dungeon, with no input
    /// taken yet. `drawn_seed` is its seed where the configuration gives none.
    pub fn build(self, drawn_seed: u128) -> (res: GameResult<RunTime>)
        ensures
            res.is_ok() == screen_fault(self.width as int, self.height as int).is_none(),
            res matches Err(e) ==> Err::<GlobalConfig, ErrorId>(e) == self.settings(drawn_seed),
            res matches Ok(runtime) ==> {
                &&& Ok::<GlobalConfig, ErrorId>(runtime.config()) == self.settings(drawn_seed)
                &&& runtime.ui() == UiState::Dungeon
                &&& runtime.inputs() == Seq::<InputCode>::empty()
                &&& runtime.bindings() == self.keymap@
                &&& !runtime.game_info().cleared()
            },
    {
        let game_info = GameInfo::new();
        let config = self.to_global(drawn_seed)?;
        Ok(
            RunTime {
                game_info,
                config,
                ui: UiState::Dungeon,
                saved_inputs: Vec::new(),
                keymap: self.keymap,
            },
        )
    }
}

/// A session of the game: its settings, the state of its interface and the
/// inputs it has taken.
pub struct RunTime {
    game_info: GameInfo,
    config: GlobalConfig,
    ui: UiState,
    saved_inputs: Vec<InputCode>,
    pub keymap: KeyMap,
}

impl RunTime {
    /// The settings of the session.
    pub closed spec fn config(&self) -> GlobalConfig {
        self.config
    }

    /// The state of the interface.
    pub closed spec fn ui(&self) -> UiState {
        self.ui
    }

    /// The inputs taken so far, oldest first.
    pub closed spec fn inputs(&self) -> Seq<InputCode> {
        self.saved_inputs@
    }

    /// The inputs that the keys are bound to.
    pub closed spec fn bindings(&self) -> Map<Key, InputCode> {
        self.keymap@
    }

    /// What the parts of the game share.
    pub closed spec fn game_info(&self) -> GameInfo {
        self.game_info
    }

    /// Opens the dialog that a system input asks for in front of the dungeon.
    fn check_interrupting(&mut self, input: System) -> (res: GameResult<Vec<Reaction>>)
        ensures
            match interruption(input) {
                Ok(next) => {
                    &&& final(self).ui() == next
                    &&& res matches Ok(reactions)
                    &&& reactions@ == seq![Reaction::UiTransition(next)]
                },
                Err(e) => final(self).ui() == old(self).ui() && res == Err::<Vec<Reaction>, ErrorId>(
                    e,
                ),
            },
            final(self).config() == old(self).config(),
            final(self).inputs() == old(self).inputs(),
            final(self).bindings() == old(self).bindings(),
            final(self).game_info() == old(self).game_info(),
    {
        match input {
            System::Quit => {
                let ui = UiState::Mordal(MordalKind::Quit);
                self.ui = ui;
                let reactions = vec![Reaction::UiTransition(ui)];
                assert(reactions@ =~= seq![Reaction::UiTransition(ui)]);
                Ok(reactions)
            },
            System::Inventory => {
                let ui = UiState::Mordal(MordalKind::Inventory);
                self.ui = ui;
                let reactions = vec![Reaction::UiTransition(ui)];
                assert(reactions@ =~= seq![Reaction::UiTransition(ui)]);
                Ok(reactions)
            },
            System::Save => Err(ErrorId::Unimplemented),
            _ => Err(ErrorId::IgnoredInput(InputCode::Sys(input))),
        }
    }

    /// Takes an input: records it, and lets the interface answer it. Where the
    /// answer is an action to perform, the interface stays as it is until
    /// `finish_action` tells it what the action has led to.
    pub fn react_to_input(&mut self, input: InputCode) -> (res: GameResult<Step>)
        ensures
            final(self).inputs() == old(self).inputs().push(input),
            final(self).ui() == response(old(self).ui(), input).0,
            match response(old(self).ui(), input).1 {
                Ok(answer) => res matches Ok(step) && step@ == answer,
                Err(e) => res == Err::<Step, ErrorId>(e),
            },
            final(self).config() == old(self).config(),
            final(self).bindings() == old(self).bindings(),
            final(self).game_info() == old(self).game_info(),
    {
        self.saved_inputs.push(input);
        let mut next_ui: Option<UiState> = None;
        let res = match self.ui {
            UiState::Dungeon => match input {
                InputCode::Sys(sys) => Step::Reacted(self.check_interrupting(sys)?),
                InputCode::Act(act) => Step::Perform(act),
                InputCode::Both { act, sys: _ } => Step::Perform(act),
            },
            UiState::Mordal(kind) => {
                let mut kind = kind;
                let sys = match input {
                    InputCode::Sys(sys) => sys,
                    InputCode::Both { act: _, sys } => sys,
                    InputCode::Act(_) => {
                        return Err(ErrorId::IgnoredInput(input));
                    },
                };
                match kind.process(sys) {
                    MordalMsg::Cancel => {
                        next_ui = Some(UiState::Dungeon);
                        let reactions = vec![Reaction::UiTransition(UiState::Dungeon)];
                        assert(reactions@ =~= seq![Reaction::UiTransition(UiState::Dungeon)]);
                        Step::Reacted(reactions)
                    },
                    MordalMsg::Save => {
                        return Err(ErrorId::Unimplemented);
                    },
                    MordalMsg::Quit => {
                        let reactions = vec![Reaction::Notify(GameMsg::Quit)];
                        assert(reactions@ =~= seq![Reaction::Notify(GameMsg::Quit)]);
                        Step::Reacted(reactions)
                    },
                    MordalMsg::Ignored => {
                        let reactions: Vec<Reaction> = Vec::new();
                        assert(reactions@ =~= Seq::<Reaction>::empty());
                        Step::Reacted(reactions)
                    },
                }
            },
        };
        if let Some(next_ui) = next_ui {
            self.ui = next_ui;
        }
        Ok(res)
    }

    /// Tells the session what an action that it left to be performed has led
    /// to: the next state of the interface, if the action changes it.
    pub fn finish_action(&mut self, next_ui: Option<UiState>)
        ensures
            final(self).ui() == match next_ui {
                Some(ui) => ui,
                None => old(self).ui(),
            },
            final(self).inputs() == old(self).inputs(),
            final(self).config() == old(self).config(),
            final(self).bindings() == old(self).bindings(),
            final(self).game_info() == old(self).game_info(),
    {
        if let Some(next_ui) = next_ui {
            self.ui = next_ui;
        }
    }

    /// Takes the input that `key` is bound to; a key that is bound to none is
    /// refused and leaves the session as it is.
    pub fn react_to_key(&mut self, key: Key) -> (res: GameResult<Step>)
        ensures
            !old(self).bindings().contains_key(key) ==> {
                &&& res == Err::<Step, ErrorId>(ErrorId::InvalidInput(key))
                &&& final(self).inputs() == old(self).inputs()
                &&& final(self).ui() == old(self).ui()
            },
            old(self).bindings().contains_key(key) ==> {
                let input = old(self).bindings()[key];
                &&& final(self).inputs() == old(self).inputs().push(input)
                &&& final(self).ui() == response(old(self).ui(), input).0
                &&& match response(old(self).ui(), input).1 {
                    Ok(answer) => res matches Ok(step) && step@ == answer,
                    Err(e) => res == Err::<Step, ErrorId>(e),
                }
            },
            final(self).config() == old(self).config(),
            final(self).bindings() == old(self).bindings(),
            final(self).game_info() == old(self).game_info(),
    {
        match self.keymap.get(key) {
            Some(i) => self.react_to_input(i),
            None => Err(ErrorId::InvalidInput(key)),
        }
    }

    /// Whether `key` closes or confirms a dialog; a key that is bound to no
    /// input is refused.
    pub fn is_cancel(&self, key: Key) -> (res: GameResult<bool>)
        ensures
            res == if self.bindings().contains_key(key) {
                Ok::<bool, ErrorId>(
                    match self.bindings()[key] {
                        InputCode::Both { act, sys } => cancels(sys),
                        InputCode::Sys(sys) => cancels(sys),
                        InputCode::Act(_) => false,
                    },
                )
            } else {
                Err(ErrorId::InvalidInput(key))
            },
    {
        match self.keymap.get(key) {
            Some(i) => match i {
                InputCode::Both { act: _, sys } | InputCode::Sys(sys) => match sys {
                    System::Cancel | System::Enter | System::Continue => Ok(true),
                    _ => Ok(false),
                },
                _ => Ok(false),
            },
            None => Err(ErrorId::InvalidInput(key)),
        }
    }

    /// The width and the height of the screen.
    pub fn screen_size(&self) -> (size: (X, Y))
        ensures
            size == (self.config().width, self.config().height),
    {
        (self.config.width, self.config.height)
    }

    /// The inputs taken so far, oldest first.
    pub fn saved_inputs(&self) -> (inputs: &[InputCode])
        ensures
            inputs@ == self.inputs(),
    {
        self.saved_inputs.as_slice()
    }
}

} // verus!
