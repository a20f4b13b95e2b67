use rogue_gym_core::dungeon::{Direction, X, Y};
use rogue_gym_core::error::{ErrorId, SettingFault};
use rogue_gym_core::input::{Action, InputCode, Key, KeyMap, System};
use rogue_gym_core::ui::{MordalKind, MordalMsg, UiState};
use rogue_gym_core::{
    GameConfig, GameInfo, GameMsg, GlobalConfig, Reaction, RunTime, SeedPlan, Step,
    DEFAULT_HEIGHT, DEFAULT_WIDTH, MAX_HEIGHT, MAX_WIDTH, MIN_HEIGHT, MIN_WIDTH,
};

fn keymap() -> KeyMap {
    let mut map = KeyMap::new();
    map.insert(Key::Char('l'), InputCode::Act(Action::Move(Direction::Right)));
    map.insert(
        Key::Char('y'),
        InputCode::Both { act: Action::Move(Direction::LeftUp), sys: System::Yes },
    );
    map.insert(
        Key::Char('n'),
        InputCode::Both { act: Action::Move(Direction::RightDown), sys: System::No },
    );
    map.insert(Key::Char('i'), InputCode::Sys(System::Inventory));
    map.insert(Key::Char('Q'), InputCode::Sys(System::Quit));
    map.insert(Key::Char('S'), InputCode::Sys(System::Save));
    map.insert(Key::Esc, InputCode::Sys(System::Cancel));
    map.insert(Key::Enter, InputCode::Sys(System::Enter));
    map.insert(Key::Char(' '), InputCode::Both { act: Action::Search, sys: System::Continue });
    map
}

fn config() -> GameConfig {
    GameConfig {
        width: DEFAULT_WIDTH,
        height: DEFAULT_HEIGHT,
        seed: None,
        seed_range: None,
        keymap: keymap(),
        hide_dungeon: true,
    }
}

fn runtime() -> RunTime {
    config().build(1).unwrap()
}

#[test]
fn screen_limits() {
    assert_eq!((DEFAULT_WIDTH, DEFAULT_HEIGHT), (80, 24));
    assert_eq!((MAX_WIDTH, MAX_HEIGHT), (160, 48));
    assert_eq!((MIN_WIDTH, MIN_HEIGHT), (32, 16));
}

#[test]
fn settings_of_a_valid_configuration() {
    let mut c = config();
    assert_eq!(
        c.to_global(99),
        Ok(GlobalConfig { width: X(80), height: Y(24), seed: 99, hide_dungeon: true })
    );
    c.seed = Some(7);
    c.hide_dungeon = false;
    c.width = 32;
    c.height = 48;
    assert_eq!(
        c.to_global(99),
        Ok(GlobalConfig { width: X(32), height: Y(48), seed: 7, hide_dungeon: false })
    );
    c.width = 160;
    c.height = 16;
    assert!(c.to_global(0).is_ok());
}

#[test]
fn screen_out_of_limits_is_refused() {
    let fault = |w: i32, h: i32| {
        let mut c = config();
        c.width = w;
        c.height = h;
        c.to_global(0)
    };
    assert_eq!(fault(31, 24), Err(ErrorId::InvalidSetting(SettingFault::WidthTooNarrow)));
    assert_eq!(fault(161, 24), Err(ErrorId::InvalidSetting(SettingFault::WidthTooWide)));
    assert_eq!(fault(80, 15), Err(ErrorId::InvalidSetting(SettingFault::HeightTooNarrow)));
    assert_eq!(fault(80, 49), Err(ErrorId::InvalidSetting(SettingFault::HeightTooWide)));
    assert_eq!(fault(0, 0), Err(ErrorId::InvalidSetting(SettingFault::WidthTooNarrow)));
    assert_eq!(fault(500, 500), Err(ErrorId::InvalidSetting(SettingFault::WidthTooWide)));
    let mut c = config();
    c.height = 1;
    assert!(matches!(
        c.build(0),
        Err(ErrorId::InvalidSetting(SettingFault::HeightTooNarrow))
    ));
}

#[test]
fn seed_comes_from_the_seed_then_from_the_range() {
    let mut c = config();
    assert_eq!(c.seed_plan(), SeedPlan::Random);
    c.seed_range = Some([5, 50]);
    assert_eq!(c.seed_plan(), SeedPlan::Ranged(5, 50));
    c.seed = Some(3);
    assert_eq!(c.seed_plan(), SeedPlan::Fixed(3));
    c.seed_range = None;
    assert_eq!(c.seed_plan(), SeedPlan::Fixed(3));
}

#[test]
fn a_new_session_stands_in_the_dungeon() {
    let rt = runtime();
    assert_eq!(rt.screen_size(), (X(80), Y(24)));
    assert!(rt.saved_inputs().is_empty());
    assert_eq!(rt.keymap.get(Key::Esc), Some(InputCode::Sys(System::Cancel)));
    assert_eq!(GameInfo::new(), GameInfo::new());
}

#[test]
fn keymap_binds_and_rebinds() {
    let mut map = KeyMap::new();
    assert_eq!(map.get(Key::Esc), None);
    assert_eq!(map.insert(Key::Esc, InputCode::Sys(System::Cancel)), None);
    assert_eq!(map.insert(Key::Char('a'), InputCode::Act(Action::Search)), None);
    assert_eq!(map.get(Key::Esc), Some(InputCode::Sys(System::Cancel)));
    assert_eq!(
        map.insert(Key::Esc, InputCode::Sys(System::Quit)),
        Some(InputCode::Sys(System::Cancel))
    );
    assert_eq!(map.get(Key::Esc), Some(InputCode::Sys(System::Quit)));
    assert_eq!(map.get(Key::Char('a')), Some(InputCode::Act(Action::Search)));
    assert_eq!(map.get(Key::Ctrl('a')), None);
    assert_eq!(map.get(Key::Char('b')), None);
    assert_eq!(
        map.to_vec(),
        vec![
            (Key::Esc, InputCode::Sys(System::Quit)),
            (Key::Char('a'), InputCode::Act(Action::Search)),
        ]
    );
    assert!(KeyMap::new().to_vec().is_empty());
}

#[test]
fn is_cancel_reads_the_system_part() {
    let rt = runtime();
    assert_eq!(rt.is_cancel(Key::Esc), Ok(true));
    assert_eq!(rt.is_cancel(Key::Enter), Ok(true));
    assert_eq!(rt.is_cancel(Key::Char(' ')), Ok(true));
    assert_eq!(rt.is_cancel(Key::Char('y')), Ok(false));
    assert_eq!(rt.is_cancel(Key::Char('Q')), Ok(false));
    assert_eq!(rt.is_cancel(Key::Char('l')), Ok(false));
    assert_eq!(rt.is_cancel(Key::Char('z')), Err(ErrorId::InvalidInput(Key::Char('z'))));
}

#[test]
fn dungeon_leaves_actions_to_be_performed() {
    let mut rt = runtime();
    let right = Action::Move(Direction::Right);
    assert_eq!(rt.react_to_key(Key::Char('l')), Ok(Step::Perform(right)));
    assert_eq!(
        rt.react_to_key(Key::Char('y')),
        Ok(Step::Perform(Action::Move(Direction::LeftUp)))
    );
    assert_eq!(
        rt.saved_inputs(),
        &[
            InputCode::Act(right),
            InputCode::Both { act: Action::Move(Direction::LeftUp), sys: System::Yes },
        ]
    );
    rt.finish_action(None);
    assert_eq!(rt.react_to_key(Key::Char('l')), Ok(Step::Perform(right)));
    rt.finish_action(Some(UiState::Mordal(MordalKind::Inventory)));
    assert_eq!(
        rt.react_to_key(Key::Char('l')),
        Err(ErrorId::IgnoredInput(InputCode::Act(right)))
    );
}

#[test]
fn unbound_key_is_refused_and_not_recorded() {
    let mut rt = runtime();
    assert_eq!(rt.react_to_key(Key::Char('z')), Err(ErrorId::InvalidInput(Key::Char('z'))));
    assert!(rt.saved_inputs().is_empty());
}

#[test]
fn dungeon_opens_dialogs() {
    let mut rt = runtime();
    assert_eq!(
        rt.react_to_key(Key::Char('i')),
        Ok(Step::Reacted(vec![Reaction::UiTransition(UiState::Mordal(MordalKind::Inventory))]))
    );
    assert_eq!(rt.react_to_key(Key::Char('y')), Ok(Step::Reacted(vec![])));
    assert_eq!(
        rt.react_to_key(Key::Esc),
        Ok(Step::Reacted(vec![Reaction::UiTransition(UiState::Dungeon)]))
    );
    assert_eq!(
        rt.react_to_key(Key::Char('Q')),
        Ok(Step::Reacted(vec![Reaction::UiTransition(UiState::Mordal(MordalKind::Quit))]))
    );
    assert_eq!(
        rt.react_to_key(Key::Char('n')),
        Ok(Step::Reacted(vec![Reaction::UiTransition(UiState::Dungeon)]))
    );
    assert_eq!(rt.saved_inputs().len(), 5);
}

#[test]
fn dungeon_refuses_other_system_inputs() {
    let mut rt = runtime();
    assert_eq!(rt.react_to_key(Key::Char('S')), Err(ErrorId::Unimplemented));
    assert_eq!(
        rt.react_to_key(Key::Esc),
        Err(ErrorId::IgnoredInput(InputCode::Sys(System::Cancel)))
    );
    assert_eq!(
        rt.react_to_input(InputCode::Sys(System::Yes)),
        Err(ErrorId::IgnoredInput(InputCode::Sys(System::Yes)))
    );
    assert_eq!(rt.saved_inputs().len(), 3);
    assert_eq!(
        rt.react_to_key(Key::Char('l')),
        Ok(Step::Perform(Action::Move(Direction::Right)))
    );
}

#[test]
fn quit_dialog_asks_to_leave() {
    let mut rt = runtime();
    rt.react_to_key(Key::Char('Q')).unwrap();
    assert_eq!(rt.react_to_key(Key::Char('S')), Err(ErrorId::Unimplemented));
    assert_eq!(rt.react_to_key(Key::Enter), Ok(Step::Reacted(vec![])));
    assert_eq!(
        rt.react_to_key(Key::Char('y')),
        Ok(Step::Reacted(vec![Reaction::Notify(GameMsg::Quit)]))
    );
    assert_eq!(
        rt.react_to_key(Key::Char('y')),
        Ok(Step::Reacted(vec![Reaction::Notify(GameMsg::Quit)]))
    );
}

#[test]
fn dialogs_answer() {
    let mut quit = MordalKind::Quit;
    assert_eq!(quit.process(System::Yes), MordalMsg::Quit);
    assert_eq!(quit.process(System::No), MordalMsg::Cancel);
    assert_eq!(quit.process(System::Cancel), MordalMsg::Cancel);
    assert_eq!(quit.process(System::Save), MordalMsg::Save);
    assert_eq!(quit.process(System::Inventory), MordalMsg::Ignored);
    assert_eq!(quit, MordalKind::Quit);
    let mut inventory = MordalKind::Inventory;
    assert_eq!(inventory.process(System::Cancel), MordalMsg::Cancel);
    assert_eq!(inventory.process(System::Continue), MordalMsg::Cancel);
    assert_eq!(inventory.process(System::Enter), MordalMsg::Cancel);
    assert_eq!(inventory.process(System::Yes), MordalMsg::Ignored);
    assert_eq!(inventory.process(System::Save), MordalMsg::Ignored);
}
