use lexicon::{AppManager, Direction, InputEvent, PanelKind, PanelManager, PanelRef, PanelState};
use lexicon::{LettersInputPanel, RegexInputPanel, WordsOutputPanel};
use std::collections::HashMap;

fn hint_map(hints: Vec<(PanelKind, char)>) -> HashMap<PanelKind, char> {
    hints.into_iter().collect()
}

#[test]
fn panel_manager_test_select_panel() {
    let mut mngr = AppManager::default();

    assert_eq!(mngr.selected_panel().kind(), PanelKind::Letters);

    mngr.select_panel(Direction::Right);

    assert_eq!(mngr.selected_panel().kind(), PanelKind::Regex);

    mngr.select_panel(Direction::Down);

    assert_eq!(mngr.selected_panel().kind(), PanelKind::Words);

    mngr.select_panel(Direction::Left);

    assert_eq!(mngr.selected_panel().kind(), PanelKind::Words);

    mngr.select_panel(Direction::Up);

    assert_eq!(mngr.selected_panel().kind(), PanelKind::Regex);

    mngr.select_panel(Direction::Left);
    mngr.select_panel(Direction::Down);

    assert_eq!(mngr.selected_panel().kind(), PanelKind::Words);

    let mut panel_mngr = PanelManager::default();

    assert_eq!(panel_mngr.selected(), PanelKind::Letters);
    assert_eq!(
        hint_map(panel_mngr.hints()),
        HashMap::from([
            (PanelKind::Words, Direction::Down.to_char()),
            (PanelKind::Regex, Direction::Right.to_char())
        ]),
        "wrong hints for {:?}",
        panel_mngr.selected()
    );

    panel_mngr.select_panel(Direction::Right);

    assert_eq!(panel_mngr.selected(), PanelKind::Regex);
    assert_eq!(
        hint_map(panel_mngr.hints()),
        HashMap::from([
            (PanelKind::Words, Direction::Down.to_char()),
            (PanelKind::Letters, Direction::Left.to_char())
        ]),
        "wrong hints for {:?}: {:?}",
        panel_mngr.selected(),
        panel_mngr.hints(),
    );

    panel_mngr.select_panel(Direction::Down);

    assert_eq!(panel_mngr.selected(), PanelKind::Words);
    assert_eq!(
        hint_map(panel_mngr.hints()),
        HashMap::from([(PanelKind::Regex, Direction::Up.to_char())]),
        "wrong hints for {:?}",
        panel_mngr.selected()
    );

    panel_mngr.select_panel(Direction::Left);

    assert_eq!(panel_mngr.selected(), PanelKind::Words);
    assert_eq!(
        hint_map(panel_mngr.hints()),
        HashMap::from([(PanelKind::Regex, Direction::Up.to_char())]),
        "wrong hints for {:?}",
        panel_mngr.selected()
    );

    panel_mngr.select_panel(Direction::Up);

    assert_eq!(panel_mngr.selected(), PanelKind::Regex);
    assert_eq!(
        hint_map(panel_mngr.hints()),
        HashMap::from([
            (PanelKind::Words, Direction::Down.to_char()),
            (PanelKind::Letters, Direction::Left.to_char())
        ]),
        "wrong hints for {:?}",
        panel_mngr.selected()
    );

    panel_mngr.select_panel(Direction::Left);
    panel_mngr.select_panel(Direction::Down);

    assert_eq!(panel_mngr.selected(), PanelKind::Words);
    assert_eq!(
        hint_map(panel_mngr.hints()),
        HashMap::from([(PanelKind::Letters, Direction::Up.to_char())]),
        "wrong hints for {:?}",
        panel_mngr.selected()
    );
}

#[test]
fn select_panel_reports_whether_it_moved() {
    let mut mngr = AppManager::default();
    assert!(!mngr.select_panel(Direction::Up));
    assert!(!mngr.select_panel(Direction::Left));
    assert!(mngr.select_panel(Direction::Down));
    assert!(!mngr.select_panel(Direction::Down));
}

#[test]
fn linked_panels_follow_the_selection() {
    let mngr = AppManager::default();
    let linked = mngr.get_linked_panels();
    let dirs: Vec<(Direction, PanelKind)> = linked.iter().map(|(d, p)| (*d, p.kind())).collect();
    assert_eq!(
        dirs,
        [(Direction::Down, PanelKind::Words), (Direction::Right, PanelKind::Regex)]
    );
    assert_eq!(mngr.get_panel_in_dir(Direction::Right).map(|p| p.kind()), Some(PanelKind::Regex));
    assert!(mngr.get_panel_in_dir(Direction::Up).is_none());
    let hints = lexicon::generate_hints(&linked);
    assert_eq!(hints, [(PanelKind::Words, '↓'), (PanelKind::Regex, '→')]);
}

#[test]
fn panel_ref_links() {
    let mut letters = PanelRef::new(PanelKind::Letters);
    let regex = PanelRef::new(PanelKind::Regex);
    assert_eq!(letters.linked(Direction::Right), None);
    letters.link(Direction::Right, regex);
    assert_eq!(letters.linked(Direction::Right), Some(PanelKind::Regex));
    assert_eq!(letters.kind(), PanelKind::Letters);
}

#[test]
fn typing_goes_to_the_selected_input() {
    let mut mngr = AppManager::default();
    assert!(mngr.push_ch('a'));
    assert!(!mngr.push_ch(' '));
    assert!(!mngr.push_ch('\t'));
    assert!(mngr.push_ch('B'));
    assert_eq!(mngr.get_input_letters(), "aB");
    assert!(mngr.is_letters_valid());

    mngr.select_panel(Direction::Right);
    assert!(mngr.push_ch('('));
    assert_eq!(mngr.get_input_regex(), "(");
    assert!(!mngr.is_regex_valid());
    assert!(mngr.pop_ch());
    assert_eq!(mngr.get_input_regex(), "");
    assert!(mngr.is_regex_valid());
    assert!(!mngr.pop_ch());

    mngr.select_panel(Direction::Down);
    assert!(!mngr.push_ch('x'));
    assert!(!mngr.pop_ch());
    assert_eq!(mngr.get_input_letters(), "aB");
}

#[test]
fn one_letter_is_not_enough() {
    let mut mngr = AppManager::default();
    mngr.push_ch('é');
    assert!(!mngr.is_letters_valid());
}

#[test]
fn output_words_are_kept() {
    let mut mngr = AppManager::default();
    assert!(mngr.get_ouput_words().is_empty());
    mngr.set_output_words(vec!["rad:4".to_string()]);
    assert_eq!(mngr.get_ouput_words(), &vec!["rad:4".to_string()]);
}

#[test]
fn panels_show_titles_and_states() {
    let mut mngr = AppManager::default();
    mngr.push_ch('x');
    let hints = lexicon::generate_hints(&mngr.get_linked_panels());

    let letters = LettersInputPanel::new(&mngr, &hints);
    assert_eq!(letters.title, "Letters");
    assert_eq!(letters.state, PanelState::Selected);
    assert_eq!(letters.letters, "x");

    let regex = RegexInputPanel::new(&mngr, &hints);
    assert_eq!(regex.title, "Regex (→)");
    assert_eq!(regex.state, PanelState::Default);

    let words = WordsOutputPanel::new(&mngr, &hints);
    assert_eq!(words.title, "Words (↓)");
    assert_eq!(words.state, PanelState::Default);

    mngr.select_panel(Direction::Right);
    mngr.push_ch('[');
    let hints = lexicon::generate_hints(&mngr.get_linked_panels());
    let regex = RegexInputPanel::new(&mngr, &hints);
    assert_eq!(regex.state, PanelState::Error);
    let letters = LettersInputPanel::new(&mngr, &hints);
    assert_eq!(letters.title, "Letters (←)");
}

#[test]
fn key_events_drive_the_state() {
    let mut mngr = AppManager::default();
    assert_eq!(mngr.apply_event(InputEvent::AppendCharToInputLetters('r')), Some(true));
    assert_eq!(mngr.apply_event(InputEvent::AppendCharToInputLetters(' ')), Some(false));
    assert_eq!(mngr.apply_event(InputEvent::NoOp), Some(false));
    assert_eq!(mngr.pending_query(true).map(|q| q.letters), None);
    assert_eq!(mngr.apply_event(InputEvent::AppendCharToInputLetters('a')), Some(true));
    let query = mngr.pending_query(true).expect("two letters and no pattern");
    assert_eq!(query.letters, "ra");
    assert_eq!(query.regex, "");
    assert!(mngr.pending_query(false).is_none());
    assert_eq!(mngr.apply_event(InputEvent::SelectPanel(Direction::Right)), Some(false));
    assert_eq!(mngr.apply_event(InputEvent::AppendCharToInputLetters('(')), Some(true));
    assert!(mngr.pending_query(true).is_none());
    assert_eq!(mngr.apply_event(InputEvent::BackSpace), Some(true));
    assert_eq!(mngr.apply_event(InputEvent::BackSpace), Some(false));
    assert_eq!(mngr.apply_event(InputEvent::Exit), None);
}
