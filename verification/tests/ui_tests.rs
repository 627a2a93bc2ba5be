use pathrank::rank::RankSource;
use pathrank::ui::visual_pack::{VisualPack, VisualPackChars};
use pathrank::ui::{Direction, EditorState, UiEffect, UserAction, WriteStep, Writer};

fn s(x: &str) -> String {
    String::from(x)
}

fn typed(e: &EditorState) -> String {
    e.input.iter().collect()
}

#[test]
fn typing_edits_at_the_cursor() {
    let mut e = EditorState::new();
    assert_eq!(e.apply_action(UserAction::NewChar('a'), 0), UiEffect::Idle);
    assert_eq!(e.apply_action(UserAction::NewChar('c'), 0), UiEffect::Idle);
    assert_eq!(e.apply_action(UserAction::Move(Direction::Left), 0), UiEffect::Idle);
    assert_eq!(e.apply_action(UserAction::NewChar('b'), 0), UiEffect::Idle);
    assert_eq!(typed(&e), s("abc"));
    assert_eq!(e.cursor, 2);
}

#[test]
fn backspace_removes_before_the_cursor() {
    let mut e = EditorState::new();
    e.apply_action(UserAction::NewChar('x'), 0);
    e.apply_action(UserAction::NewChar('y'), 0);
    assert_eq!(e.apply_action(UserAction::DeleteChar, 0), UiEffect::Idle);
    assert_eq!(typed(&e), s("x"));
    assert_eq!(e.cursor, 1);
    e.apply_action(UserAction::DeleteChar, 0);
    assert_eq!(e.apply_action(UserAction::DeleteChar, 0), UiEffect::Idle);
    assert_eq!(typed(&e), s(""));
}

#[test]
fn selection_moves_and_clamps() {
    let mut e = EditorState::new();
    assert_eq!(e.apply_action(UserAction::Move(Direction::Down), 3), UiEffect::Idle);
    assert_eq!(e.selection, 1);
    e.apply_action(UserAction::Move(Direction::Down), 3);
    e.apply_action(UserAction::Move(Direction::Down), 3);
    e.apply_action(UserAction::Move(Direction::Down), 3);
    assert_eq!(e.selection, 3);
    e.apply_action(UserAction::Move(Direction::Up), 3);
    assert_eq!(e.selection, 2);
    // A shrunken result list pulls the highlight back in.
    e.apply_action(UserAction::Idle, 1);
    assert_eq!(e.selection, 1);
}

#[test]
fn tab_cycles_back_to_the_first_result() {
    let mut e = EditorState::new();
    assert_eq!(e.apply_action(UserAction::NextResult, 2), UiEffect::Idle);
    assert_eq!(e.selection, 1);
    e.apply_action(UserAction::NextResult, 2);
    assert_eq!(e.selection, 2);
    e.apply_action(UserAction::NextResult, 2);
    assert_eq!(e.selection, 1);
}

#[test]
fn entering_a_result_resets_the_editor() {
    let mut e = EditorState::new();
    e.apply_action(UserAction::NewChar('q'), 2);
    e.apply_action(UserAction::Move(Direction::Down), 2);
    let eff = e.apply_action(UserAction::Move(Direction::Right), 2);
    assert_eq!(eff, UiEffect::ChangeDirTo(0));
    assert_eq!(typed(&e), s(""));
    assert_eq!(e.cursor, 0);
    assert_eq!(e.selection, 0);
    let mut e = EditorState::new();
    e.apply_action(UserAction::Move(Direction::Down), 2);
    e.apply_action(UserAction::Move(Direction::Down), 2);
    let eff = e.apply_action(UserAction::Move(Direction::Left), 2);
    assert_eq!(eff, UiEffect::ChangeDirToParent(1));
}

#[test]
fn goto_defaults_to_the_first_result() {
    let mut e = EditorState::new();
    assert_eq!(e.apply_action(UserAction::GotoResult, 4), UiEffect::Finish(0));
    e.apply_action(UserAction::Move(Direction::Down), 4);
    e.apply_action(UserAction::Move(Direction::Down), 4);
    assert_eq!(e.apply_action(UserAction::GotoResult, 4), UiEffect::Finish(1));
    assert_eq!(e.apply_action(UserAction::Quit, 4), UiEffect::Quit);
}

#[test]
fn display_follows_the_highlight() {
    let mut e = EditorState::new();
    assert_eq!(e.display_selection(), None);
    e.apply_action(UserAction::Move(Direction::Down), 2);
    assert_eq!(e.display_selection(), Some(0));
}

#[test]
fn writer_repaints_only_on_change() {
    let mut w = Writer::new();
    assert_eq!(w.write(&s("frame one"), 3, 0), WriteStep::Repaint);
    assert_eq!(w.write(&s("frame one"), 3, 0), WriteStep::Keep);
    assert_eq!(w.write(&s("frame one"), 5, 0), WriteStep::MoveCursor);
    assert_eq!(w.write(&s("frame two"), 5, 0), WriteStep::Repaint);
    assert_eq!(w.last_output, s("frame two"));
}

#[test]
fn symbols_per_pack() {
    let dir_marker = VisualPackChars::ResultLeft(RankSource::ExactPath, true);
    let file_marker = VisualPackChars::ResultLeft(RankSource::Semantic, false);
    assert_eq!(VisualPack::ExtendedUnicode.get_symbol(dir_marker), "\u{58e}");
    assert_eq!(VisualPack::ExtendedUnicode.get_symbol(file_marker), "\u{6de}");
    assert_eq!(VisualPack::ExtendedUnicode.get_symbol(VisualPackChars::SearchBarLeft), "\u{15e7} ");
    assert_eq!(VisualPack::CommonUnicode.get_symbol(dir_marker), "\u{25b8}");
    assert_eq!(VisualPack::Ascii.get_symbol(dir_marker), ">");
    assert_eq!(VisualPack::Ascii.get_symbol(file_marker), "*");
    assert_eq!(VisualPack::Ascii.get_symbol(VisualPackChars::SearchBarRight), " ]");
}
