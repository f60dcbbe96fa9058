use tokei_tui::frame::{clamp_offset, viewport_height, CHROME_ROWS};
use tokei_tui::index::{path_map, PathIndex};
use tokei_tui::nav::{action_for, Action, DisplayFlags, Mods, NavigationState};
use tokei_tui::paths::TreePath;

fn tp(s: &str) -> TreePath {
    TreePath {
        comps: s.split('/').filter(|c| !c.is_empty()).map(|c| c.as_bytes().to_vec()).collect(),
    }
}

fn sample() -> PathIndex {
    let files: Vec<TreePath> = ["/a/b/x.rs", "/a/b/y.rs", "/a/c/z.rs", "/a/w.rs"].iter().map(|p| tp(p)).collect();
    path_map(&files)
}

fn text(p: &TreePath) -> String {
    let parts: Vec<String> = p.comps.iter().map(|c| String::from_utf8(c.clone()).unwrap()).collect();
    format!("/{}", parts.join("/"))
}

fn press(s: &mut NavigationState, index: &PathIndex, a: Action) {
    let mut flags = DisplayFlags::new();
    assert!(s.apply(&mut flags, index, a, 10));
}

#[test]
fn first_move_down_selects_first_child() {
    let index = sample();
    let mut s = NavigationState::new();
    assert_eq!(s.selected, None);
    assert_eq!(s.current_node(&index), 0);
    press(&mut s, &index, Action::Down);
    assert_eq!(s.selected, Some(1));
    assert_eq!(text(index.path_of(s.current_node(&index))), "/a/b");
}

#[test]
fn descend_at_file_is_noop() {
    let index = sample();
    let mut s = NavigationState::new();
    press(&mut s, &index, Action::Last);
    assert_eq!(text(index.path_of(s.current_node(&index))), "/a/w.rs");
    let before = s;
    press(&mut s, &index, Action::Descend);
    assert_eq!(s, before);
}

#[test]
fn descend_on_row_zero_is_noop() {
    let index = sample();
    let mut s = NavigationState::new();
    press(&mut s, &index, Action::Descend);
    assert_eq!(s, NavigationState::new());
}

#[test]
fn ascend_at_root_is_noop() {
    let index = sample();
    let mut s = NavigationState::new();
    press(&mut s, &index, Action::Down);
    let before = s;
    for _ in 0..5 {
        press(&mut s, &index, Action::Ascend);
        assert_eq!(s, before);
    }
}

#[test]
fn descend_then_ascend_returns() {
    let index = sample();
    let mut s = NavigationState::new();
    press(&mut s, &index, Action::Down);
    press(&mut s, &index, Action::Down);
    assert_eq!(s.selected, Some(2));
    press(&mut s, &index, Action::Descend);
    assert_eq!(text(index.path_of(s.current_root)), "/a/c");
    assert_eq!(s.selected, Some(0));
    press(&mut s, &index, Action::Ascend);
    assert_eq!(s.current_root, 0);
    assert_eq!(s.selected, Some(0));
}

#[test]
fn rows_are_clamped() {
    let index = sample();
    let mut s = NavigationState::new();
    for _ in 0..10 {
        press(&mut s, &index, Action::Down);
    }
    assert_eq!(s.selected, Some(3));
    for _ in 0..10 {
        press(&mut s, &index, Action::Up);
    }
    assert_eq!(s.selected, Some(0));
    press(&mut s, &index, Action::Last);
    assert_eq!(s.selected, Some(3));
    press(&mut s, &index, Action::First);
    assert_eq!(s.selected, Some(0));
}

#[test]
fn row_change_resets_scroll() {
    let index = sample();
    let mut s = NavigationState::new();
    for a in [Action::Down, Action::Up, Action::First, Action::Last] {
        press(&mut s, &index, Action::PageDown);
        assert_eq!(s.offset, 10);
        press(&mut s, &index, a);
        assert_eq!(s.offset, 0);
    }
}

#[test]
fn scrolling() {
    let index = sample();
    let mut s = NavigationState::new();
    press(&mut s, &index, Action::PageDown);
    press(&mut s, &index, Action::PageDown);
    assert_eq!(s.offset, 20);
    press(&mut s, &index, Action::PageUp);
    assert_eq!(s.offset, 10);
    press(&mut s, &index, Action::PageUp);
    press(&mut s, &index, Action::PageUp);
    assert_eq!(s.offset, 0);
    press(&mut s, &index, Action::Bottom);
    assert_eq!(s.offset, u16::MAX);
    press(&mut s, &index, Action::PageDown);
    assert_eq!(s.offset, u16::MAX);
    press(&mut s, &index, Action::Top);
    assert_eq!(s.offset, 0);
}

#[test]
fn toggles_and_quit() {
    let index = sample();
    let mut s = NavigationState::new();
    let mut flags = DisplayFlags::new();
    assert!(s.apply(&mut flags, &index, Action::ToggleListFiles, 5));
    assert!(flags.list_files && !flags.compact);
    assert!(s.apply(&mut flags, &index, Action::ToggleCompact, 5));
    assert!(flags.list_files && flags.compact);
    assert!(s.apply(&mut flags, &index, Action::ToggleListFiles, 5));
    assert!(!flags.list_files);
    assert!(!s.apply(&mut flags, &index, Action::Quit, 5));
    assert_eq!(s, NavigationState::new());
}

#[test]
fn key_bindings() {
    assert_eq!(action_for(Some('j'), Mods::Plain), Some(Action::Down));
    assert_eq!(action_for(Some('k'), Mods::Plain), Some(Action::Up));
    assert_eq!(action_for(Some('J'), Mods::Shift), Some(Action::Last));
    assert_eq!(action_for(Some('K'), Mods::Shift), Some(Action::First));
    assert_eq!(action_for(Some('h'), Mods::Plain), Some(Action::Ascend));
    assert_eq!(action_for(Some('l'), Mods::Plain), Some(Action::Descend));
    assert_eq!(action_for(Some('f'), Mods::Plain), Some(Action::ToggleListFiles));
    assert_eq!(action_for(Some('f'), Mods::Control), Some(Action::PageDown));
    assert_eq!(action_for(Some('b'), Mods::Control), Some(Action::PageUp));
    assert_eq!(action_for(Some('c'), Mods::Plain), Some(Action::ToggleCompact));
    assert_eq!(action_for(Some('g'), Mods::Plain), Some(Action::Top));
    assert_eq!(action_for(Some('G'), Mods::Shift), Some(Action::Bottom));
    assert_eq!(action_for(Some('q'), Mods::Plain), Some(Action::Quit));
    assert_eq!(action_for(Some('j'), Mods::Control), None);
    assert_eq!(action_for(Some('x'), Mods::Plain), None);
    assert_eq!(action_for(None, Mods::Plain), None);
}

#[test]
fn clamp_scroll_offset() {
    assert_eq!(clamp_offset(u16::MAX, 10, 3), 7);
    assert_eq!(clamp_offset(5, 10, 3), 5);
    assert_eq!(clamp_offset(5, 3, 10), 0);
    assert_eq!(clamp_offset(0, 100, 10), 0);
    assert_eq!(clamp_offset(u16::MAX, usize::MAX, 0), u16::MAX);
    let mut s = NavigationState::new();
    s.offset = u16::MAX;
    s.clamp_scroll(50, 20);
    assert_eq!(s.offset, 30);
}

#[test]
fn viewport_leaves_borders() {
    assert_eq!(CHROME_ROWS, 2);
    assert_eq!(viewport_height(24), 22);
    assert_eq!(viewport_height(1), 0);
}

#[test]
fn pane_labels() {
    let index = sample();
    let s = NavigationState::new();
    let labels: Vec<String> = s.labels(&index).into_iter().map(|l| String::from_utf8(l).unwrap()).collect();
    assert_eq!(labels, vec![".", "b", "c", "w.rs"]);
}
