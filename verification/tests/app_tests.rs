use guixvis::app::{
    clamp_position, is_web_homepage, key_action, move_cursor, page_cursor, reply_current,
    search_pending, Key, KeyAction, KeyCode, NodeKind, RevState, Tab, TreeState,
};
use guixvis::ui::tree::{is_expanded, TRANS_SECTION};

#[test]
fn only_web_homepages_can_be_launched() {
    assert!(is_web_homepage("https://gnu.org/software/emacs/"));
    assert!(is_web_homepage("http://example.org"));
    for url in [
        "",
        "file:///etc/passwd",
        "javascript:alert(1)",
        "--help",
        "https://",
        "https:///file",
        "https://example.org\n",
    ] {
        assert!(!is_web_homepage(url), "{url:?}");
    }
}

#[test]
fn tabs_cycle_in_both_directions() {
    let all = Tab::all();
    assert_eq!(all.len(), 4);
    for t in all {
        assert_eq!(t.next().prev(), t);
        assert_eq!(t.prev().next(), t);
    }
    assert_eq!(Tab::Graph.next(), Tab::Overview);
    assert_eq!(Tab::Overview.prev(), Tab::Graph);
    assert_eq!(Tab::Overview.key(), '1');
    assert_eq!(Tab::Graph.key(), '4');
}

fn key(code: KeyCode) -> Key {
    Key { code, ctrl: false, shift: false }
}

#[test]
fn command_keys_act_only_while_the_query_is_empty() {
    let q = key(KeyCode::Char('q'));
    assert_eq!(key_action(q, Tab::Overview, true, false), KeyAction::Quit);
    assert_eq!(key_action(q, Tab::Overview, false, false), KeyAction::Type('q'));
    let ctrl_c = Key { code: KeyCode::Char('c'), ctrl: true, shift: false };
    assert_eq!(key_action(ctrl_c, Tab::Deps, false, false), KeyAction::Quit);
    assert_eq!(
        key_action(key(KeyCode::Char('3')), Tab::Overview, true, false),
        KeyAction::SwitchTab(Tab::RevDeps)
    );
    assert_eq!(
        key_action(key(KeyCode::Char('g')), Tab::Graph, true, false),
        KeyAction::GraphRebuild
    );
    assert_eq!(
        key_action(key(KeyCode::Char('g')), Tab::Deps, true, false),
        KeyAction::JumpTop
    );
    assert_eq!(
        key_action(key(KeyCode::Enter), Tab::Deps, false, false),
        KeyAction::Toggle
    );
    assert_eq!(
        key_action(key(KeyCode::Esc), Tab::Overview, true, true),
        KeyAction::CloseHelp
    );
    assert_eq!(
        key_action(key(KeyCode::Esc), Tab::Overview, false, false),
        KeyAction::ClearQuery
    );
    assert_eq!(
        key_action(key(KeyCode::Esc), Tab::Deps, true, false),
        KeyAction::SwitchTab(Tab::Overview)
    );
    let back_tab = Key { code: KeyCode::Tab, ctrl: false, shift: true };
    assert_eq!(
        key_action(back_tab, Tab::Overview, true, false),
        KeyAction::SwitchTab(Tab::Graph)
    );
    assert_eq!(
        key_action(key(KeyCode::Tab), Tab::Graph, true, false),
        KeyAction::SwitchTab(Tab::Overview)
    );
}

#[test]
fn cursor_moves_clamp_to_the_rows() {
    assert_eq!(move_cursor(0, -1, 5), Some(0));
    assert_eq!(move_cursor(3, 1, 5), Some(4));
    assert_eq!(move_cursor(4, 1, 5), Some(4));
    assert_eq!(move_cursor(2, -10, 5), Some(0));
    assert_eq!(move_cursor(0, 1, 0), None);
    assert_eq!(page_cursor(3, 10, true, 5), Some(4));
    assert_eq!(page_cursor(3, 10, false, 5), Some(0));
    assert_eq!(page_cursor(1, 10, true, 0), None);
    assert_eq!(clamp_position(7, 3), 2);
    assert_eq!(clamp_position(1, 3), 1);
    assert_eq!(clamp_position(5, 0), 0);
}

#[test]
fn toggling_twice_restores_the_tree() {
    let k = NodeKind::Input;
    let mut state = TreeState::default();
    let key = vec![(0u32, k), (1u32, k)];
    state.toggle(&key);
    assert!(is_expanded(&state.expanded, &key));
    state.toggle(&key);
    assert!(!is_expanded(&state.expanded, &key));
    assert!(state.expanded.is_empty());
}

#[test]
fn the_transitive_header_opens_the_section() {
    let mut state = RevState::default();
    state.toggle(&[(TRANS_SECTION, NodeKind::RevTrans)]);
    assert!(state.trans_open);
    assert!(state.expanded.is_empty());
    let key = vec![(4u32, NodeKind::RevDirect), (0u32, NodeKind::RevDirect)];
    state.toggle(&key);
    assert!(state.trans_open);
    assert!(is_expanded(&state.expanded, &key));
    state.toggle(&[(TRANS_SECTION, NodeKind::RevTrans)]);
    assert!(!state.trans_open);
}

#[test]
fn only_the_newest_reply_for_the_visible_query_is_shown() {
    assert!(reply_current(3, 3, "emac", "emac"));
    assert!(!reply_current(2, 3, "emac", "emac"));
    assert!(!reply_current(3, 3, "", "e"));
    assert!(search_pending(true, 1, 1));
    assert!(search_pending(false, 2, 1));
    assert!(!search_pending(false, 2, 2));
}
