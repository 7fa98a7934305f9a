use ugg::window::{
    build_menu, check_opaque_at, farewell_hold_ms, handle_menu, hides_on_toggle, AlphaMask,
    CursorWatch, MenuAction, MenuEntry, MenuSettings,
};

fn mask() -> AlphaMask {
    AlphaMask { cols: 3, rows: 2, cell_size_css: 8, data: vec![0, 1, 0, 0, 0] }
}

#[test]
fn a_point_is_looked_up_in_its_cell() {
    assert!(check_opaque_at(&mask(), Some((1, 0))));
    assert!(!check_opaque_at(&mask(), Some((0, 0))));
    assert!(!check_opaque_at(&mask(), Some((2, 1))), "the mask does not reach it");
    assert!(!check_opaque_at(&mask(), Some((3, 0))));
    assert!(!check_opaque_at(&mask(), Some((1, 2))));
    assert!(!check_opaque_at(&mask(), None), "outside the window");
    let empty = AlphaMask { cell_size_css: 0, ..mask() };
    assert!(!check_opaque_at(&empty, Some((1, 0))));
    let huge = AlphaMask { cols: u32::MAX, rows: u32::MAX, cell_size_css: 1, data: vec![1] };
    assert!(!check_opaque_at(&huge, Some((u32::MAX - 1, u32::MAX - 1))));
}

#[test]
fn the_window_lets_the_mouse_through_only_while_the_button_is_up() {
    let mut w = CursorWatch::new();
    assert_eq!(w.step(true, false), Some(false));
    assert_eq!(w.step(true, true), None);
    assert_eq!(w.step(false, true), None, "a drag is not dropped");
    assert_eq!(w.step(false, false), Some(true));
    assert_eq!(w.step(false, true), None);
    assert_eq!(w.step(true, true), Some(false), "the mouse is caught at once");
}

#[test]
fn the_menu_checks_the_mode_in_use() {
    let menu = build_menu(true, false);
    assert_eq!(menu.len(), 9);
    assert_eq!(
        menu[2],
        MenuEntry::Checked { id: "mode_low", label: "low モード (辞書のみ)", on: false }
    );
    assert_eq!(
        menu[3],
        MenuEntry::Checked { id: "mode_advanced", label: "advanced モード (LLM)", on: true }
    );
    for entry in &menu {
        match entry {
            MenuEntry::Plain { id, .. } | MenuEntry::Checked { id, .. } => {
                assert_ne!(handle_menu(id), MenuAction::Nothing, "{id}")
            }
            MenuEntry::Separator => {}
        }
    }
    assert_eq!(handle_menu("other"), MenuAction::Nothing);
}

#[test]
fn an_entry_changes_only_its_own_setting() {
    let mut s = MenuSettings { advanced: false, quiet_mode: true };
    assert!(s.choose_entry(handle_menu("mode_advanced")));
    assert_eq!(s, MenuSettings { advanced: true, quiet_mode: true });
    assert!(s.choose_entry(handle_menu("quiet_toggle")));
    assert_eq!(s, MenuSettings { advanced: true, quiet_mode: false });
    assert!(!s.choose_entry(handle_menu("quit")));
    assert_eq!(s, MenuSettings { advanced: true, quiet_mode: false });
}

#[test]
fn the_farewell_is_held_as_long_as_it_is_shown() {
    assert_eq!(farewell_hold_ms(None, Some("x")), 0);
    assert_eq!(farewell_hold_ms(Some("またね"), None), 1600 + 180 + 500);
    assert_eq!(farewell_hold_ms(Some("またね"), Some("じゃあ")), 1600 + 360 + 500);
    assert_eq!(farewell_hold_ms(Some(&"あ".repeat(106)), None), 1600 + 6360 + 500);
    assert_eq!(farewell_hold_ms(Some(&"あ".repeat(107)), None), 8500);
    assert!(hides_on_toggle(Some(true)));
    assert!(!hides_on_toggle(Some(false)));
    assert!(!hides_on_toggle(None));
}
