use rinkaku::quit_confirm::{InputKey, QuitState};

#[test]
fn should_start_with_quit_confirm_closed() {
    let state = QuitState::new();

    assert_eq!(false, state.quit_confirm_open);
    assert_eq!(false, state.should_quit);
}

#[test]
fn should_open_quit_confirm_instead_of_quitting_when_request_quit_is_pressed() {
    let state = QuitState::new().request_quit();

    assert_eq!(true, state.quit_confirm_open);
    assert_eq!(false, state.should_quit);
}

#[test]
fn should_quit_when_popup_confirm_is_pressed_while_quit_confirm_is_open() {
    let state = QuitState::new().request_quit().handle_quit_confirm_key(InputKey::PopupConfirm);

    assert_eq!(true, state.should_quit);
    assert_eq!(false, state.quit_confirm_open);
}

#[test]
fn should_close_popup_without_quitting_when_popup_cancel_is_pressed_while_quit_confirm_is_open() {
    let state = QuitState::new().request_quit().handle_quit_confirm_key(InputKey::PopupCancel);

    assert_eq!(false, state.quit_confirm_open);
    assert_eq!(false, state.should_quit);
}

#[test]
fn should_quit_immediately_via_ctrl_c_even_while_quit_confirm_is_open() {
    let state = QuitState::new().request_quit().handle_quit_confirm_key(InputKey::Quit);

    assert_eq!(true, state.should_quit);
}

#[test]
fn should_swallow_unrelated_keys_while_quit_confirm_is_open() {
    let before = QuitState::new().request_quit();

    let state = before.handle_quit_confirm_key(InputKey::Down);

    assert_eq!(before, state);
    assert_eq!(true, state.quit_confirm_open);
    assert_eq!(false, state.should_quit);
}
