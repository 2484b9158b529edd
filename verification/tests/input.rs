use soft_renderer::input::{held_button, mouse_action, MouseAction, MouseButtonHeld};

#[test]
fn test_middle_button_wins() {
    assert_eq!(held_button(false, false), MouseButtonHeld::Neither);
    assert_eq!(held_button(true, false), MouseButtonHeld::Middle);
    assert_eq!(held_button(false, true), MouseButtonHeld::Right);
    assert_eq!(held_button(true, true), MouseButtonHeld::Middle);
}

#[test]
fn test_no_button_forgets_the_cursor() {
    assert_eq!(mouse_action(MouseButtonHeld::Neither, true), MouseAction::Release);
    assert_eq!(mouse_action(MouseButtonHeld::Neither, false), MouseAction::Release);
}

#[test]
fn test_first_frame_of_a_drag_only_tracks() {
    assert_eq!(mouse_action(MouseButtonHeld::Middle, false), MouseAction::Track);
    assert_eq!(mouse_action(MouseButtonHeld::Right, false), MouseAction::Track);
}

#[test]
fn test_later_frames_of_a_drag_move_the_object() {
    assert_eq!(mouse_action(MouseButtonHeld::Middle, true), MouseAction::Pan);
    assert_eq!(mouse_action(MouseButtonHeld::Right, true), MouseAction::Rotate);
}
