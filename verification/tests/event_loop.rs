use voxel_engine::events::{follow_up, plan_window_event, FollowUp, WindowEventKind};

#[test]
fn escape_releases_grab_then_quits() {
    let p = plan_window_event(true, WindowEventKind::EscapePressed);
    assert_eq!(p.set_grab, Some(false));
    assert!(p.consumed && !p.exit_now);
    let p = plan_window_event(false, WindowEventKind::EscapePressed);
    assert!(p.exit_now);
    assert_eq!(p.set_grab, None);
}

#[test]
fn mouse_press_grabs_free_mouse() {
    let p = plan_window_event(false, WindowEventKind::MouseButton(true));
    assert_eq!(p.set_grab, Some(true));
    assert!(p.forward_mouse);
    assert_eq!(plan_window_event(true, WindowEventKind::MouseButton(true)).set_grab, None);
    assert_eq!(plan_window_event(false, WindowEventKind::MouseButton(false)).set_grab, None);
    assert!(!plan_window_event(false, WindowEventKind::Key).forward_mouse);
}

#[test]
fn follow_up_dispatch() {
    assert_eq!(follow_up(true, false, false, WindowEventKind::CursorMoved), FollowUp::TrackCursor);
    assert_eq!(follow_up(false, false, false, WindowEventKind::CursorMoved), FollowUp::Nothing);
    assert_eq!(follow_up(false, false, false, WindowEventKind::CloseRequested), FollowUp::Exit);
    assert_eq!(follow_up(true, false, false, WindowEventKind::Resized), FollowUp::Resize);
    assert_eq!(follow_up(false, false, false, WindowEventKind::RedrawRequested), FollowUp::UpdateAndRender);
    assert_eq!(follow_up(false, false, true, WindowEventKind::RedrawRequested), FollowUp::Nothing);
    assert_eq!(follow_up(true, true, false, WindowEventKind::CloseRequested), FollowUp::Nothing);
}
