use vstd::prelude::*;

verus! {

/// The window events the game's event loop tells apart.
#[derive(Debug, Clone, Copy, PartialEq, Eq, Structural)]
pub enum WindowEventKind {
    /// The escape key went down.
    EscapePressed,
    /// A mouse button went down (`true`) or up.
    MouseButton(bool),
    /// Any other keyboard event.
    Key,
    CursorMoved,
    CloseRequested,
    Resized,
    RedrawRequested,
    Other,
}

/// What the event loop does with an event before the game state sees it.
#[derive(Debug, Clone, Copy, PartialEq, Eq, Structural)]
pub struct EventPlan {
    /// Leave the event loop at once.
    pub exit_now: bool,
    /// Grab (`Some(true)`) or release (`Some(false)`) the mouse.
    pub set_grab: Option<bool>,
    /// Hand the mouse button to the input state.
    pub forward_mouse: bool,
    /// The event was used up by grabbing.
    pub consumed: bool,
}

/// The event loop's next step once the game state has seen the event.
#[derive(Debug, Clone, Copy, PartialEq, Eq, Structural)]
pub enum FollowUp {
    Exit,
    Resize,
    UpdateAndRender,
    /// Remember where the grabbed cursor went.
    TrackCursor,
    Nothing,
}

/// Escape releases a grabbed mouse, or else quits; pressing a mouse button
/// grabs the mouse if it is free; mouse buttons reach the input state.
pub open spec fn event_plan(grabbed: bool, ev: WindowEventKind) -> EventPlan {
    match ev {
        WindowEventKind::EscapePressed => if grabbed {
            EventPlan { exit_now: false, set_grab: Some(false), forward_mouse: false, consumed: true }
        } else {
            EventPlan { exit_now: true, set_grab: None, forward_mouse: false, consumed: false }
        },
        WindowEventKind::MouseButton(pressed) => EventPlan {
            exit_now: false,
            set_grab: if pressed && !grabbed {
                Some(true)
            } else {
                None
            },
            forward_mouse: true,
            consumed: false,
        },
        _ => EventPlan { exit_now: false, set_grab: None, forward_mouse: false, consumed: false },
    }
}

/// A cursor move while the mouse is grabbed is tracked; otherwise an event
/// that neither grabbing nor the game state used up closes, resizes, or
/// advances and draws the game.
pub open spec fn follow_up_of(grabbed: bool, consumed: bool, handled: bool, ev: WindowEventKind) -> FollowUp {
    if grabbed && ev == WindowEventKind::CursorMoved {
        FollowUp::TrackCursor
    } else if consumed || handled {
        FollowUp::Nothing
    } else {
        match ev {
            WindowEventKind::CloseRequested => FollowUp::Exit,
            WindowEventKind::Resized => FollowUp::Resize,
            WindowEventKind::RedrawRequested => FollowUp::UpdateAndRender,
            _ => FollowUp::Nothing,
        }
    }
}

/// What to do with a window event before the game state sees it, given
/// whether the mouse is grabbed.
pub fn plan_window_event(grabbed: bool, ev: WindowEventKind) -> (r: EventPlan)
    ensures
        r == event_plan(grabbed, ev),
        r.set_grab == Some(false) <==> (ev == WindowEventKind::EscapePressed && grabbed),
        r.set_grab == Some(true) <==> (ev == WindowEventKind::MouseButton(true) && !grabbed),
        r.exit_now <==> (ev == WindowEventKind::EscapePressed && !grabbed),
        r.forward_mouse <==> ev is MouseButton,
        r.consumed <==> (ev == WindowEventKind::EscapePressed && grabbed),
{
    match ev {
        WindowEventKind::EscapePressed => {
            if grabbed {
                EventPlan { exit_now: false, set_grab: Some(false), forward_mouse: false, consumed: true }
            } else {
                EventPlan { exit_now: true, set_grab: None, forward_mouse: false, consumed: false }
            }
        },
        WindowEventKind::MouseButton(pressed) => EventPlan {
            exit_now: false,
            set_grab: if pressed && !grabbed {
                Some(true)
            } else {
                None
            },
            forward_mouse: true,
            consumed: false,
        },
        _ => EventPlan { exit_now: false, set_grab: None, forward_mouse: false, consumed: false },
    }
}

/// Only Escape releases a grabbed mouse, only pressing a mouse button grabs
/// a free one, and only Escape with a free mouse leaves at once; every other
/// event leaves the grab as it is.
pub proof fn law_only_escape_releases_the_mouse(grabbed: bool, ev: WindowEventKind)
    ensures
        event_plan(grabbed, ev).set_grab == Some(false) <==> (ev == WindowEventKind::EscapePressed && grabbed),
        event_plan(grabbed, ev).set_grab == Some(true) <==> (ev == WindowEventKind::MouseButton(true) && !grabbed),
        event_plan(grabbed, ev).set_grab is None <==> !((ev == WindowEventKind::EscapePressed && grabbed) || (ev
            == WindowEventKind::MouseButton(true) && !grabbed)),
        event_plan(grabbed, ev).exit_now <==> (ev == WindowEventKind::EscapePressed && !grabbed),
        event_plan(grabbed, ev).forward_mouse <==> ev is MouseButton,
        event_plan(grabbed, ev).consumed <==> (ev == WindowEventKind::EscapePressed && grabbed),
{
}

/// A click while the mouse is grabbed leaves it grabbed, press and release
/// alike, and still reaches the input state.
pub proof fn law_clicks_keep_the_grab(pressed: bool)
    ensures
        event_plan(true, WindowEventKind::MouseButton(pressed)).set_grab is None,
        event_plan(true, WindowEventKind::MouseButton(pressed)).forward_mouse,
        !event_plan(true, WindowEventKind::MouseButton(pressed)).exit_now,
{
}

/// The next step: a grabbed cursor's moves are tracked; closing, resizing
/// and redrawing are acted on only when nothing used the event up, and
/// nothing else leads anywhere.
pub proof fn law_follow_up_steps(grabbed: bool, consumed: bool, handled: bool, ev: WindowEventKind)
    ensures
        follow_up_of(grabbed, consumed, handled, ev) == FollowUp::TrackCursor <==> (grabbed && ev
            == WindowEventKind::CursorMoved),
        follow_up_of(grabbed, consumed, handled, ev) == FollowUp::Exit <==> (ev == WindowEventKind::CloseRequested
            && !consumed && !handled),
        follow_up_of(grabbed, consumed, handled, ev) == FollowUp::Resize <==> (ev == WindowEventKind::Resized
            && !consumed && !handled),
        follow_up_of(grabbed, consumed, handled, ev) == FollowUp::UpdateAndRender <==> (ev
            == WindowEventKind::RedrawRequested && !consumed && !handled),
{
}

/// The loop's next step once the game state has seen the event: `grabbed`
/// is whether the mouse is grabbed now, `consumed` whether grabbing used the
/// event up, `handled` whether the game state did.
pub fn follow_up(grabbed: bool, consumed: bool, handled: bool, ev: WindowEventKind) -> (r: FollowUp)
    ensures
        r == follow_up_of(grabbed, consumed, handled, ev),
        r == FollowUp::TrackCursor <==> (grabbed && ev == WindowEventKind::CursorMoved),
        r == FollowUp::Exit <==> (ev == WindowEventKind::CloseRequested && !consumed && !handled),
        r == FollowUp::Resize <==> (ev == WindowEventKind::Resized && !consumed && !handled),
        r == FollowUp::UpdateAndRender <==> (ev == WindowEventKind::RedrawRequested && !consumed && !handled),
{
    if grabbed && ev == WindowEventKind::CursorMoved {
        FollowUp::TrackCursor
    } else if consumed || handled {
        FollowUp::Nothing
    } else {
        match ev {
            WindowEventKind::CloseRequested => FollowUp::Exit,
            WindowEventKind::Resized => FollowUp::Resize,
            WindowEventKind::RedrawRequested => FollowUp::UpdateAndRender,
            _ => FollowUp::Nothing,
        }
    }
}

} // verus!
