use rdp_client::input::{sanitise_scale, sanitise_size, Command, MouseButton};
use rdp_client::proto::input::{Button, Event, MAX_ROTATION};

/// What one call queues.
fn queued(command: Command) -> Event {
    match command {
        Command::Input(event) => event,
        _ => panic!("expected one input event"),
    }
}

#[test]
fn a_call_becomes_the_event_the_wire_has_a_shape_for() {
    assert_eq!(queued(Command::mouse_move(7, 9)), Event::Move { x: 7, y: 9 });
    assert_eq!(
        queued(Command::key(0x48, true, false)),
        Event::Key { scancode: 0x48, extended: true, down: false }
    );
    assert_eq!(
        queued(Command::mouse_button(MouseButton::X2, true, 5, 6)),
        Event::Button { button: Button::X2, down: true, x: 5, y: 6 }
    );
}

/// The rotation shares its word with the event-type bits on the wire, so an
/// oversized delta that wrapped into them would turn a scroll into some other
/// event entirely.
#[test]
fn an_oversized_wheel_delta_is_held_to_what_the_field_carries() {
    for delta in [i16::MIN, -32000, -400, 400, 32000, i16::MAX] {
        let Event::Wheel { rotation, .. } = queued(Command::wheel(delta, false, 0, 0))
        else {
            panic!("not a wheel event")
        };
        assert!(rotation.abs() <= MAX_ROTATION, "delta {delta} became {rotation}");
        assert_eq!(rotation.signum(), delta.signum(), "delta {delta} changed direction");
    }
    // And the two axes are different events, not the same one with a sign.
    let Event::Wheel { horizontal, .. } = queued(Command::wheel(120, true, 0, 0)) else {
        panic!("not a wheel event")
    };
    assert!(horizontal);
}

/// Every one of these is a size a viewport really produces, and an odd width is
/// the one that fails *silently* on a Windows host.
#[test]
fn a_requested_size_is_brought_inside_what_the_protocol_allows() {
    assert_eq!(sanitise_size(1281, 800), (1280, 800), "an odd width rounds down");
    assert_eq!(sanitise_size(1920, 1080), (1920, 1080), "a legal size is left alone");
    assert_eq!(sanitise_size(0, 0), (200, 200), "below the minimum");
    assert_eq!(sanitise_size(u32::MAX, u32::MAX), (8192, 8192), "above the maximum");
    for (width, _) in [sanitise_size(0, 600), sanitise_size(u32::MAX, 600), sanitise_size(1, 1)] {
        assert_eq!(width % 2, 0, "the clamp produced an odd width");
    }
}

#[test]
fn a_scale_factor_cannot_leave_the_range_that_makes_it_legal() {
    assert_eq!(sanitise_scale(100), 100);
    assert_eq!(sanitise_scale(200), 200);
    assert_eq!(sanitise_scale(0), 100, "\"unset\" is the same request, badly spelled");
    assert_eq!(sanitise_scale(u32::MAX), 500);
}

/// A resize is queued as it will be sent, and the clipboard's three shapes as they are.
#[test]
fn a_resize_is_queued_as_it_will_be_sent() {
    assert_eq!(Command::resize(1281, 99, 1000), Command::Resize { width: 1280, height: 200, scale_percent: 500 });
    assert_eq!(Command::advertise_clipboard(vec![13]), Command::Clipboard(rdp_client::input::Clipboard::Advertise(vec![13])));
    assert_eq!(Command::request_clipboard(13), Command::Clipboard(rdp_client::input::Clipboard::Request(13)));
    assert_eq!(Command::send_clipboard(None), Command::Clipboard(rdp_client::input::Clipboard::Respond(None)));
}
