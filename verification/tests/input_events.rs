use rdp_client::proto::input::{
    pdus, Button, Event, ACTION, DOWN, EXTENDED, EXTENDED_MOUSE, HEADER_EVENTS, HORIZONTAL_WHEEL,
    LEFT_BUTTON, MAX_EVENTS, MAX_ROTATION, MIDDLE_BUTTON, RELEASE, VERTICAL_WHEEL, WHEEL_NEGATIVE,
    X1_BUTTON, X2_BUTTON,
};

fn one(event: Event) -> Vec<u8> {
    one_pdu(&[event])
}

#[test]
fn a_key_carries_its_release_and_extended_bits_beside_the_code() {
    assert_eq!(
        one(Event::Key { scancode: 0x1E, extended: false, down: true }),
        vec![0x04, 0x04, 0x00, 0x1E]
    );
    assert_eq!(
        one(Event::Key { scancode: 0x48, extended: true, down: false }),
        vec![0x04, 0x04, RELEASE | EXTENDED, 0x48]
    );
}

#[test]
fn a_move_presses_nothing_and_turns_no_wheel() {
    assert_eq!(
        one(Event::Move { x: 0x0102, y: 0x0304 }),
        vec![0x04, 0x09, 0x20, 0x00, 0x08, 0x02, 0x01, 0x04, 0x03]
    );
}

#[test]
fn a_button_carries_its_own_down_bit() {
    let down = one(Event::Button { button: Button::Left, down: true, x: 1, y: 2 });
    assert_eq!(&down[3..5], (LEFT_BUTTON | DOWN).to_le_bytes());
    let up = one(Event::Button { button: Button::Left, down: false, x: 1, y: 2 });
    assert_eq!(&up[3..5], LEFT_BUTTON.to_le_bytes());
    let middle = one(Event::Button { button: Button::Middle, down: true, x: 1, y: 2 });
    assert_eq!(&middle[3..5], (MIDDLE_BUTTON | DOWN).to_le_bytes());
}

/// The two extra buttons are a different event code, not a fourth and fifth flag.
#[test]
fn the_side_buttons_ride_an_event_of_their_own() {
    let x1 = one(Event::Button { button: Button::X1, down: true, x: 1, y: 2 });
    assert_eq!(x1[2], EXTENDED_MOUSE << 5);
    assert_eq!(&x1[3..5], (X1_BUTTON | DOWN).to_le_bytes());
    let x2 = one(Event::Button { button: Button::X2, down: false, x: 1, y: 2 });
    assert_eq!(x2[2], EXTENDED_MOUSE << 5);
    assert_eq!(&x2[3..5], X2_BUTTON.to_le_bytes());
}

/// The sign is a bit beside the magnitude, not the top bit of it.
#[test]
fn a_negative_wheel_sets_the_negative_bit_and_an_eight_bit_magnitude() {
    let down = one(Event::Wheel { rotation: -1, horizontal: false, x: 1, y: 2 });
    let flags = u16::from_le_bytes([down[3], down[4]]);
    assert_eq!(flags, VERTICAL_WHEEL | WHEEL_NEGATIVE | 0x00FF);
    let up = one(Event::Wheel { rotation: 120, horizontal: true, x: 1, y: 2 });
    let flags = u16::from_le_bytes([up[3], up[4]]);
    assert_eq!(flags, HORIZONTAL_WHEEL | 120);
}

/// A rotation past nine bits would not be a larger scroll; it would set
/// `PTRFLAGS_MOVE` and become a jump.
#[test]
fn an_oversized_rotation_cannot_reach_the_flag_bits() {
    for rotation in [i16::MAX, MAX_ROTATION + 1] {
        let pdu = one(Event::Wheel { rotation, horizontal: false, x: 1, y: 2 });
        let flags = u16::from_le_bytes([pdu[3], pdu[4]]);
        assert_eq!(flags, VERTICAL_WHEEL | u16::try_from(MAX_ROTATION).unwrap());
    }
    for rotation in [i16::MIN, -MAX_ROTATION - 1] {
        let pdu = one(Event::Wheel { rotation, horizontal: false, x: 1, y: 2 });
        let flags = u16::from_le_bytes([pdu[3], pdu[4]]);
        assert_eq!(flags, VERTICAL_WHEEL | WHEEL_NEGATIVE | 0x0001);
    }
}

#[test]
fn up_to_fifteen_events_are_counted_in_the_header_byte() {
    let events = vec![Event::Key { scancode: 1, extended: false, down: true }; HEADER_EVENTS];
    let pdu = one_pdu(&events);
    assert_eq!(pdu[0], ACTION | (15 << 2));
    assert_eq!(pdu[1], 2 + 15 * 2, "the length counts itself and the header");
    assert_eq!(pdu.len(), usize::from(pdu[1]));
}

#[test]
fn past_fifteen_the_count_moves_to_a_byte_of_its_own() {
    let events = vec![Event::Key { scancode: 1, extended: false, down: true }; 16];
    let pdu = one_pdu(&events);
    assert_eq!(pdu[0], ACTION, "a header count of zero says to look further on");
    assert_eq!(pdu[1], 3 + 16 * 2);
    assert_eq!(pdu[2], 16);
    assert_eq!(pdu.len(), usize::from(pdu[1]));
}

/// Past 127 bytes the length takes two, and taking two makes the PDU one longer.
#[test]
fn a_long_pdu_measures_itself_in_two_bytes() {
    let events = vec![Event::Move { x: 1, y: 2 }; 18];
    let pdu = one_pdu(&events);
    let length = u16::from_be_bytes([pdu[1], pdu[2]]);
    assert_eq!(length, 0x8000 | 130);
    assert_eq!(pdu.len(), 130);
    assert_eq!(pdu[3], 18, "the count still follows the length");
}

#[test]
fn more_events_than_one_pdu_holds_become_two() {
    let events = vec![Event::Move { x: 1, y: 2 }; MAX_EVENTS + 1];
    let pdus = pdus(&events);
    assert_eq!(pdus.len(), 2);
    assert_eq!(pdus[0][3], u8::try_from(MAX_EVENTS).unwrap());
    assert_eq!(pdus[1][0], ACTION | (1 << 2));
}

#[test]
fn nothing_to_send_is_nothing_sent() {
    assert_eq!(pdus(&[]).len(), 0);
}

fn one_pdu(events: &[Event]) -> Vec<u8> {
    let mut pdus = pdus(events).into_iter();
    let pdu = pdus.next().expect("a PDU");
    assert!(pdus.next().is_none(), "and only one");
    pdu
}
