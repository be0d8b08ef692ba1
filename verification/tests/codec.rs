use keyboard_daemon::codec::{
    decode_command, decode_reply, decode_response, encode_command, encode_reply, encode_response,
};
use keyboard_daemon::color::Rgb;
use keyboard_daemon::protocol::{DaemonCommand, DaemonResponse};
use keyboard_daemon::BoardId;

fn round_trip_command(c: DaemonCommand) {
    let wire = encode_command(&c);
    assert_eq!(decode_command(&wire), Some(c));
}

#[test]
fn command_round_trips() {
    round_trip_command(DaemonCommand::boards {});
    round_trip_command(DaemonCommand::refresh {});
    round_trip_command(DaemonCommand::model {
        board: BoardId(0x1234_5678_9abc_def0_1122_3344_5566_7788),
    });
    round_trip_command(DaemonCommand::keymap_get {
        board: BoardId(7),
        layer: 1,
        output: 2,
        input: 3,
    });
    round_trip_command(DaemonCommand::keymap_set {
        board: BoardId(u128::MAX),
        layer: 0,
        output: 255,
        input: 16,
        value: 0xbeef,
    });
    round_trip_command(DaemonCommand::color { board: BoardId(1) });
    round_trip_command(DaemonCommand::set_color {
        board: BoardId(2),
        color: Rgb::new(255, 0, 0),
    });
    round_trip_command(DaemonCommand::max_brightness { board: BoardId(3) });
    round_trip_command(DaemonCommand::brightness { board: BoardId(4) });
    round_trip_command(DaemonCommand::set_brightness {
        board: BoardId(5),
        brightness: -42,
    });
    round_trip_command(DaemonCommand::exit {});
}

#[test]
fn command_wire_form_is_tag_then_fields() {
    assert_eq!(encode_command(&DaemonCommand::boards {}), b"00".to_vec());
    assert_eq!(encode_command(&DaemonCommand::exit {}), b"0a".to_vec());
    assert_eq!(
        encode_command(&DaemonCommand::model { board: BoardId(1) }),
        b"0200000000000000000000000000000001".to_vec()
    );
}

#[test]
fn negative_brightness_travels_in_two_complement() {
    let wire = encode_command(&DaemonCommand::set_brightness {
        board: BoardId(0),
        brightness: -1,
    });
    assert_eq!(&wire[34..], b"ffffffff");
}

#[test]
fn malformed_commands_are_rejected() {
    // Unknown tag.
    assert_eq!(decode_command(&b"0b".to_vec()), None);
    // Too short for its tag.
    assert_eq!(decode_command(&b"02".to_vec()), None);
    // Trailing bytes beyond the record.
    assert_eq!(decode_command(&b"0000".to_vec()), None);
    // Uppercase digits are not canonical.
    assert_eq!(decode_command(&b"0A".to_vec()), None);
    // A non-hex byte in a field.
    assert_eq!(
        decode_command(&b"020000000000000000000000000000000g".to_vec()),
        None
    );
    // The empty record.
    assert_eq!(decode_command(&Vec::new()), None);
}

fn round_trip_response(r: DaemonResponse) {
    let wire = encode_response(&r);
    assert_eq!(decode_response(&wire), Some(r));
}

#[test]
fn response_round_trips() {
    round_trip_response(DaemonResponse::boards(vec![]));
    round_trip_response(DaemonResponse::boards(vec![
        BoardId(1),
        BoardId(u128::MAX),
        BoardId(0),
    ]));
    round_trip_response(DaemonResponse::refresh);
    round_trip_response(DaemonResponse::model(String::new()));
    round_trip_response(DaemonResponse::model("launch_1".to_string()));
    round_trip_response(DaemonResponse::model("tästiëren — ¬ascii".to_string()));
    round_trip_response(DaemonResponse::keymap_get(0xffff));
    round_trip_response(DaemonResponse::keymap_set);
    round_trip_response(DaemonResponse::color(Rgb::new(1, 2, 3)));
    round_trip_response(DaemonResponse::set_color);
    round_trip_response(DaemonResponse::max_brightness(100));
    round_trip_response(DaemonResponse::brightness(-7));
    round_trip_response(DaemonResponse::set_brightness);
    round_trip_response(DaemonResponse::exit);
}

#[test]
fn response_length_must_match_its_count() {
    // A boards record claiming one identifier but carrying none.
    let mut wire = encode_response(&DaemonResponse::boards(vec![]));
    wire.splice(2..18, b"0000000000000001".iter().copied());
    assert_eq!(decode_response(&wire), None);
}

#[test]
fn model_bytes_must_be_utf8() {
    // tag 02, one byte, 0xff: not valid UTF-8.
    let wire = b"0200000000000001ffff".to_vec();
    assert_eq!(decode_response(&wire), None);
}

fn round_trip_reply(r: Result<DaemonResponse, String>) {
    let wire = encode_reply(&r);
    assert_eq!(decode_reply(&wire), Some(r));
}

#[test]
fn reply_round_trips() {
    round_trip_reply(Ok(DaemonResponse::boards(vec![BoardId(9)])));
    round_trip_reply(Ok(DaemonResponse::exit));
    round_trip_reply(Err("failed to find board".to_string()));
    round_trip_reply(Err(String::new()));
}

#[test]
fn reply_markers() {
    let ok = encode_reply(&Ok(DaemonResponse::refresh));
    assert_eq!(&ok[..2], b"00");
    let err = encode_reply(&Err("x".to_string()));
    assert_eq!(&err[..2], b"01");
    assert_eq!(decode_reply(&b"02".to_vec()), None);
}
