use keyboard_daemon::codec::{decode_reply, encode_command};
use keyboard_daemon::color::Rgb;
use keyboard_daemon::dummy::DaemonDummy;
use keyboard_daemon::protocol::{
    dispatch_command_to_method, Daemon, DaemonClientTrait, DaemonCommand, DaemonResponse,
};
use keyboard_daemon::server::ServerCore;
use keyboard_daemon::BoardId;

fn two_boards() -> DaemonDummy {
    DaemonDummy::new(vec!["launch_1".to_string(), "launch_2".to_string()])
}

#[test]
fn dummy_lists_its_boards() {
    let mut d = two_boards();
    assert_eq!(d.boards(), Ok(vec![BoardId(0), BoardId(1)]));
    assert!(d.is_fake());
}

#[test]
fn dummy_model() {
    let mut d = two_boards();
    assert_eq!(d.model(BoardId(1)), Ok("launch_2".to_string()));
    assert_eq!(d.model(BoardId(9)), Err("failed to find board".to_string()));
}

#[test]
fn dummy_keymap_set_then_get() {
    let mut d = two_boards();
    assert_eq!(d.keymap_get(BoardId(0), 1, 2, 3), Ok(0));
    assert_eq!(d.keymap_set(BoardId(0), 1, 2, 3, 0x29), Ok(()));
    assert_eq!(d.keymap_get(BoardId(0), 1, 2, 3), Ok(0x29));
    // The sibling board is untouched.
    assert_eq!(d.keymap_get(BoardId(1), 1, 2, 3), Ok(0));
    // Out-of-range positions are refused.
    assert!(d.keymap_get(BoardId(0), 2, 0, 0).is_err());
    assert!(d.keymap_set(BoardId(0), 0, 8, 0, 1).is_err());
}

#[test]
fn dummy_color_and_brightness() {
    let mut d = two_boards();
    assert_eq!(d.color(BoardId(0)), Ok(Rgb::new(0, 0, 0)));
    assert_eq!(d.set_color(BoardId(0), Rgb::new(255, 10, 0)), Ok(()));
    assert_eq!(d.color(BoardId(0)), Ok(Rgb::new(255, 10, 0)));
    assert_eq!(d.max_brightness(BoardId(0)), Ok(100));
    assert_eq!(d.brightness(BoardId(0)), Ok(0));
    assert_eq!(d.set_brightness(BoardId(0), 55), Ok(()));
    assert_eq!(d.brightness(BoardId(0)), Ok(55));
}

#[test]
fn set_color_on_unknown_board_fails_and_mutates_nothing() {
    let mut d = two_boards();
    let r = dispatch_command_to_method(
        &mut d,
        DaemonCommand::set_color {
            board: BoardId(42),
            color: Rgb::new(255, 0, 0),
        },
    );
    assert_eq!(r, Err("failed to find board".to_string()));
    assert_eq!(d.color(BoardId(0)), Ok(Rgb::new(0, 0, 0)));
    assert_eq!(d.color(BoardId(1)), Ok(Rgb::new(0, 0, 0)));
}

#[test]
fn dispatch_answers_with_the_matching_variant() {
    let mut d = two_boards();
    let r = dispatch_command_to_method(&mut d, DaemonCommand::boards {});
    assert_eq!(r, Ok(DaemonResponse::boards(vec![BoardId(0), BoardId(1)])));
    let r = dispatch_command_to_method(&mut d, DaemonCommand::model { board: BoardId(0) });
    assert_eq!(r, Ok(DaemonResponse::model("launch_1".to_string())));
    let r = dispatch_command_to_method(&mut d, DaemonCommand::refresh {});
    assert_eq!(r, Ok(DaemonResponse::refresh));
}

#[test]
fn server_replies_and_keeps_running() {
    let mut core = ServerCore::new(two_boards());
    assert!(core.running);
    let line = encode_command(&DaemonCommand::brightness { board: BoardId(0) });
    let reply = core.handle_line(&line).expect("a reply");
    assert_eq!(decode_reply(&reply), Some(Ok(DaemonResponse::brightness(0))));
    assert!(core.running);
}

#[test]
fn exit_answers_then_stops_the_loop() {
    let mut core = ServerCore::new(two_boards());
    let line = encode_command(&DaemonCommand::exit {});
    let reply = core.handle_line(&line).expect("a reply");
    assert_eq!(decode_reply(&reply), Some(Ok(DaemonResponse::exit)));
    assert!(!core.running);
}

#[test]
fn malformed_input_is_fatal_no_reply() {
    let mut core = ServerCore::new(two_boards());
    assert_eq!(core.handle_line(&b"zz".to_vec()), None);
    assert_eq!(core.handle_line(&Vec::new()), None);
    // The run flag is untouched; the surrounding process dies instead.
    assert!(core.running);
}

/// A loopback client: each sent command crosses the wire format to an
/// in-process server and its reply crosses back.
struct Loopback {
    core: ServerCore<DaemonDummy>,
}

impl DaemonClientTrait for Loopback {
    fn send_command(&mut self, command: DaemonCommand) -> Result<DaemonResponse, String> {
        let line = encode_command(&command);
        let reply = self.core.handle_line(&line).expect("client sent a valid record");
        decode_reply(&reply).expect("server wrote a valid record")
    }
}

#[test]
fn client_over_loopback_transport() {
    let mut client = Loopback { core: ServerCore::new(two_boards()) };
    assert_eq!(client.boards(), Ok(vec![BoardId(0), BoardId(1)]));
    assert_eq!(client.set_brightness(BoardId(1), 40), Ok(()));
    assert_eq!(client.brightness(BoardId(1)), Ok(40));
    assert_eq!(
        client.model(BoardId(3)),
        Err("failed to find board".to_string())
    );
    assert!(!client.is_fake());
}

/// A transport that always answers with the wrong variant.
struct Mismatching;

impl DaemonClientTrait for Mismatching {
    fn send_command(&mut self, _command: DaemonCommand) -> Result<DaemonResponse, String> {
        Ok(DaemonResponse::exit)
    }
}

#[test]
fn mismatched_response_tag_is_an_error() {
    let mut client = Mismatching;
    assert_eq!(
        client.boards(),
        Err("response does not match command".to_string())
    );
    // The matching variant still unwraps.
    assert_eq!(client.exit(), Ok(()));
}
