//! The command protocol: a closed set of request variants, the parallel
//! closed set of response variants, and the dispatch path between them.
//!
//! One pair of variants exists per hardware operation.  A command carries
//! exactly the arguments of its operation; the response of the same tag
//! carries exactly its success value.  Errors are never a response variant:
//! they travel in the `Result` wrapper around a response.

use vstd::prelude::*;

use crate::BoardId;
use crate::color::Rgb;

verus! {

/// A request from the unprivileged peer, one variant per operation.
#[allow(non_camel_case_types)]
#[derive(Debug, PartialEq, Eq)]
pub enum DaemonCommand {
    boards {},
    refresh {},
    model { board: BoardId },
    keymap_get { board: BoardId, layer: u8, output: u8, input: u8 },
    keymap_set { board: BoardId, layer: u8, output: u8, input: u8, value: u16 },
    color { board: BoardId },
    set_color { board: BoardId, color: Rgb },
    max_brightness { board: BoardId },
    brightness { board: BoardId },
    set_brightness { board: BoardId, brightness: i32 },
    exit {},
}

/// The success value of the operation with the same tag.
#[allow(non_camel_case_types)]
#[derive(Debug, PartialEq, Eq)]
pub enum DaemonResponse {
    boards(Vec<BoardId>),
    refresh,
    model(String),
    keymap_get(u16),
    keymap_set,
    color(Rgb),
    set_color,
    max_brightness(i32),
    brightness(i32),
    set_brightness,
    exit,
}

/// The operation tag of a command.
pub open spec fn spec_command_tag(c: DaemonCommand) -> nat {
    match c {
        DaemonCommand::boards { .. } => 0,
        DaemonCommand::refresh { .. } => 1,
        DaemonCommand::model { .. } => 2,
        DaemonCommand::keymap_get { .. } => 3,
        DaemonCommand::keymap_set { .. } => 4,
        DaemonCommand::color { .. } => 5,
        DaemonCommand::set_color { .. } => 6,
        DaemonCommand::max_brightness { .. } => 7,
        DaemonCommand::brightness { .. } => 8,
        DaemonCommand::set_brightness { .. } => 9,
        DaemonCommand::exit { .. } => 10,
    }
}

/// The operation tag of a response.
pub open spec fn spec_response_tag(r: DaemonResponse) -> nat {
    match r {
        DaemonResponse::boards(..) => 0,
        DaemonResponse::refresh => 1,
        DaemonResponse::model(..) => 2,
        DaemonResponse::keymap_get(..) => 3,
        DaemonResponse::keymap_set => 4,
        DaemonResponse::color(..) => 5,
        DaemonResponse::set_color => 6,
        DaemonResponse::max_brightness(..) => 7,
        DaemonResponse::brightness(..) => 8,
        DaemonResponse::set_brightness => 9,
        DaemonResponse::exit => 10,
    }
}

/// The capability surface of the privileged daemon: one method per
/// operation of the protocol.  Implemented by the in-memory board set, by
/// the hardware-backed server outside this crate, and — through
/// [`DaemonClientTrait`] — by any client that can send a command and await
/// its response.
pub trait Daemon {
    fn boards(&mut self) -> Result<Vec<BoardId>, String>;

    fn refresh(&mut self) -> Result<(), String>;

    fn model(&mut self, board: BoardId) -> Result<String, String>;

    fn keymap_get(&mut self, board: BoardId, layer: u8, output: u8, input: u8) -> Result<
        u16,
        String,
    >;

    fn keymap_set(
        &mut self,
        board: BoardId,
        layer: u8,
        output: u8,
        input: u8,
        value: u16,
    ) -> Result<(), String>;

    fn color(&mut self, board: BoardId) -> Result<Rgb, String>;

    fn set_color(&mut self, board: BoardId, color: Rgb) -> Result<(), String>;

    fn max_brightness(&mut self, board: BoardId) -> Result<i32, String>;

    fn brightness(&mut self, board: BoardId) -> Result<i32, String>;

    fn set_brightness(&mut self, board: BoardId, brightness: i32) -> Result<(), String>;

    fn exit(&mut self) -> Result<(), String>;

    fn is_fake(&self) -> bool;
}

/// A peer that reaches the daemon over a transport: it sends one command
/// and blocks for exactly one response.
pub trait DaemonClientTrait {
    fn send_command(&mut self, command: DaemonCommand) -> Result<DaemonResponse, String>;
}

/// The error reported when a transport hands back a response whose tag does
/// not match the command that was sent.  Such a pairing signals a corrupted
/// stream or a dispatcher bug; no retry can mend it.
pub fn mismatched_response_error() -> (r: String)
    ensures
        r@ == "response does not match command"@,
{
    "response does not match command".to_owned()
}

/// Route a command to the daemon method of the same operation and wrap the
/// result in the response variant of the same tag.  The match is exhaustive
/// over the closed command set, so an operation cannot be added partially.
pub fn dispatch_command_to_method<D: Daemon>(d: &mut D, command: DaemonCommand) -> (r: Result<
    DaemonResponse,
    String,
>)
    ensures
        r matches Ok(resp) ==> spec_response_tag(resp) == spec_command_tag(command),
{
    match command {
        DaemonCommand::boards {  } => match d.boards() {
            Ok(v) => Ok(DaemonResponse::boards(v)),
            Err(e) => Err(e),
        },
        DaemonCommand::refresh {  } => match d.refresh() {
            Ok(_) => Ok(DaemonResponse::refresh),
            Err(e) => Err(e),
        },
        DaemonCommand::model { board } => match d.model(board) {
            Ok(v) => Ok(DaemonResponse::model(v)),
            Err(e) => Err(e),
        },
        DaemonCommand::keymap_get { board, layer, output, input } => match d.keymap_get(
            board,
            layer,
            output,
            input,
        ) {
            Ok(v) => Ok(DaemonResponse::keymap_get(v)),
            Err(e) => Err(e),
        },
        DaemonCommand::keymap_set { board, layer, output, input, value } => match d.keymap_set(
            board,
            layer,
            output,
            input,
            value,
        ) {
            Ok(_) => Ok(DaemonResponse::keymap_set),
            Err(e) => Err(e),
        },
        DaemonCommand::color { board } => match d.color(board) {
            Ok(v) => Ok(DaemonResponse::color(v)),
            Err(e) => Err(e),
        },
        DaemonCommand::set_color { board, color } => match d.set_color(board, color) {
            Ok(_) => Ok(DaemonResponse::set_color),
            Err(e) => Err(e),
        },
        DaemonCommand::max_brightness { board } => match d.max_brightness(board) {
            Ok(v) => Ok(DaemonResponse::max_brightness(v)),
            Err(e) => Err(e),
        },
        DaemonCommand::brightness { board } => match d.brightness(board) {
            Ok(v) => Ok(DaemonResponse::brightness(v)),
            Err(e) => Err(e),
        },
        DaemonCommand::set_brightness { board, brightness } => match d.set_brightness(
            board,
            brightness,
        ) {
            Ok(_) => Ok(DaemonResponse::set_brightness),
            Err(e) => Err(e),
        },
        DaemonCommand::exit {  } => match d.exit() {
            Ok(_) => Ok(DaemonResponse::exit),
            Err(e) => Err(e),
        },
    }
}

/// Every transport client is a full daemon: each operation sends the
/// command of its tag and unwraps the response of the same tag.
impl<T: DaemonClientTrait> Daemon for T {
    fn boards(&mut self) -> Result<Vec<BoardId>, String> {
        match self.send_command(DaemonCommand::boards {  }) {
            Ok(DaemonResponse::boards(ret)) => Ok(ret),
            Ok(_) => Err(mismatched_response_error()),
            Err(err) => Err(err),
        }
    }

    fn refresh(&mut self) -> Result<(), String> {
        match self.send_command(DaemonCommand::refresh {  }) {
            Ok(DaemonResponse::refresh) => Ok(()),
            Ok(_) => Err(mismatched_response_error()),
            Err(err) => Err(err),
        }
    }

    fn model(&mut self, board: BoardId) -> Result<String, String> {
        match self.send_command(DaemonCommand::model { board }) {
            Ok(DaemonResponse::model(ret)) => Ok(ret),
            Ok(_) => Err(mismatched_response_error()),
            Err(err) => Err(err),
        }
    }

    fn keymap_get(&mut self, board: BoardId, layer: u8, output: u8, input: u8) -> Result<
        u16,
        String,
    > {
        match self.send_command(DaemonCommand::keymap_get { board, layer, output, input }) {
            Ok(DaemonResponse::keymap_get(ret)) => Ok(ret),
            Ok(_) => Err(mismatched_response_error()),
            Err(err) => Err(err),
        }
    }

    fn keymap_set(
        &mut self,
        board: BoardId,
        layer: u8,
        output: u8,
        input: u8,
        value: u16,
    ) -> Result<(), String> {
        match self.send_command(
            DaemonCommand::keymap_set { board, layer, output, input, value },
        ) {
            Ok(DaemonResponse::keymap_set) => Ok(()),
            Ok(_) => Err(mismatched_response_error()),
            Err(err) => Err(err),
        }
    }

    fn color(&mut self, board: BoardId) -> Result<Rgb, String> {
        match self.send_command(DaemonCommand::color { board }) {
            Ok(DaemonResponse::color(ret)) => Ok(ret),
            Ok(_) => Err(mismatched_response_error()),
            Err(err) => Err(err),
        }
    }

    fn set_color(&mut self, board: BoardId, color: Rgb) -> Result<(), String> {
        match self.send_command(DaemonCommand::set_color { board, color }) {
            Ok(DaemonResponse::set_color) => Ok(()),
            Ok(_) => Err(mismatched_response_error()),
            Err(err) => Err(err),
        }
    }

    fn max_brightness(&mut self, board: BoardId) -> Result<i32, String> {
        match self.send_command(DaemonCommand::max_brightness { board }) {
            Ok(DaemonResponse::max_brightness(ret)) => Ok(ret),
            Ok(_) => Err(mismatched_response_error()),
            Err(err) => Err(err),
        }
    }

    fn brightness(&mut self, board: BoardId) -> Result<i32, String> {
        match self.send_command(DaemonCommand::brightness { board }) {
            Ok(DaemonResponse::brightness(ret)) => Ok(ret),
            Ok(_) => Err(mismatched_response_error()),
            Err(err) => Err(err),
        }
    }

    fn set_brightness(&mut self, board: BoardId, brightness: i32) -> Result<(), String> {
        match self.send_command(DaemonCommand::set_brightness { board, brightness }) {
            Ok(DaemonResponse::set_brightness) => Ok(()),
            Ok(_) => Err(mismatched_response_error()),
            Err(err) => Err(err),
        }
    }

    fn exit(&mut self) -> Result<(), String> {
        match self.send_command(DaemonCommand::exit {  }) {
            Ok(DaemonResponse::exit) => Ok(()),
            Ok(_) => Err(mismatched_response_error()),
            Err(err) => Err(err),
        }
    }

    fn is_fake(&self) -> bool {
        false
    }
}

} // verus!
