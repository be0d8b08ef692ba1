//! The privileged side of the transport: one blocking iteration of the run
//! loop, from an inbound record to an outbound one.
//!
//! The surrounding process reads one line, strips its terminator, hands the
//! record to [`ServerCore::handle_line`], writes the reply record and a
//! terminator back, and repeats while [`ServerCore::running`] holds.  A
//! record that does not decode is fatal to the whole daemon — the only
//! trusted peer never sends one — so `handle_line` returns nothing and the
//! process must stop without writing.

use vstd::prelude::*;

use crate::codec::{
    decode_command, encode_reply, spec_decode_command, spec_encode_reply, view_reply,
    ResponseModel,
};
use crate::protocol::{
    dispatch_command_to_method, spec_command_tag, spec_response_tag, Daemon, DaemonCommand,
};

verus! {

/// The operation tag of a response image.
pub open spec fn spec_model_tag(m: ResponseModel) -> nat {
    match m {
        ResponseModel::boards(..) => 0,
        ResponseModel::refresh => 1,
        ResponseModel::model(..) => 2,
        ResponseModel::keymap_get(..) => 3,
        ResponseModel::keymap_set => 4,
        ResponseModel::color(..) => 5,
        ResponseModel::set_color => 6,
        ResponseModel::max_brightness(..) => 7,
        ResponseModel::brightness(..) => 8,
        ResponseModel::set_brightness => 9,
        ResponseModel::exit => 10,
    }
}

/// The run-loop state of the privileged daemon: the board access it owns
/// and the flag the loop consults before reading the next command.
pub struct ServerCore<D: Daemon> {
    pub daemon: D,
    pub running: bool,
}

impl<D: Daemon> ServerCore<D> {
    pub fn new(daemon: D) -> (s: ServerCore<D>)
        ensures
            s.running,
    {
        ServerCore { daemon, running: true }
    }

    /// Process one inbound record: decode it, dispatch it, encode the
    /// reply.  An undecodable record yields `None` — fatal, nothing is
    /// written.  The `exit` command clears the run flag only after its own
    /// reply is produced, so the in-flight call still completes.
    pub fn handle_line(&mut self, line: &Vec<u8>) -> (out: Option<Vec<u8>>)
        ensures
            out is None <==> spec_decode_command(line@) is None,
            out is None ==> *final(self) == *old(self),
            spec_decode_command(line@) matches Some(c) ==> final(self).running == (old(
                self,
            ).running && !(c is exit)),
            out matches Some(o) ==> exists|rep: Result<ResponseModel, Seq<char>>|
                o@ == #[trigger] spec_encode_reply(rep) && (rep matches Ok(m)
                    ==> spec_model_tag(m) == spec_command_tag(
                    spec_decode_command(line@).unwrap(),
                )),
    {
        let command = match decode_command(line) {
            Some(c) => c,
            None => {
                return None;
            },
        };
        let is_exit = match &command {
            DaemonCommand::exit {  } => true,
            _ => false,
        };
        let reply = dispatch_command_to_method(&mut self.daemon, command);
        if is_exit {
            self.running = false;
        }
        let out = encode_reply(&reply);
        proof {
            let w = view_reply(reply);
            assert(out@ == spec_encode_reply(w));
            match w {
                Ok(m) => {
                    assert(spec_model_tag(m) == spec_response_tag(reply.unwrap()));
                },
                Err(_) => {},
            }
        }
        Some(out)
    }
}

} // verus!
