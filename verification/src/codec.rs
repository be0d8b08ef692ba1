//! Wire codec for the command protocol.
//!
//! One newline-terminated record per message (the terminator itself is the
//! transport's concern and never part of a record).  A record is a tagged
//! sequence of fixed-width lowercase hex fields: two digits of operation
//! tag, then the fields of that operation.  Variable-sized payloads (the
//! board list, strings) carry a 16-digit count first, then their elements.
//! Board identifiers take 32 digits, bytes 2, 16-bit values 4, and 32-bit
//! values 8; a signed brightness travels as its 32 two's-complement bits.

use vstd::prelude::*;
use vstd::string::StrSliceExecFns;
use vstd::utf8::{decode_utf8, encode_utf8, valid_utf8};

use crate::BoardId;
use crate::color::Rgb;
use crate::hex::{
    lemma_parse_hex_bound, lemma_parse_hex_of_encode, lemma_pow16_values, parse_hex, pow16,
    push_hex, spec_encode_hex, spec_parse_hex,
};
use crate::protocol::{DaemonCommand, DaemonResponse};

verus! {

/// A board identifier encoded as 32 hex digits.
pub open spec fn spec_encode_board(b: BoardId) -> Seq<u8> {
    spec_encode_hex(b.0 as nat, 32)
}

/// A list of board identifiers, one 32-digit field each.
pub open spec fn spec_encode_ids(ids: Seq<BoardId>) -> Seq<u8>
    decreases ids.len(),
{
    if ids.len() == 0 {
        Seq::empty()
    } else {
        spec_encode_board(ids[0]) + spec_encode_ids(ids.drop_first())
    }
}

/// A byte string, two hex digits per byte.
pub open spec fn spec_encode_bytes(bs: Seq<u8>) -> Seq<u8>
    decreases bs.len(),
{
    if bs.len() == 0 {
        Seq::empty()
    } else {
        spec_encode_hex(bs[0] as nat, 2) + spec_encode_bytes(bs.drop_first())
    }
}

pub proof fn lemma_encode_ids_len(ids: Seq<BoardId>)
    ensures
        spec_encode_ids(ids).len() == 32 * ids.len(),
    decreases ids.len(),
{
    if ids.len() > 0 {
        lemma_encode_ids_len(ids.drop_first());
    }
}

pub proof fn lemma_encode_bytes_len(bs: Seq<u8>)
    ensures
        spec_encode_bytes(bs).len() == 2 * bs.len(),
    decreases bs.len(),
{
    if bs.len() > 0 {
        lemma_encode_bytes_len(bs.drop_first());
    }
}

/// Appending one identifier extends the encoding at its end.
proof fn lemma_encode_ids_snoc(ids: Seq<BoardId>, x: BoardId)
    ensures
        spec_encode_ids(ids.push(x)) =~= spec_encode_ids(ids) + spec_encode_board(x),
    decreases ids.len(),
{
    if ids.len() == 0 {
        assert(ids.push(x)[0] == x);
        let e = Seq::<BoardId>::empty();
        assert(ids.push(x).drop_first() =~= e);
        assert(ids =~= e);
        assert(spec_encode_ids(e) =~= Seq::<u8>::empty());
        assert(spec_encode_ids(ids.push(x)) =~= spec_encode_board(x) + spec_encode_ids(e));
        assert(spec_encode_board(x) + Seq::<u8>::empty() =~= spec_encode_board(x));
        assert(Seq::<u8>::empty() + spec_encode_board(x) =~= spec_encode_board(x));
    } else {
        assert(ids.push(x)[0] == ids[0]);
        assert(ids.push(x).drop_first() =~= ids.drop_first().push(x));
        lemma_encode_ids_snoc(ids.drop_first(), x);
        assert(spec_encode_ids(ids.push(x)) =~= spec_encode_board(ids[0]) + spec_encode_ids(
            ids.drop_first().push(x),
        ));
        assert(spec_encode_ids(ids) =~= spec_encode_board(ids[0]) + spec_encode_ids(
            ids.drop_first(),
        ));
        assert(spec_encode_board(ids[0]) + (spec_encode_ids(ids.drop_first())
            + spec_encode_board(x)) =~= (spec_encode_board(ids[0]) + spec_encode_ids(
            ids.drop_first(),
        )) + spec_encode_board(x));
    }
}

/// Appending one byte extends the encoding at its end.
proof fn lemma_encode_bytes_snoc(bs: Seq<u8>, x: u8)
    ensures
        spec_encode_bytes(bs.push(x)) =~= spec_encode_bytes(bs) + spec_encode_hex(x as nat, 2),
    decreases bs.len(),
{
    if bs.len() == 0 {
        assert(bs.push(x)[0] == x);
        let e = Seq::<u8>::empty();
        assert(bs.push(x).drop_first() =~= e);
        assert(bs =~= e);
        assert(spec_encode_bytes(e) =~= Seq::<u8>::empty());
        assert(spec_encode_bytes(bs.push(x)) =~= spec_encode_hex(x as nat, 2)
            + spec_encode_bytes(e));
        assert(spec_encode_hex(x as nat, 2) + Seq::<u8>::empty() =~= spec_encode_hex(x as nat, 2));
        assert(Seq::<u8>::empty() + spec_encode_hex(x as nat, 2) =~= spec_encode_hex(x as nat, 2));
    } else {
        assert(bs.push(x)[0] == bs[0]);
        assert(bs.push(x).drop_first() =~= bs.drop_first().push(x));
        lemma_encode_bytes_snoc(bs.drop_first(), x);
        assert(spec_encode_bytes(bs.push(x)) =~= spec_encode_hex(bs[0] as nat, 2)
            + spec_encode_bytes(bs.drop_first().push(x)));
        assert(spec_encode_bytes(bs) =~= spec_encode_hex(bs[0] as nat, 2) + spec_encode_bytes(
            bs.drop_first(),
        ));
        assert(spec_encode_hex(bs[0] as nat, 2) + (spec_encode_bytes(bs.drop_first())
            + spec_encode_hex(x as nat, 2)) =~= (spec_encode_hex(bs[0] as nat, 2)
            + spec_encode_bytes(bs.drop_first())) + spec_encode_hex(x as nat, 2));
    }
}

/// Reading `n` identifiers of 32 hex digits each from position `at`.
pub open spec fn spec_parse_ids(s: Seq<u8>, at: int, n: nat) -> Option<Seq<BoardId>>
    decreases n,
{
    if n == 0 {
        Some(Seq::empty())
    } else {
        match spec_parse_hex(s, at, 32) {
            None => None,
            Some(v) => match spec_parse_ids(s, at + 32, (n - 1) as nat) {
                None => None,
                Some(rest) => Some(seq![BoardId(v as u128)] + rest),
            },
        }
    }
}

/// Reading `n` bytes of two hex digits each from position `at`.
pub open spec fn spec_parse_bytes(s: Seq<u8>, at: int, n: nat) -> Option<Seq<u8>>
    decreases n,
{
    if n == 0 {
        Some(Seq::empty())
    } else {
        match spec_parse_hex(s, at, 2) {
            None => None,
            Some(v) => match spec_parse_bytes(s, at + 2, (n - 1) as nat) {
                None => None,
                Some(rest) => Some(seq![v as u8] + rest),
            },
        }
    }
}

/// Round trip for identifier lists.
proof fn lemma_parse_ids_of_encode(s: Seq<u8>, at: int, ids: Seq<BoardId>)
    requires
        0 <= at,
        at + 32 * ids.len() <= s.len(),
        s.subrange(at, at + 32 * ids.len()) =~= spec_encode_ids(ids),
    ensures
        spec_parse_ids(s, at, ids.len()) == Some(ids),
    decreases ids.len(),
{
    if ids.len() == 0 {
        assert(spec_parse_ids(s, at, 0) == Some(Seq::<BoardId>::empty()));
        assert(ids =~= Seq::<BoardId>::empty());
    } else {
        lemma_encode_ids_len(ids.drop_first());
        assert(s.subrange(at, at + 32) =~= spec_encode_board(ids[0])) by {
            assert forall|j: int| 0 <= j < 32 implies #[trigger] s.subrange(at, at + 32)[j]
                == spec_encode_board(ids[0])[j] by {
                assert(s.subrange(at, at + 32 * ids.len())[j] == s[at + j]);
            }
        }
        lemma_pow16_values();
        lemma_parse_hex_of_encode(s, at, ids[0].0 as nat, 32);
        assert(spec_parse_hex(s, at, 32) == Some(ids[0].0 as nat));
        assert(s.subrange(at + 32, at + 32 + 32 * ids.drop_first().len()) =~= spec_encode_ids(
            ids.drop_first(),
        )) by {
            assert forall|j: int| 0 <= j < 32 * ids.drop_first().len() implies #[trigger] s
                .subrange(at + 32, at + 32 + 32 * ids.drop_first().len())[j] == spec_encode_ids(
                ids.drop_first(),
            )[j] by {
                assert(s.subrange(at, at + 32 * ids.len())[32 + j] == s[at + 32 + j]);
                assert(spec_encode_ids(ids)[32 + j] == spec_encode_ids(ids.drop_first())[j]);
            }
        }
        lemma_parse_ids_of_encode(s, at + 32, ids.drop_first());
        assert(BoardId((ids[0].0 as nat) as u128) == ids[0]);
        assert(seq![ids[0]] + ids.drop_first() =~= ids);
    }
}

/// Round trip for byte strings.
proof fn lemma_parse_bytes_of_encode(s: Seq<u8>, at: int, bs: Seq<u8>)
    requires
        0 <= at,
        at + 2 * bs.len() <= s.len(),
        s.subrange(at, at + 2 * bs.len()) =~= spec_encode_bytes(bs),
    ensures
        spec_parse_bytes(s, at, bs.len()) == Some(bs),
    decreases bs.len(),
{
    if bs.len() == 0 {
        assert(spec_parse_bytes(s, at, 0) == Some(Seq::<u8>::empty()));
        assert(bs =~= Seq::<u8>::empty());
    } else {
        lemma_encode_bytes_len(bs.drop_first());
        assert(s.subrange(at, at + 2) =~= spec_encode_hex(bs[0] as nat, 2)) by {
            assert forall|j: int| 0 <= j < 2 implies #[trigger] s.subrange(at, at + 2)[j]
                == spec_encode_hex(bs[0] as nat, 2)[j] by {
                assert(s.subrange(at, at + 2 * bs.len())[j] == s[at + j]);
            }
        }
        lemma_pow16_values();
        lemma_parse_hex_of_encode(s, at, bs[0] as nat, 2);
        assert(s.subrange(at + 2, at + 2 + 2 * bs.drop_first().len()) =~= spec_encode_bytes(
            bs.drop_first(),
        )) by {
            assert forall|j: int| 0 <= j < 2 * bs.drop_first().len() implies #[trigger] s.subrange(
                at + 2,
                at + 2 + 2 * bs.drop_first().len(),
            )[j] == spec_encode_bytes(bs.drop_first())[j] by {
                assert(s.subrange(at, at + 2 * bs.len())[2 + j] == s[at + 2 + j]);
                assert(spec_encode_bytes(bs)[2 + j] == spec_encode_bytes(bs.drop_first())[j]);
            }
        }
        lemma_parse_bytes_of_encode(s, at + 2, bs.drop_first());
        assert(seq![bs[0]] + bs.drop_first() =~= bs);
    }
}

/// The wire form of a command: its tag, then its arguments in order.
pub open spec fn spec_encode_command(c: DaemonCommand) -> Seq<u8> {
    match c {
        DaemonCommand::boards {  } => spec_encode_hex(0, 2),
        DaemonCommand::refresh {  } => spec_encode_hex(1, 2),
        DaemonCommand::model { board } => spec_encode_hex(2, 2) + spec_encode_board(board),
        DaemonCommand::keymap_get { board, layer, output, input } => spec_encode_hex(3, 2)
            + spec_encode_board(board) + spec_encode_hex(layer as nat, 2) + spec_encode_hex(
            output as nat,
            2,
        ) + spec_encode_hex(input as nat, 2),
        DaemonCommand::keymap_set { board, layer, output, input, value } => spec_encode_hex(4, 2)
            + spec_encode_board(board) + spec_encode_hex(layer as nat, 2) + spec_encode_hex(
            output as nat,
            2,
        ) + spec_encode_hex(input as nat, 2) + spec_encode_hex(value as nat, 4),
        DaemonCommand::color { board } => spec_encode_hex(5, 2) + spec_encode_board(board),
        DaemonCommand::set_color { board, color } => spec_encode_hex(6, 2) + spec_encode_board(
            board,
        ) + spec_encode_hex(color.r as nat, 2) + spec_encode_hex(color.g as nat, 2)
            + spec_encode_hex(color.b as nat, 2),
        DaemonCommand::max_brightness { board } => spec_encode_hex(7, 2) + spec_encode_board(
            board,
        ),
        DaemonCommand::brightness { board } => spec_encode_hex(8, 2) + spec_encode_board(board),
        DaemonCommand::set_brightness { board, brightness } => spec_encode_hex(9, 2)
            + spec_encode_board(board) + spec_encode_hex((brightness as u32) as nat, 8),
        DaemonCommand::exit {  } => spec_encode_hex(10, 2),
    }
}

/// The command a record holds, if it is well formed down to its exact
/// length.
pub open spec fn spec_decode_command(s: Seq<u8>) -> Option<DaemonCommand> {
    match spec_parse_hex(s, 0, 2) {
        None => None,
        Some(tag) => if tag == 0 {
            if s.len() == 2 {
                Some(DaemonCommand::boards {  })
            } else {
                None
            }
        } else if tag == 1 {
            if s.len() == 2 {
                Some(DaemonCommand::refresh {  })
            } else {
                None
            }
        } else if tag == 2 {
            match spec_parse_hex(s, 2, 32) {
                None => None,
                Some(b) => if s.len() == 34 {
                    Some(DaemonCommand::model { board: BoardId(b as u128) })
                } else {
                    None
                },
            }
        } else if tag == 3 {
            match (
                spec_parse_hex(s, 2, 32),
                spec_parse_hex(s, 34, 2),
                spec_parse_hex(s, 36, 2),
                spec_parse_hex(s, 38, 2),
            ) {
                (Some(b), Some(l), Some(o), Some(i)) => if s.len() == 40 {
                    Some(
                        DaemonCommand::keymap_get {
                            board: BoardId(b as u128),
                            layer: l as u8,
                            output: o as u8,
                            input: i as u8,
                        },
                    )
                } else {
                    None
                },
                _ => None,
            }
        } else if tag == 4 {
            match (
                spec_parse_hex(s, 2, 32),
                spec_parse_hex(s, 34, 2),
                spec_parse_hex(s, 36, 2),
                spec_parse_hex(s, 38, 2),
                spec_parse_hex(s, 40, 4),
            ) {
                (Some(b), Some(l), Some(o), Some(i), Some(v)) => if s.len() == 44 {
                    Some(
                        DaemonCommand::keymap_set {
                            board: BoardId(b as u128),
                            layer: l as u8,
                            output: o as u8,
                            input: i as u8,
                            value: v as u16,
                        },
                    )
                } else {
                    None
                },
                _ => None,
            }
        } else if tag == 5 {
            match spec_parse_hex(s, 2, 32) {
                None => None,
                Some(b) => if s.len() == 34 {
                    Some(DaemonCommand::color { board: BoardId(b as u128) })
                } else {
                    None
                },
            }
        } else if tag == 6 {
            match (
                spec_parse_hex(s, 2, 32),
                spec_parse_hex(s, 34, 2),
                spec_parse_hex(s, 36, 2),
                spec_parse_hex(s, 38, 2),
            ) {
                (Some(b), Some(r), Some(g), Some(bl)) => if s.len() == 40 {
                    Some(
                        DaemonCommand::set_color {
                            board: BoardId(b as u128),
                            color: Rgb { r: r as u8, g: g as u8, b: bl as u8 },
                        },
                    )
                } else {
                    None
                },
                _ => None,
            }
        } else if tag == 7 {
            match spec_parse_hex(s, 2, 32) {
                None => None,
                Some(b) => if s.len() == 34 {
                    Some(DaemonCommand::max_brightness { board: BoardId(b as u128) })
                } else {
                    None
                },
            }
        } else if tag == 8 {
            match spec_parse_hex(s, 2, 32) {
                None => None,
                Some(b) => if s.len() == 34 {
                    Some(DaemonCommand::brightness { board: BoardId(b as u128) })
                } else {
                    None
                },
            }
        } else if tag == 9 {
            match (spec_parse_hex(s, 2, 32), spec_parse_hex(s, 34, 8)) {
                (Some(b), Some(v)) => if s.len() == 42 {
                    Some(
                        DaemonCommand::set_brightness {
                            board: BoardId(b as u128),
                            brightness: (v as u32) as i32,
                        },
                    )
                } else {
                    None
                },
                _ => None,
            }
        } else if tag == 10 {
            if s.len() == 2 {
                Some(DaemonCommand::exit {  })
            } else {
                None
            }
        } else {
            None
        },
    }
}

/// Encode a command as one wire record.
pub fn encode_command(c: &DaemonCommand) -> (out: Vec<u8>)
    ensures
        out@ =~= spec_encode_command(*c),
{
    proof {
        lemma_pow16_values();
    }
    let mut out: Vec<u8> = Vec::new();
    match c {
        DaemonCommand::boards {  } => {
            push_hex(&mut out, 0, 2);
        },
        DaemonCommand::refresh {  } => {
            push_hex(&mut out, 1, 2);
        },
        DaemonCommand::model { board } => {
            push_hex(&mut out, 2, 2);
            push_hex(&mut out, board.0, 32);
        },
        DaemonCommand::keymap_get { board, layer, output, input } => {
            push_hex(&mut out, 3, 2);
            push_hex(&mut out, board.0, 32);
            push_hex(&mut out, *layer as u128, 2);
            push_hex(&mut out, *output as u128, 2);
            push_hex(&mut out, *input as u128, 2);
        },
        DaemonCommand::keymap_set { board, layer, output, input, value } => {
            push_hex(&mut out, 4, 2);
            push_hex(&mut out, board.0, 32);
            push_hex(&mut out, *layer as u128, 2);
            push_hex(&mut out, *output as u128, 2);
            push_hex(&mut out, *input as u128, 2);
            push_hex(&mut out, *value as u128, 4);
        },
        DaemonCommand::color { board } => {
            push_hex(&mut out, 5, 2);
            push_hex(&mut out, board.0, 32);
        },
        DaemonCommand::set_color { board, color } => {
            push_hex(&mut out, 6, 2);
            push_hex(&mut out, board.0, 32);
            push_hex(&mut out, color.r as u128, 2);
            push_hex(&mut out, color.g as u128, 2);
            push_hex(&mut out, color.b as u128, 2);
        },
        DaemonCommand::max_brightness { board } => {
            push_hex(&mut out, 7, 2);
            push_hex(&mut out, board.0, 32);
        },
        DaemonCommand::brightness { board } => {
            push_hex(&mut out, 8, 2);
            push_hex(&mut out, board.0, 32);
        },
        DaemonCommand::set_brightness { board, brightness } => {
            push_hex(&mut out, 9, 2);
            push_hex(&mut out, board.0, 32);
            push_hex(&mut out, (*brightness as u32) as u128, 8);
        },
        DaemonCommand::exit {  } => {
            push_hex(&mut out, 10, 2);
        },
    }
    out
}

/// Decode one wire record as a command.
pub fn decode_command(line: &Vec<u8>) -> (r: Option<DaemonCommand>)
    ensures
        r == spec_decode_command(line@),
{
    let tag = match parse_hex(line, 0, 2) {
        Some(t) => t,
        None => {
            return None;
        },
    };
    if tag == 0 {
        if line.len() == 2 {
            Some(DaemonCommand::boards {  })
        } else {
            None
        }
    } else if tag == 1 {
        if line.len() == 2 {
            Some(DaemonCommand::refresh {  })
        } else {
            None
        }
    } else if tag == 2 || tag == 5 || tag == 7 || tag == 8 {
        let b = match parse_hex(line, 2, 32) {
            Some(b) => b,
            None => {
                return None;
            },
        };
        if line.len() != 34 {
            return None;
        }
        let board = BoardId(b);
        if tag == 2 {
            Some(DaemonCommand::model { board })
        } else if tag == 5 {
            Some(DaemonCommand::color { board })
        } else if tag == 7 {
            Some(DaemonCommand::max_brightness { board })
        } else {
            Some(DaemonCommand::brightness { board })
        }
    } else if tag == 3 {
        match (
            parse_hex(line, 2, 32),
            parse_hex(line, 34, 2),
            parse_hex(line, 36, 2),
            parse_hex(line, 38, 2),
        ) {
            (Some(b), Some(l), Some(o), Some(i)) => if line.len() == 40 {
                Some(
                    DaemonCommand::keymap_get {
                        board: BoardId(b),
                        layer: l as u8,
                        output: o as u8,
                        input: i as u8,
                    },
                )
            } else {
                None
            },
            _ => None,
        }
    } else if tag == 4 {
        match (
            parse_hex(line, 2, 32),
            parse_hex(line, 34, 2),
            parse_hex(line, 36, 2),
            parse_hex(line, 38, 2),
            parse_hex(line, 40, 4),
        ) {
            (Some(b), Some(l), Some(o), Some(i), Some(v)) => if line.len() == 44 {
                Some(
                    DaemonCommand::keymap_set {
                        board: BoardId(b),
                        layer: l as u8,
                        output: o as u8,
                        input: i as u8,
                        value: v as u16,
                    },
                )
            } else {
                None
            },
            _ => None,
        }
    } else if tag == 6 {
        match (
            parse_hex(line, 2, 32),
            parse_hex(line, 34, 2),
            parse_hex(line, 36, 2),
            parse_hex(line, 38, 2),
        ) {
            (Some(b), Some(r), Some(g), Some(bl)) => if line.len() == 40 {
                Some(
                    DaemonCommand::set_color {
                        board: BoardId(b),
                        color: Rgb { r: r as u8, g: g as u8, b: bl as u8 },
                    },
                )
            } else {
                None
            },
            _ => None,
        }
    } else if tag == 9 {
        match (parse_hex(line, 2, 32), parse_hex(line, 34, 8)) {
            (Some(b), Some(v)) => if line.len() == 42 {
                Some(
                    DaemonCommand::set_brightness {
                        board: BoardId(b),
                        brightness: (v as u32) as i32,
                    },
                )
            } else {
                None
            },
            _ => None,
        }
    } else if tag == 10 {
        if line.len() == 2 {
            Some(DaemonCommand::exit {  })
        } else {
            None
        }
    } else {
        None
    }
}

/// One field of an encoded record parses back to its value: the field
/// starting at `at` with width `w` inside a record that is a concatenation
/// of encoded fields.
proof fn lemma_field(s: Seq<u8>, at: int, v: nat, w: nat, field: Seq<u8>)
    requires
        v < pow16(w),
        0 <= at,
        at + w <= s.len(),
        field =~= spec_encode_hex(v, w),
        forall|j: int| 0 <= j < w ==> #[trigger] s[at + j] == field[j],
    ensures
        spec_parse_hex(s, at, w) == Some(v),
{
    assert(s.subrange(at, at + w) =~= spec_encode_hex(v, w)) by {
        assert(forall|j: int|
            0 <= j < w ==> #[trigger] s.subrange(at, at + w)[j] == s[at + j]);
    }
    lemma_parse_hex_of_encode(s, at, v, w);
}

/// Round trip: a command's record decodes back to the same command.
pub proof fn lemma_command_round_trip(c: DaemonCommand)
    ensures
        spec_decode_command(spec_encode_command(c)) == Some(c),
{
    lemma_pow16_values();
    let s = spec_encode_command(c);
    match c {
        DaemonCommand::boards {  } => {
            lemma_field(s, 0, 0, 2, spec_encode_hex(0, 2));
        },
        DaemonCommand::refresh {  } => {
            lemma_field(s, 0, 1, 2, spec_encode_hex(1, 2));
        },
        DaemonCommand::model { board } => {
            lemma_field(s, 0, 2, 2, spec_encode_hex(2, 2));
            lemma_field(s, 2, board.0 as nat, 32, spec_encode_board(board));
        },
        DaemonCommand::keymap_get { board, layer, output, input } => {
            lemma_field(s, 0, 3, 2, spec_encode_hex(3, 2));
            lemma_field(s, 2, board.0 as nat, 32, spec_encode_board(board));
            lemma_field(s, 34, layer as nat, 2, spec_encode_hex(layer as nat, 2));
            lemma_field(s, 36, output as nat, 2, spec_encode_hex(output as nat, 2));
            lemma_field(s, 38, input as nat, 2, spec_encode_hex(input as nat, 2));
        },
        DaemonCommand::keymap_set { board, layer, output, input, value } => {
            lemma_field(s, 0, 4, 2, spec_encode_hex(4, 2));
            lemma_field(s, 2, board.0 as nat, 32, spec_encode_board(board));
            lemma_field(s, 34, layer as nat, 2, spec_encode_hex(layer as nat, 2));
            lemma_field(s, 36, output as nat, 2, spec_encode_hex(output as nat, 2));
            lemma_field(s, 38, input as nat, 2, spec_encode_hex(input as nat, 2));
            lemma_field(s, 40, value as nat, 4, spec_encode_hex(value as nat, 4));
        },
        DaemonCommand::color { board } => {
            lemma_field(s, 0, 5, 2, spec_encode_hex(5, 2));
            lemma_field(s, 2, board.0 as nat, 32, spec_encode_board(board));
        },
        DaemonCommand::set_color { board, color } => {
            lemma_field(s, 0, 6, 2, spec_encode_hex(6, 2));
            lemma_field(s, 2, board.0 as nat, 32, spec_encode_board(board));
            lemma_field(s, 34, color.r as nat, 2, spec_encode_hex(color.r as nat, 2));
            lemma_field(s, 36, color.g as nat, 2, spec_encode_hex(color.g as nat, 2));
            lemma_field(s, 38, color.b as nat, 2, spec_encode_hex(color.b as nat, 2));
        },
        DaemonCommand::max_brightness { board } => {
            lemma_field(s, 0, 7, 2, spec_encode_hex(7, 2));
            lemma_field(s, 2, board.0 as nat, 32, spec_encode_board(board));
        },
        DaemonCommand::brightness { board } => {
            lemma_field(s, 0, 8, 2, spec_encode_hex(8, 2));
            lemma_field(s, 2, board.0 as nat, 32, spec_encode_board(board));
        },
        DaemonCommand::set_brightness { board, brightness } => {
            lemma_field(s, 0, 9, 2, spec_encode_hex(9, 2));
            lemma_field(s, 2, board.0 as nat, 32, spec_encode_board(board));
            lemma_field(
                s,
                34,
                (brightness as u32) as nat,
                8,
                spec_encode_hex((brightness as u32) as nat, 8),
            );
            assert(((brightness as u32) as nat as u32) as i32 == brightness) by (bit_vector);
        },
        DaemonCommand::exit {  } => {
            lemma_field(s, 0, 10, 2, spec_encode_hex(10, 2));
        },
    }
}

/// What a response says, stripped of its containers: the mathematical
/// image that contracts and the round-trip law speak of.
#[allow(non_camel_case_types)]
pub enum ResponseModel {
    boards(Seq<BoardId>),
    refresh,
    model(Seq<char>),
    keymap_get(u16),
    keymap_set,
    color(Rgb),
    set_color,
    max_brightness(i32),
    brightness(i32),
    set_brightness,
    exit,
}

/// The image of an executable response.
pub open spec fn view_response(r: DaemonResponse) -> ResponseModel {
    match r {
        DaemonResponse::boards(v) => ResponseModel::boards(v@),
        DaemonResponse::refresh => ResponseModel::refresh,
        DaemonResponse::model(s) => ResponseModel::model(s@),
        DaemonResponse::keymap_get(v) => ResponseModel::keymap_get(v),
        DaemonResponse::keymap_set => ResponseModel::keymap_set,
        DaemonResponse::color(c) => ResponseModel::color(c),
        DaemonResponse::set_color => ResponseModel::set_color,
        DaemonResponse::max_brightness(v) => ResponseModel::max_brightness(v),
        DaemonResponse::brightness(v) => ResponseModel::brightness(v),
        DaemonResponse::set_brightness => ResponseModel::set_brightness,
        DaemonResponse::exit => ResponseModel::exit,
    }
}

/// The image of a call result: a response image, or an error's characters.
pub open spec fn view_reply(r: Result<DaemonResponse, String>) -> Result<ResponseModel, Seq<char>> {
    match r {
        Ok(resp) => Ok(view_response(resp)),
        Err(e) => Err(e@),
    }
}

/// The counts a record can carry: list lengths and string byte lengths
/// travel as 16 hex digits.
pub open spec fn spec_count_fits(n: nat) -> bool {
    n < pow16(16)
}

/// Whether a response image can be put on the wire at all: its variable
/// payloads fit their count fields.  Every value built by this process
/// satisfies it; only a mathematical adversary does not.
pub open spec fn spec_response_fits(m: ResponseModel) -> bool {
    match m {
        ResponseModel::boards(ids) => spec_count_fits(ids.len()),
        ResponseModel::model(cs) => spec_count_fits(encode_utf8(cs).len()),
        _ => true,
    }
}

/// The wire form of a response: its tag, then its success value.
pub open spec fn spec_encode_response(m: ResponseModel) -> Seq<u8> {
    match m {
        ResponseModel::boards(ids) => spec_encode_hex(0, 2) + spec_encode_hex(ids.len(), 16)
            + spec_encode_ids(ids),
        ResponseModel::refresh => spec_encode_hex(1, 2),
        ResponseModel::model(cs) => spec_encode_hex(2, 2) + spec_encode_hex(
            encode_utf8(cs).len(),
            16,
        ) + spec_encode_bytes(encode_utf8(cs)),
        ResponseModel::keymap_get(v) => spec_encode_hex(3, 2) + spec_encode_hex(v as nat, 4),
        ResponseModel::keymap_set => spec_encode_hex(4, 2),
        ResponseModel::color(c) => spec_encode_hex(5, 2) + spec_encode_hex(c.r as nat, 2)
            + spec_encode_hex(c.g as nat, 2) + spec_encode_hex(c.b as nat, 2),
        ResponseModel::set_color => spec_encode_hex(6, 2),
        ResponseModel::max_brightness(v) => spec_encode_hex(7, 2) + spec_encode_hex(
            (v as u32) as nat,
            8,
        ),
        ResponseModel::brightness(v) => spec_encode_hex(8, 2) + spec_encode_hex(
            (v as u32) as nat,
            8,
        ),
        ResponseModel::set_brightness => spec_encode_hex(9, 2),
        ResponseModel::exit => spec_encode_hex(10, 2),
    }
}

/// The response image a record holds, if it is well formed down to its
/// exact length and, for a string payload, valid UTF-8.
pub open spec fn spec_decode_response(s: Seq<u8>) -> Option<ResponseModel> {
    match spec_parse_hex(s, 0, 2) {
        None => None,
        Some(tag) => if tag == 0 {
            match spec_parse_hex(s, 2, 16) {
                None => None,
                Some(n) => if s.len() == 18 + 32 * n {
                    match spec_parse_ids(s, 18, n) {
                        None => None,
                        Some(ids) => Some(ResponseModel::boards(ids)),
                    }
                } else {
                    None
                },
            }
        } else if tag == 1 {
            if s.len() == 2 {
                Some(ResponseModel::refresh)
            } else {
                None
            }
        } else if tag == 2 {
            match spec_parse_hex(s, 2, 16) {
                None => None,
                Some(n) => if s.len() == 18 + 2 * n {
                    match spec_parse_bytes(s, 18, n) {
                        None => None,
                        Some(bs) => if valid_utf8(bs) {
                            Some(ResponseModel::model(decode_utf8(bs)))
                        } else {
                            None
                        },
                    }
                } else {
                    None
                },
            }
        } else if tag == 3 {
            match spec_parse_hex(s, 2, 4) {
                None => None,
                Some(v) => if s.len() == 6 {
                    Some(ResponseModel::keymap_get(v as u16))
                } else {
                    None
                },
            }
        } else if tag == 4 {
            if s.len() == 2 {
                Some(ResponseModel::keymap_set)
            } else {
                None
            }
        } else if tag == 5 {
            match (spec_parse_hex(s, 2, 2), spec_parse_hex(s, 4, 2), spec_parse_hex(s, 6, 2)) {
                (Some(r), Some(g), Some(b)) => if s.len() == 8 {
                    Some(ResponseModel::color(Rgb { r: r as u8, g: g as u8, b: b as u8 }))
                } else {
                    None
                },
                _ => None,
            }
        } else if tag == 6 {
            if s.len() == 2 {
                Some(ResponseModel::set_color)
            } else {
                None
            }
        } else if tag == 7 {
            match spec_parse_hex(s, 2, 8) {
                None => None,
                Some(v) => if s.len() == 10 {
                    Some(ResponseModel::max_brightness((v as u32) as i32))
                } else {
                    None
                },
            }
        } else if tag == 8 {
            match spec_parse_hex(s, 2, 8) {
                None => None,
                Some(v) => if s.len() == 10 {
                    Some(ResponseModel::brightness((v as u32) as i32))
                } else {
                    None
                },
            }
        } else if tag == 9 {
            if s.len() == 2 {
                Some(ResponseModel::set_brightness)
            } else {
                None
            }
        } else if tag == 10 {
            if s.len() == 2 {
                Some(ResponseModel::exit)
            } else {
                None
            }
        } else {
            None
        },
    }
}

/// Encode a response as one wire record.
pub fn encode_response(resp: &DaemonResponse) -> (out: Vec<u8>)
    ensures
        out@ =~= spec_encode_response(view_response(*resp)),
{
    proof {
        lemma_pow16_values();
    }
    let mut out: Vec<u8> = Vec::new();
    match resp {
        DaemonResponse::boards(ids) => {
            push_hex(&mut out, 0, 2);
            let n_ids: usize = ids.len();
            proof {
                assert(n_ids as nat == ids@.len());
                assert((n_ids as nat) < pow16(16));
            }
            push_hex(&mut out, n_ids as u128, 16);
            let ghost head = out@;
            let mut i: usize = 0;
            while i < ids.len()
                invariant
                    i <= ids@.len(),
                    ids@.len() < pow16(16),
                    out@ =~= head + spec_encode_ids(ids@.take(i as int)),
                decreases ids@.len() - i,
            {
                proof {
                    lemma_pow16_values();
                }
                push_hex(&mut out, ids[i].0, 32);
                proof {
                    lemma_encode_ids_snoc(ids@.take(i as int), ids@[i as int]);
                    assert(ids@.take(i + 1) =~= ids@.take(i as int).push(ids@[i as int]));
                }
                i = i + 1;
            }
            assert(ids@.take(ids@.len() as int) =~= ids@);
        },
        DaemonResponse::refresh => {
            push_hex(&mut out, 1, 2);
        },
        DaemonResponse::model(s) => {
            push_hex(&mut out, 2, 2);
            let bytes = s.as_str().as_bytes_vec();
            let n_bytes: usize = bytes.len();
            proof {
                assert((n_bytes as nat) < pow16(16));
            }
            push_hex(&mut out, n_bytes as u128, 16);
            let ghost head = out@;
            let mut i: usize = 0;
            while i < bytes.len()
                invariant
                    i <= bytes@.len(),
                    out@ =~= head + spec_encode_bytes(bytes@.take(i as int)),
                decreases bytes@.len() - i,
            {
                proof {
                    lemma_pow16_values();
                }
                push_hex(&mut out, bytes[i] as u128, 2);
                proof {
                    lemma_encode_bytes_snoc(bytes@.take(i as int), bytes@[i as int]);
                    assert(bytes@.take(i + 1) =~= bytes@.take(i as int).push(bytes@[i as int]));
                }
                i = i + 1;
            }
            assert(bytes@.take(bytes@.len() as int) =~= bytes@);
        },
        DaemonResponse::keymap_get(v) => {
            push_hex(&mut out, 3, 2);
            push_hex(&mut out, *v as u128, 4);
        },
        DaemonResponse::keymap_set => {
            push_hex(&mut out, 4, 2);
        },
        DaemonResponse::color(c) => {
            push_hex(&mut out, 5, 2);
            push_hex(&mut out, c.r as u128, 2);
            push_hex(&mut out, c.g as u128, 2);
            push_hex(&mut out, c.b as u128, 2);
        },
        DaemonResponse::set_color => {
            push_hex(&mut out, 6, 2);
        },
        DaemonResponse::max_brightness(v) => {
            push_hex(&mut out, 7, 2);
            push_hex(&mut out, (*v as u32) as u128, 8);
        },
        DaemonResponse::brightness(v) => {
            push_hex(&mut out, 8, 2);
            push_hex(&mut out, (*v as u32) as u128, 8);
        },
        DaemonResponse::set_brightness => {
            push_hex(&mut out, 9, 2);
        },
        DaemonResponse::exit => {
            push_hex(&mut out, 10, 2);
        },
    }
    out
}

/// Relies on `String::from_utf8`: it returns `Ok` exactly when the bytes
/// are valid UTF-8, and the string then holds exactly those bytes.
#[verifier::external_body]
fn bytes_to_string(v: Vec<u8>) -> (r: Option<String>)
    ensures
        r matches Some(s) ==> valid_utf8(v@) && s@ == decode_utf8(v@),
        r is None ==> !valid_utf8(v@),
{
    String::from_utf8(v).ok()
}

/// Join a sequence prefix onto the result of parsing the rest.
pub open spec fn spec_prepend_ids(a: Seq<BoardId>, o: Option<Seq<BoardId>>) -> Option<
    Seq<BoardId>,
> {
    match o {
        None => None,
        Some(r) => Some(a + r),
    }
}

pub open spec fn spec_prepend_bytes(a: Seq<u8>, o: Option<Seq<u8>>) -> Option<Seq<u8>> {
    match o {
        None => None,
        Some(r) => Some(a + r),
    }
}

/// Read `n` board identifiers from position `at`.
fn parse_ids(line: &Vec<u8>, at: usize, n: usize) -> (r: Option<Vec<BoardId>>)
    requires
        at + 32 * n <= line@.len(),
    ensures
        match r {
            Some(ids) => spec_parse_ids(line@, at as int, n as nat) == Some(ids@),
            None => spec_parse_ids(line@, at as int, n as nat) is None,
        },
{
    let len: usize = line.len();
    let mut acc: Vec<BoardId> = Vec::new();
    let mut i: usize = 0;
    while i < n
        invariant
            i <= n,
            len == line@.len(),
            at + 32 * n <= len,
            acc@.len() == i,
            spec_parse_ids(line@, at as int, n as nat) == spec_prepend_ids(
                acc@,
                spec_parse_ids(line@, at + 32 * i, (n - i) as nat),
            ),
        decreases n - i,
    {
        let cur: usize = at + 32 * i;
        match parse_hex(line, cur, 32) {
            None => {
                return None;
            },
            Some(v) => {
                let ghost rest = spec_parse_ids(line@, cur + 32, (n - i - 1) as nat);
                proof {
                    if rest is Some {
                        assert(acc@ + (seq![BoardId(v)] + rest.unwrap()) =~= acc@.push(
                            BoardId(v),
                        ) + rest.unwrap());
                    }
                }
                acc.push(BoardId(v));
            },
        }
        i = i + 1;
    }
    proof {
        assert(spec_parse_ids(line@, at + 32 * i, 0) == Some(Seq::<BoardId>::empty()));
        assert(acc@ + Seq::<BoardId>::empty() =~= acc@);
    }
    Some(acc)
}

/// Read `n` bytes of two hex digits each from position `at`.
fn parse_byte_run(line: &Vec<u8>, at: usize, n: usize) -> (r: Option<Vec<u8>>)
    requires
        at + 2 * n <= line@.len(),
    ensures
        match r {
            Some(bs) => spec_parse_bytes(line@, at as int, n as nat) == Some(bs@),
            None => spec_parse_bytes(line@, at as int, n as nat) is None,
        },
{
    let len: usize = line.len();
    let mut acc: Vec<u8> = Vec::new();
    let mut i: usize = 0;
    while i < n
        invariant
            i <= n,
            len == line@.len(),
            at + 2 * n <= len,
            acc@.len() == i,
            spec_parse_bytes(line@, at as int, n as nat) == spec_prepend_bytes(
                acc@,
                spec_parse_bytes(line@, at + 2 * i, (n - i) as nat),
            ),
        decreases n - i,
    {
        let cur: usize = at + 2 * i;
        match parse_hex(line, cur, 2) {
            None => {
                return None;
            },
            Some(v) => {
                proof {
                    lemma_pow16_values();
                    lemma_parse_hex_bound(line@, cur as int, 2);
                }
                let ghost rest = spec_parse_bytes(line@, cur + 2, (n - i - 1) as nat);
                proof {
                    if rest is Some {
                        assert(acc@ + (seq![(v as u8)] + rest.unwrap()) =~= acc@.push(v as u8)
                            + rest.unwrap());
                    }
                }
                acc.push(v as u8);
            },
        }
        i = i + 1;
    }
    proof {
        assert(spec_parse_bytes(line@, at + 2 * i, 0) == Some(Seq::<u8>::empty()));
        assert(acc@ + Seq::<u8>::empty() =~= acc@);
    }
    Some(acc)
}

/// Decode one wire record as a response.
pub fn decode_response(line: &Vec<u8>) -> (r: Option<DaemonResponse>)
    ensures
        match r {
            Some(resp) => spec_decode_response(line@) == Some(view_response(resp)),
            None => spec_decode_response(line@) is None,
        },
{
    let tag = match parse_hex(line, 0, 2) {
        Some(t) => t,
        None => {
            return None;
        },
    };
    if tag == 0 {
        let n = match parse_hex(line, 2, 16) {
            Some(n) => n,
            None => {
                return None;
            },
        };
        proof {
            lemma_pow16_values();
            lemma_parse_hex_bound(line@, 2, 16);
        }
        let len: usize = line.len();
        if (len as u128) != 18 + 32 * n {
            return None;
        }
        proof {
            assert(n <= len as u128);
        }
        let n: usize = n as usize;
        match parse_ids(line, 18, n) {
            Some(ids) => Some(DaemonResponse::boards(ids)),
            None => None,
        }
    } else if tag == 1 {
        if line.len() == 2 {
            Some(DaemonResponse::refresh)
        } else {
            None
        }
    } else if tag == 2 {
        let n = match parse_hex(line, 2, 16) {
            Some(n) => n,
            None => {
                return None;
            },
        };
        proof {
            lemma_pow16_values();
            lemma_parse_hex_bound(line@, 2, 16);
        }
        let len: usize = line.len();
        if (len as u128) != 18 + 2 * n {
            return None;
        }
        proof {
            assert(n <= len as u128);
        }
        let n: usize = n as usize;
        match parse_byte_run(line, 18, n) {
            Some(bs) => match bytes_to_string(bs) {
                Some(s) => Some(DaemonResponse::model(s)),
                None => None,
            },
            None => None,
        }
    } else if tag == 3 {
        match parse_hex(line, 2, 4) {
            Some(v) => if line.len() == 6 {
                Some(DaemonResponse::keymap_get(v as u16))
            } else {
                None
            },
            None => None,
        }
    } else if tag == 4 {
        if line.len() == 2 {
            Some(DaemonResponse::keymap_set)
        } else {
            None
        }
    } else if tag == 5 {
        match (parse_hex(line, 2, 2), parse_hex(line, 4, 2), parse_hex(line, 6, 2)) {
            (Some(r), Some(g), Some(b)) => if line.len() == 8 {
                Some(DaemonResponse::color(Rgb { r: r as u8, g: g as u8, b: b as u8 }))
            } else {
                None
            },
            _ => None,
        }
    } else if tag == 6 {
        if line.len() == 2 {
            Some(DaemonResponse::set_color)
        } else {
            None
        }
    } else if tag == 7 {
        match parse_hex(line, 2, 8) {
            Some(v) => if line.len() == 10 {
                Some(DaemonResponse::max_brightness((v as u32) as i32))
            } else {
                None
            },
            None => None,
        }
    } else if tag == 8 {
        match parse_hex(line, 2, 8) {
            Some(v) => if line.len() == 10 {
                Some(DaemonResponse::brightness((v as u32) as i32))
            } else {
                None
            },
            None => None,
        }
    } else if tag == 9 {
        if line.len() == 2 {
            Some(DaemonResponse::set_brightness)
        } else {
            None
        }
    } else if tag == 10 {
        if line.len() == 2 {
            Some(DaemonResponse::exit)
        } else {
            None
        }
    } else {
        None
    }
}

/// Canonicity for identifier lists: the bytes a successful parse consumed
/// are exactly the encoding of the identifiers it produced.
proof fn lemma_parse_ids_canonical(s: Seq<u8>, at: int, n: nat)
    requires
        0 <= at,
        spec_parse_ids(s, at, n) is Some,
    ensures
        n > 0 ==> at + 32 * n <= s.len(),
        spec_parse_ids(s, at, n).unwrap().len() == n,
        at + 32 * n <= s.len() ==> s.subrange(at, at + 32 * n) =~= spec_encode_ids(
            spec_parse_ids(s, at, n).unwrap(),
        ),
    decreases n,
{
    lemma_pow16_values();
    if n == 0 {
        if at <= s.len() {
            assert(s.subrange(at, at) =~= spec_encode_ids(Seq::<BoardId>::empty()));
        }
    } else {
        let v = spec_parse_hex(s, at, 32).unwrap();
        lemma_parse_hex_bound(s, at, 32);
        crate::hex::lemma_parse_hex_canonical(s, at, 32);
        lemma_parse_ids_canonical(s, at + 32, (n - 1) as nat);
        let rest = spec_parse_ids(s, at + 32, (n - 1) as nat).unwrap();
        let ids = spec_parse_ids(s, at, n).unwrap();
        assert(ids == seq![BoardId(v as u128)] + rest);
        assert(ids[0] == BoardId(v as u128));
        assert(ids.drop_first() =~= rest);
        assert((v as u128) as nat == v);
        lemma_encode_ids_len(rest);
        if at + 32 * n <= s.len() {
            assert(s.subrange(at, at + 32 * n) =~= spec_encode_ids(ids)) by {
                assert(spec_encode_ids(ids) =~= spec_encode_hex(v, 32) + spec_encode_ids(rest));
                assert forall|j: int| 0 <= j < 32 * n implies #[trigger] s.subrange(
                    at,
                    at + 32 * n,
                )[j] == spec_encode_ids(ids)[j] by {
                    if j < 32 {
                        assert(s.subrange(at, at + 32)[j] == s[at + j]);
                    } else {
                        assert(s.subrange(at + 32, at + 32 + 32 * (n - 1))[j - 32] == s[at + j]);
                    }
                }
            }
        }
    }
}

/// Canonicity for byte strings.
proof fn lemma_parse_bytes_canonical(s: Seq<u8>, at: int, n: nat)
    requires
        0 <= at,
        spec_parse_bytes(s, at, n) is Some,
    ensures
        n > 0 ==> at + 2 * n <= s.len(),
        spec_parse_bytes(s, at, n).unwrap().len() == n,
        at + 2 * n <= s.len() ==> s.subrange(at, at + 2 * n) =~= spec_encode_bytes(
            spec_parse_bytes(s, at, n).unwrap(),
        ),
    decreases n,
{
    lemma_pow16_values();
    if n == 0 {
        if at <= s.len() {
            assert(s.subrange(at, at) =~= spec_encode_bytes(Seq::<u8>::empty()));
        }
    } else {
        let v = spec_parse_hex(s, at, 2).unwrap();
        lemma_parse_hex_bound(s, at, 2);
        crate::hex::lemma_parse_hex_canonical(s, at, 2);
        lemma_parse_bytes_canonical(s, at + 2, (n - 1) as nat);
        let rest = spec_parse_bytes(s, at + 2, (n - 1) as nat).unwrap();
        let bs = spec_parse_bytes(s, at, n).unwrap();
        assert(bs == seq![(v as u8)] + rest);
        assert(bs[0] == v as u8);
        assert(bs.drop_first() =~= rest);
        assert((v as u8) as nat == v);
        lemma_encode_bytes_len(rest);
        if at + 2 * n <= s.len() {
            assert(s.subrange(at, at + 2 * n) =~= spec_encode_bytes(bs)) by {
                assert(spec_encode_bytes(bs) =~= spec_encode_hex(v, 2) + spec_encode_bytes(rest));
                assert forall|j: int| 0 <= j < 2 * n implies #[trigger] s.subrange(
                    at,
                    at + 2 * n,
                )[j] == spec_encode_bytes(bs)[j] by {
                    if j < 2 {
                        assert(s.subrange(at, at + 2)[j] == s[at + j]);
                    } else {
                        assert(s.subrange(at + 2, at + 2 + 2 * (n - 1))[j - 2] == s[at + j]);
                    }
                }
            }
        }
    }
}

/// Canonicity: a record that decodes is the encoding of the response image
/// it decodes to.
pub proof fn lemma_decode_response_canonical(s: Seq<u8>)
    requires
        spec_decode_response(s) is Some,
    ensures
        spec_encode_response(spec_decode_response(s).unwrap()) =~= s,
{
    lemma_pow16_values();
    let tag = spec_parse_hex(s, 0, 2).unwrap();
    lemma_parse_hex_bound(s, 0, 2);
    crate::hex::lemma_parse_hex_canonical(s, 0, 2);
    let m = spec_decode_response(s).unwrap();
    if tag == 1 || tag == 4 || tag == 6 || tag == 9 || tag == 10 {
        assert(s.len() == 2);
        assert(spec_encode_response(m) =~= s) by {
            assert(s.subrange(0, 2) =~= s);
        }
    } else if tag == 0 {
        let n = spec_parse_hex(s, 2, 16).unwrap();
        lemma_parse_hex_bound(s, 2, 16);
        crate::hex::lemma_parse_hex_canonical(s, 2, 16);
        let ids = spec_parse_ids(s, 18, n).unwrap();
        lemma_parse_ids_canonical(s, 18, n);
        lemma_encode_ids_len(ids);
        assert(s.len() == 18 + 32 * n);
        assert(spec_encode_response(m) =~= s) by {
            assert forall|j: int| 0 <= j < s.len() implies spec_encode_response(m)[j]
                == #[trigger] s[j] by {
                if j < 2 {
                    assert(s.subrange(0, 2)[j] == s[j]);
                } else if j < 18 {
                    assert(s.subrange(2, 18)[j - 2] == s[j]);
                } else {
                    assert(s.subrange(18, 18 + 32 * n as int)[j - 18] == s[j]);
                }
            }
        }
    } else if tag == 2 {
        let n = spec_parse_hex(s, 2, 16).unwrap();
        lemma_parse_hex_bound(s, 2, 16);
        crate::hex::lemma_parse_hex_canonical(s, 2, 16);
        let bs = spec_parse_bytes(s, 18, n).unwrap();
        lemma_parse_bytes_canonical(s, 18, n);
        lemma_encode_bytes_len(bs);
        assert(s.len() == 18 + 2 * n);
        vstd::utf8::decode_utf8_encode_utf8(bs);
        assert(encode_utf8(decode_utf8(bs)) == bs);
        assert(spec_encode_response(m) =~= s) by {
            assert forall|j: int| 0 <= j < s.len() implies spec_encode_response(m)[j]
                == #[trigger] s[j] by {
                if j < 2 {
                    assert(s.subrange(0, 2)[j] == s[j]);
                } else if j < 18 {
                    assert(s.subrange(2, 18)[j - 2] == s[j]);
                } else {
                    assert(s.subrange(18, 18 + 2 * n as int)[j - 18] == s[j]);
                }
            }
        }
    } else if tag == 3 {
        let v = spec_parse_hex(s, 2, 4).unwrap();
        lemma_parse_hex_bound(s, 2, 4);
        crate::hex::lemma_parse_hex_canonical(s, 2, 4);
        assert((v as u16) as nat == v);
        assert(s.len() == 6);
        assert(spec_encode_response(m) =~= s) by {
            assert forall|j: int| 0 <= j < 6 implies spec_encode_response(m)[j]
                == #[trigger] s[j] by {
                if j < 2 {
                    assert(s.subrange(0, 2)[j] == s[j]);
                } else {
                    assert(s.subrange(2, 6)[j - 2] == s[j]);
                }
            }
        }
    } else if tag == 5 {
        let r = spec_parse_hex(s, 2, 2).unwrap();
        let g = spec_parse_hex(s, 4, 2).unwrap();
        let b = spec_parse_hex(s, 6, 2).unwrap();
        lemma_parse_hex_bound(s, 2, 2);
        crate::hex::lemma_parse_hex_canonical(s, 2, 2);
        lemma_parse_hex_bound(s, 4, 2);
        crate::hex::lemma_parse_hex_canonical(s, 4, 2);
        lemma_parse_hex_bound(s, 6, 2);
        crate::hex::lemma_parse_hex_canonical(s, 6, 2);
        assert((r as u8) as nat == r && (g as u8) as nat == g && (b as u8) as nat == b);
        assert(s.len() == 8);
        assert(spec_encode_response(m) =~= s) by {
            assert forall|j: int| 0 <= j < 8 implies spec_encode_response(m)[j]
                == #[trigger] s[j] by {
                if j < 2 {
                    assert(s.subrange(0, 2)[j] == s[j]);
                } else if j < 4 {
                    assert(s.subrange(2, 4)[j - 2] == s[j]);
                } else if j < 6 {
                    assert(s.subrange(4, 6)[j - 4] == s[j]);
                } else {
                    assert(s.subrange(6, 8)[j - 6] == s[j]);
                }
            }
        }
    } else {
        let v = spec_parse_hex(s, 2, 8).unwrap();
        lemma_parse_hex_bound(s, 2, 8);
        crate::hex::lemma_parse_hex_canonical(s, 2, 8);
        let vb: u32 = v as u32;
        assert((vb as i32) as u32 == vb) by (bit_vector);
        assert(((v as u32) as i32) as u32 as nat == v);
        assert(s.len() == 10);
        assert(spec_encode_response(m) =~= s) by {
            assert forall|j: int| 0 <= j < 10 implies spec_encode_response(m)[j]
                == #[trigger] s[j] by {
                if j < 2 {
                    assert(s.subrange(0, 2)[j] == s[j]);
                } else {
                    assert(s.subrange(2, 10)[j - 2] == s[j]);
                }
            }
        }
    }
}

/// Canonicity: a record that decodes is the encoding of the call result it
/// decodes to.
pub proof fn lemma_decode_reply_canonical(s: Seq<u8>)
    requires
        spec_decode_reply(s) is Some,
    ensures
        spec_encode_reply(spec_decode_reply(s).unwrap()) =~= s,
{
    lemma_pow16_values();
    let marker = spec_parse_hex(s, 0, 2).unwrap();
    lemma_parse_hex_bound(s, 0, 2);
    crate::hex::lemma_parse_hex_canonical(s, 0, 2);
    let m = spec_decode_reply(s).unwrap();
    if marker == 0 {
        let body = s.subrange(2, s.len() as int);
        lemma_decode_response_canonical(body);
        let resp = spec_decode_response(body).unwrap();
        assert(spec_encode_reply(m) =~= s) by {
            assert forall|j: int| 0 <= j < s.len() implies spec_encode_reply(m)[j]
                == #[trigger] s[j] by {
                if j < 2 {
                    assert(s.subrange(0, 2)[j] == s[j]);
                } else {
                    assert(spec_encode_response(resp)[j - 2] == body[j - 2]);
                    assert(body[j - 2] == s[j]);
                }
            }
            assert(spec_encode_reply(m).len() == 2 + spec_encode_response(resp).len());
        }
    } else {
        let n = spec_parse_hex(s, 2, 16).unwrap();
        lemma_parse_hex_bound(s, 2, 16);
        crate::hex::lemma_parse_hex_canonical(s, 2, 16);
        let bs = spec_parse_bytes(s, 18, n).unwrap();
        lemma_parse_bytes_canonical(s, 18, n);
        lemma_encode_bytes_len(bs);
        assert(s.len() == 18 + 2 * n);
        vstd::utf8::decode_utf8_encode_utf8(bs);
        assert(spec_encode_reply(m) =~= s) by {
            assert forall|j: int| 0 <= j < s.len() implies spec_encode_reply(m)[j]
                == #[trigger] s[j] by {
                if j < 2 {
                    assert(s.subrange(0, 2)[j] == s[j]);
                } else if j < 18 {
                    assert(s.subrange(2, 18)[j - 2] == s[j]);
                } else {
                    assert(s.subrange(18, 18 + 2 * n as int)[j - 18] == s[j]);
                }
            }
        }
    }
}

/// Round trip: a response's record decodes back to the same image.
pub proof fn lemma_response_round_trip(m: ResponseModel)
    requires
        spec_response_fits(m),
    ensures
        spec_decode_response(spec_encode_response(m)) == Some(m),
{
    lemma_pow16_values();
    let s = spec_encode_response(m);
    match m {
        ResponseModel::boards(ids) => {
            lemma_encode_ids_len(ids);
            lemma_field(s, 0, 0, 2, spec_encode_hex(0, 2));
            lemma_field(s, 2, ids.len(), 16, spec_encode_hex(ids.len(), 16));
            assert(s.subrange(18, 18 + 32 * ids.len() as int) =~= spec_encode_ids(ids));
            lemma_parse_ids_of_encode(s, 18, ids);
        },
        ResponseModel::refresh => {
            lemma_field(s, 0, 1, 2, spec_encode_hex(1, 2));
        },
        ResponseModel::model(cs) => {
            let bs = encode_utf8(cs);
            lemma_encode_bytes_len(bs);
            lemma_field(s, 0, 2, 2, spec_encode_hex(2, 2));
            lemma_field(s, 2, bs.len(), 16, spec_encode_hex(bs.len(), 16));
            assert(s.subrange(18, 18 + 2 * bs.len() as int) =~= spec_encode_bytes(bs));
            lemma_parse_bytes_of_encode(s, 18, bs);
            vstd::utf8::encode_utf8_valid_utf8(cs);
            vstd::utf8::encode_utf8_decode_utf8(cs);
        },
        ResponseModel::keymap_get(v) => {
            lemma_field(s, 0, 3, 2, spec_encode_hex(3, 2));
            lemma_field(s, 2, v as nat, 4, spec_encode_hex(v as nat, 4));
        },
        ResponseModel::keymap_set => {
            lemma_field(s, 0, 4, 2, spec_encode_hex(4, 2));
        },
        ResponseModel::color(c) => {
            lemma_field(s, 0, 5, 2, spec_encode_hex(5, 2));
            lemma_field(s, 2, c.r as nat, 2, spec_encode_hex(c.r as nat, 2));
            lemma_field(s, 4, c.g as nat, 2, spec_encode_hex(c.g as nat, 2));
            lemma_field(s, 6, c.b as nat, 2, spec_encode_hex(c.b as nat, 2));
        },
        ResponseModel::set_color => {
            lemma_field(s, 0, 6, 2, spec_encode_hex(6, 2));
        },
        ResponseModel::max_brightness(v) => {
            lemma_field(s, 0, 7, 2, spec_encode_hex(7, 2));
            lemma_field(s, 2, (v as u32) as nat, 8, spec_encode_hex((v as u32) as nat, 8));
            assert(((v as u32) as nat as u32) as i32 == v) by (bit_vector);
        },
        ResponseModel::brightness(v) => {
            lemma_field(s, 0, 8, 2, spec_encode_hex(8, 2));
            lemma_field(s, 2, (v as u32) as nat, 8, spec_encode_hex((v as u32) as nat, 8));
            assert(((v as u32) as nat as u32) as i32 == v) by (bit_vector);
        },
        ResponseModel::set_brightness => {
            lemma_field(s, 0, 9, 2, spec_encode_hex(9, 2));
        },
        ResponseModel::exit => {
            lemma_field(s, 0, 10, 2, spec_encode_hex(10, 2));
        },
    }
}

/// Canonicity: a record that decodes is the encoding of the command it
/// decodes to.  Together with the round trip this makes the wire form of
/// every command unique — the daemon accepts nothing but exact records.
pub proof fn lemma_decode_command_canonical(s: Seq<u8>)
    requires
        spec_decode_command(s) is Some,
    ensures
        spec_encode_command(spec_decode_command(s).unwrap()) =~= s,
{
    lemma_pow16_values();
    let tag = spec_parse_hex(s, 0, 2).unwrap();
    crate::hex::lemma_parse_hex_bound(s, 0, 2);
    crate::hex::lemma_parse_hex_canonical(s, 0, 2);
    let c = spec_decode_command(s).unwrap();
    if tag == 0 || tag == 1 || tag == 10 {
        assert(s.len() == 2);
        assert(spec_encode_command(c) =~= s) by {
            assert(s.subrange(0, 2) =~= s);
        }
    } else if tag == 2 || tag == 5 || tag == 7 || tag == 8 {
        let b = spec_parse_hex(s, 2, 32).unwrap();
        crate::hex::lemma_parse_hex_bound(s, 2, 32);
        crate::hex::lemma_parse_hex_canonical(s, 2, 32);
        assert(s.len() == 34);
        assert((b as u128) as nat == b);
        assert(spec_encode_command(c) =~= s) by {
            assert forall|j: int| 0 <= j < 34 implies spec_encode_command(c)[j]
                == #[trigger] s[j] by {
                if j < 2 {
                    assert(s.subrange(0, 2)[j] == s[j]);
                } else {
                    assert(s.subrange(2, 34)[j - 2] == s[j]);
                }
            }
        }
    } else if tag == 3 || tag == 4 || tag == 6 {
        let b = spec_parse_hex(s, 2, 32).unwrap();
        let x = spec_parse_hex(s, 34, 2).unwrap();
        let y = spec_parse_hex(s, 36, 2).unwrap();
        let z = spec_parse_hex(s, 38, 2).unwrap();
        crate::hex::lemma_parse_hex_bound(s, 2, 32);
        crate::hex::lemma_parse_hex_canonical(s, 2, 32);
        crate::hex::lemma_parse_hex_bound(s, 34, 2);
        crate::hex::lemma_parse_hex_canonical(s, 34, 2);
        crate::hex::lemma_parse_hex_bound(s, 36, 2);
        crate::hex::lemma_parse_hex_canonical(s, 36, 2);
        crate::hex::lemma_parse_hex_bound(s, 38, 2);
        crate::hex::lemma_parse_hex_canonical(s, 38, 2);
        assert((b as u128) as nat == b);
        assert((x as u8) as nat == x && (y as u8) as nat == y && (z as u8) as nat == z);
        if tag == 4 {
            let v = spec_parse_hex(s, 40, 4).unwrap();
            crate::hex::lemma_parse_hex_bound(s, 40, 4);
            crate::hex::lemma_parse_hex_canonical(s, 40, 4);
            assert((v as u16) as nat == v);
            assert(s.len() == 44);
            assert(spec_encode_command(c) =~= s) by {
                assert forall|j: int| 0 <= j < 44 implies spec_encode_command(c)[j]
                    == #[trigger] s[j] by {
                    if j < 2 {
                        assert(s.subrange(0, 2)[j] == s[j]);
                    } else if j < 34 {
                        assert(s.subrange(2, 34)[j - 2] == s[j]);
                    } else if j < 36 {
                        assert(s.subrange(34, 36)[j - 34] == s[j]);
                    } else if j < 38 {
                        assert(s.subrange(36, 38)[j - 36] == s[j]);
                    } else if j < 40 {
                        assert(s.subrange(38, 40)[j - 38] == s[j]);
                    } else {
                        assert(s.subrange(40, 44)[j - 40] == s[j]);
                    }
                }
            }
        } else {
            assert(s.len() == 40);
            assert(spec_encode_command(c) =~= s) by {
                assert forall|j: int| 0 <= j < 40 implies spec_encode_command(c)[j]
                    == #[trigger] s[j] by {
                    if j < 2 {
                        assert(s.subrange(0, 2)[j] == s[j]);
                    } else if j < 34 {
                        assert(s.subrange(2, 34)[j - 2] == s[j]);
                    } else if j < 36 {
                        assert(s.subrange(34, 36)[j - 34] == s[j]);
                    } else if j < 38 {
                        assert(s.subrange(36, 38)[j - 36] == s[j]);
                    } else {
                        assert(s.subrange(38, 40)[j - 38] == s[j]);
                    }
                }
            }
        }
    } else {
        let b = spec_parse_hex(s, 2, 32).unwrap();
        let v = spec_parse_hex(s, 34, 8).unwrap();
        crate::hex::lemma_parse_hex_bound(s, 2, 32);
        crate::hex::lemma_parse_hex_canonical(s, 2, 32);
        crate::hex::lemma_parse_hex_bound(s, 34, 8);
        crate::hex::lemma_parse_hex_canonical(s, 34, 8);
        assert((b as u128) as nat == b);
        assert(s.len() == 42);
        // The signed brightness keeps its 32 bits through the casts.
        let vb: u32 = v as u32;
        assert((vb as i32) as u32 == vb) by (bit_vector);
        assert(((v as u32) as i32) as u32 as nat == v);
        assert(spec_encode_command(c) =~= s) by {
            assert forall|j: int| 0 <= j < 42 implies spec_encode_command(c)[j]
                == #[trigger] s[j] by {
                if j < 2 {
                    assert(s.subrange(0, 2)[j] == s[j]);
                } else if j < 34 {
                    assert(s.subrange(2, 34)[j - 2] == s[j]);
                } else {
                    assert(s.subrange(34, 42)[j - 34] == s[j]);
                }
            }
        }
    }
}

/// Whether a reply can be put on the wire: its payloads fit their count
/// fields.
pub open spec fn spec_reply_fits(m: Result<ResponseModel, Seq<char>>) -> bool {
    match m {
        Ok(r) => spec_response_fits(r),
        Err(cs) => spec_count_fits(encode_utf8(cs).len()),
    }
}

/// The wire form of a call result: a success marker and the response, or a
/// failure marker and the error text.
pub open spec fn spec_encode_reply(m: Result<ResponseModel, Seq<char>>) -> Seq<u8> {
    match m {
        Ok(r) => spec_encode_hex(0, 2) + spec_encode_response(r),
        Err(cs) => spec_encode_hex(1, 2) + spec_encode_hex(encode_utf8(cs).len(), 16)
            + spec_encode_bytes(encode_utf8(cs)),
    }
}

/// The call result a record holds, if well formed.
pub open spec fn spec_decode_reply(s: Seq<u8>) -> Option<Result<ResponseModel, Seq<char>>> {
    match spec_parse_hex(s, 0, 2) {
        None => None,
        Some(marker) => if marker == 0 {
            match spec_decode_response(s.subrange(2, s.len() as int)) {
                None => None,
                Some(m) => Some(Ok(m)),
            }
        } else if marker == 1 {
            match spec_parse_hex(s, 2, 16) {
                None => None,
                Some(n) => if s.len() == 18 + 2 * n {
                    match spec_parse_bytes(s, 18, n) {
                        None => None,
                        Some(bs) => if valid_utf8(bs) {
                            Some(Err(decode_utf8(bs)))
                        } else {
                            None
                        },
                    }
                } else {
                    None
                },
            }
        } else {
            None
        },
    }
}

/// Append a string's bytes as a 16-digit count and two digits per byte.
fn push_text(out: &mut Vec<u8>, s: &String)
    ensures
        final(out)@ =~= old(out)@ + spec_encode_hex(encode_utf8(s@).len(), 16)
            + spec_encode_bytes(encode_utf8(s@)),
{
    proof {
        lemma_pow16_values();
    }
    let bytes = s.as_str().as_bytes_vec();
    let n_bytes: usize = bytes.len();
    proof {
        assert((n_bytes as nat) < pow16(16));
    }
    push_hex(out, n_bytes as u128, 16);
    let ghost head = out@;
    let mut i: usize = 0;
    while i < bytes.len()
        invariant
            i <= bytes@.len(),
            out@ =~= head + spec_encode_bytes(bytes@.take(i as int)),
        decreases bytes@.len() - i,
    {
        proof {
            lemma_pow16_values();
        }
        push_hex(out, bytes[i] as u128, 2);
        proof {
            lemma_encode_bytes_snoc(bytes@.take(i as int), bytes@[i as int]);
            assert(bytes@.take(i + 1) =~= bytes@.take(i as int).push(bytes@[i as int]));
        }
        i = i + 1;
    }
    assert(bytes@.take(bytes@.len() as int) =~= bytes@);
}

/// Encode a call result as one wire record.
pub fn encode_reply(r: &Result<DaemonResponse, String>) -> (out: Vec<u8>)
    ensures
        out@ =~= spec_encode_reply(view_reply(*r)),
{
    proof {
        lemma_pow16_values();
    }
    let mut out: Vec<u8> = Vec::new();
    match r {
        Ok(resp) => {
            push_hex(&mut out, 0, 2);
            let mut body = encode_response(resp);
            out.append(&mut body);
        },
        Err(e) => {
            push_hex(&mut out, 1, 2);
            push_text(&mut out, e);
        },
    }
    out
}

/// Copy the record from position `at` on, to hand a nested payload to its
/// own decoder.
fn tail_from(line: &Vec<u8>, at: usize) -> (out: Vec<u8>)
    requires
        at <= line@.len(),
    ensures
        out@ =~= line@.subrange(at as int, line@.len() as int),
{
    let mut out: Vec<u8> = Vec::new();
    let mut i: usize = at;
    let n: usize = line.len();
    while i < n
        invariant
            at <= i <= n,
            n == line@.len(),
            out@ =~= line@.subrange(at as int, i as int),
        decreases n - i,
    {
        out.push(line[i]);
        proof {
            assert(line@.subrange(at as int, i + 1) =~= line@.subrange(at as int, i as int).push(
                line@[i as int],
            ));
        }
        i = i + 1;
    }
    out
}

/// Decode one wire record as a call result.
pub fn decode_reply(line: &Vec<u8>) -> (r: Option<Result<DaemonResponse, String>>)
    ensures
        match r {
            Some(rep) => spec_decode_reply(line@) == Some(view_reply(rep)),
            None => spec_decode_reply(line@) is None,
        },
{
    let marker = match parse_hex(line, 0, 2) {
        Some(m) => m,
        None => {
            return None;
        },
    };
    if marker == 0 {
        proof {
            if line@.len() < 2 {
                crate::hex::lemma_parse_hex_rec_short(line@, 0, 2, 0);
            }
        }
        let rest = tail_from(line, 2);
        match decode_response(&rest) {
            Some(resp) => Some(Ok(resp)),
            None => None,
        }
    } else if marker == 1 {
        let n = match parse_hex(line, 2, 16) {
            Some(n) => n,
            None => {
                return None;
            },
        };
        proof {
            lemma_pow16_values();
            lemma_parse_hex_bound(line@, 2, 16);
        }
        let len: usize = line.len();
        if (len as u128) != 18 + 2 * n {
            return None;
        }
        proof {
            assert(n <= len as u128);
        }
        let n: usize = n as usize;
        match parse_byte_run(line, 18, n) {
            Some(bs) => match bytes_to_string(bs) {
                Some(s) => Some(Err(s)),
                None => None,
            },
            None => None,
        }
    } else {
        None
    }
}

/// Round trip: a call result's record decodes back to the same image.
pub proof fn lemma_reply_round_trip(m: Result<ResponseModel, Seq<char>>)
    requires
        spec_reply_fits(m),
    ensures
        spec_decode_reply(spec_encode_reply(m)) == Some(m),
{
    lemma_pow16_values();
    let s = spec_encode_reply(m);
    match m {
        Ok(r) => {
            lemma_field(s, 0, 0, 2, spec_encode_hex(0, 2));
            assert(s.subrange(2, s.len() as int) =~= spec_encode_response(r));
            lemma_response_round_trip(r);
        },
        Err(cs) => {
            let bs = encode_utf8(cs);
            lemma_encode_bytes_len(bs);
            lemma_field(s, 0, 1, 2, spec_encode_hex(1, 2));
            lemma_field(s, 2, bs.len(), 16, spec_encode_hex(bs.len(), 16));
            assert(s.subrange(18, 18 + 2 * bs.len() as int) =~= spec_encode_bytes(bs));
            lemma_parse_bytes_of_encode(s, 18, bs);
            vstd::utf8::encode_utf8_valid_utf8(cs);
            vstd::utf8::encode_utf8_decode_utf8(cs);
        },
    }
}

} // verus!
