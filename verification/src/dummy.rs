//! An offline board set: the daemon capability surface realized over
//! in-memory state, with no hardware and no wire.  It serves the same
//! dispatcher and run loop as the real device table, and it is what the
//! graphical shell shows when asked for phony boards.

use vstd::prelude::*;

use crate::color::Rgb;
use crate::protocol::Daemon;
use crate::BoardId;

verus! {

/// Layers an offline board pretends to have.
pub const DUMMY_LAYERS: u8 = 2;

/// Key matrix outputs per board.
pub const DUMMY_OUTPUTS: u8 = 8;

/// Key matrix inputs per output.
pub const DUMMY_INPUTS: u8 = 16;

/// One offline board: a model name and plain in-memory state for every
/// operation the protocol can ask of it.
pub struct DummyBoard {
    pub id: BoardId,
    pub model: String,
    pub keymap: Vec<u16>,
    pub color: Rgb,
    pub brightness: i32,
    pub max_brightness: i32,
}

/// The offline board set.
pub struct DaemonDummy {
    pub boards: Vec<DummyBoard>,
}

impl DaemonDummy {
    /// One offline board per name, numbered in order.  Every board starts
    /// with an empty keymap, black color, zero brightness and a full
    /// brightness range.
    pub fn new(board_names: Vec<String>) -> (r: DaemonDummy)
        ensures
            r.boards@.len() == board_names@.len(),
            forall|i: int| 0 <= i < board_names@.len() ==> (#[trigger] r.boards@[i]).id == BoardId(
                i as u128,
            ) && r.boards@[i].model@ == board_names@[i]@,
    {
        let n = board_names.len();
        let size: usize = 256;
        let mut boards: Vec<DummyBoard> = Vec::new();
        let mut i: usize = 0;
        while i < n
            invariant
                i <= n,
                n == board_names@.len(),
                boards@.len() == i,
                forall|j: int| 0 <= j < i ==> (#[trigger] boards@[j]).id == BoardId(j as u128)
                    && boards@[j].model@ == board_names@[j]@,
            decreases n - i,
        {
            let keymap: Vec<u16> = make_zero_keymap(size);
            let board = DummyBoard {
                id: BoardId(i as u128),
                model: board_names[i].clone(),
                keymap,
                color: Rgb { r: 0, g: 0, b: 0 },
                brightness: 0,
                max_brightness: 100,
            };
            boards.push(board);
            i = i + 1;
        }
        DaemonDummy { boards }
    }

    /// The position of the board with identifier `id`.
    fn find(&self, board: BoardId) -> (r: Option<usize>)
        ensures
            match r {
                Some(i) => i < self.boards@.len() && self.boards@[i as int].id == board,
                None => forall|i: int|
                    0 <= i < self.boards@.len() ==> (#[trigger] self.boards@[i]).id != board,
            },
    {
        let mut i: usize = 0;
        while i < self.boards.len()
            invariant
                i <= self.boards@.len(),
                forall|j: int| 0 <= j < i ==> (#[trigger] self.boards@[j]).id != board,
            decreases self.boards@.len() - i,
        {
            if self.boards[i].id.0 == board.0 {
                return Some(i);
            }
            i = i + 1;
        }
        None
    }
}

/// The error every operation reports for an identifier that names no
/// board, matching the hardware-backed table's wording.
pub fn board_not_found() -> (r: String)
    ensures
        r@ == "failed to find board"@,
{
    "failed to find board".to_owned()
}

fn make_zero_keymap(size: usize) -> (r: Vec<u16>)
    ensures
        r@.len() == size,
        forall|i: int| 0 <= i < size ==> #[trigger] r@[i] == 0u16,
{
    let mut v: Vec<u16> = Vec::new();
    let mut i: usize = 0;
    while i < size
        invariant
            i <= size,
            v@.len() == i,
            forall|j: int| 0 <= j < i ==> #[trigger] v@[j] == 0u16,
        decreases size - i,
    {
        v.push(0);
        i = i + 1;
    }
    v
}

impl Daemon for DaemonDummy {
    fn boards(&mut self) -> Result<Vec<BoardId>, String> {
        let mut out: Vec<BoardId> = Vec::new();
        let mut i: usize = 0;
        while i < self.boards.len()
            invariant
                i <= self.boards@.len(),
            decreases self.boards@.len() - i,
        {
            out.push(self.boards[i].id);
            i = i + 1;
        }
        Ok(out)
    }

    fn refresh(&mut self) -> Result<(), String> {
        Ok(())
    }

    fn model(&mut self, board: BoardId) -> Result<String, String> {
        match self.find(board) {
            Some(i) => Ok(self.boards[i].model.clone()),
            None => Err(board_not_found()),
        }
    }

    fn keymap_get(&mut self, board: BoardId, layer: u8, output: u8, input: u8) -> Result<
        u16,
        String,
    > {
        let i = match self.find(board) {
            Some(i) => i,
            None => {
                return Err(board_not_found());
            },
        };
        if layer >= DUMMY_LAYERS || output >= DUMMY_OUTPUTS || input >= DUMMY_INPUTS {
            return Err("key position out of range".to_owned());
        }
        let idx: usize = ((layer as usize) * 8 + (output as usize)) * 16 + (input as usize);
        let b = &self.boards[i];
        if idx < b.keymap.len() {
            Ok(b.keymap[idx])
        } else {
            Err("key position out of range".to_owned())
        }
    }

    fn keymap_set(
        &mut self,
        board: BoardId,
        layer: u8,
        output: u8,
        input: u8,
        value: u16,
    ) -> Result<(), String> {
        let i = match self.find(board) {
            Some(i) => i,
            None => {
                return Err(board_not_found());
            },
        };
        if layer >= DUMMY_LAYERS || output >= DUMMY_OUTPUTS || input >= DUMMY_INPUTS {
            return Err("key position out of range".to_owned());
        }
        let idx: usize = ((layer as usize) * 8 + (output as usize)) * 16 + (input as usize);
        if idx < self.boards[i].keymap.len() {
            set_keymap_entry(&mut self.boards, i, idx, value);
            Ok(())
        } else {
            Err("key position out of range".to_owned())
        }
    }

    fn color(&mut self, board: BoardId) -> Result<Rgb, String> {
        match self.find(board) {
            Some(i) => Ok(self.boards[i].color),
            None => Err(board_not_found()),
        }
    }

    fn set_color(&mut self, board: BoardId, color: Rgb) -> Result<(), String> {
        match self.find(board) {
            Some(i) => {
                set_board_color(&mut self.boards, i, color);
                Ok(())
            },
            None => Err(board_not_found()),
        }
    }

    fn max_brightness(&mut self, board: BoardId) -> Result<i32, String> {
        match self.find(board) {
            Some(i) => Ok(self.boards[i].max_brightness),
            None => Err(board_not_found()),
        }
    }

    fn brightness(&mut self, board: BoardId) -> Result<i32, String> {
        match self.find(board) {
            Some(i) => Ok(self.boards[i].brightness),
            None => Err(board_not_found()),
        }
    }

    fn set_brightness(&mut self, board: BoardId, brightness: i32) -> Result<(), String> {
        match self.find(board) {
            Some(i) => {
                set_board_brightness(&mut self.boards, i, brightness);
                Ok(())
            },
            None => Err(board_not_found()),
        }
    }

    fn exit(&mut self) -> Result<(), String> {
        Ok(())
    }

    fn is_fake(&self) -> bool {
        true
    }
}

fn set_keymap_entry(boards: &mut Vec<DummyBoard>, i: usize, idx: usize, value: u16)
    requires
        i < old(boards)@.len(),
        idx < old(boards)@[i as int].keymap@.len(),
    ensures
        final(boards)@.len() == old(boards)@.len(),
        final(boards)@[i as int].keymap@ == old(boards)@[i as int].keymap@.update(
            idx as int,
            value,
        ),
{
    let mut b = boards.remove(i);
    b.keymap.set(idx, value);
    boards.insert(i, b);
    proof {
        assert(boards@[i as int].keymap@ =~= old(boards)@[i as int].keymap@.update(
            idx as int,
            value,
        ));
    }
}

fn set_board_color(boards: &mut Vec<DummyBoard>, i: usize, color: Rgb)
    requires
        i < old(boards)@.len(),
    ensures
        final(boards)@.len() == old(boards)@.len(),
        final(boards)@[i as int].color == color,
{
    let mut b = boards.remove(i);
    b.color = color;
    boards.insert(i, b);
}

fn set_board_brightness(boards: &mut Vec<DummyBoard>, i: usize, brightness: i32)
    requires
        i < old(boards)@.len(),
    ensures
        final(boards)@.len() == old(boards)@.len(),
        final(boards)@[i as int].brightness == brightness,
{
    let mut b = boards.remove(i);
    b.brightness = brightness;
    boards.insert(i, b);
}

} // verus!
