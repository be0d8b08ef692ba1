//! The per-board, per-layer LED state cache.
//!
//! A [`Layer`] binds a board and a layer index and caches that layer's
//! mode, brightness and color.  The cache is seeded once, at construction,
//! from hardware reads — a failed read degrades to a zero default, never to
//! a construction failure — and after that each getter answers from the
//! cache alone.  Each setter writes through the daemon first and touches
//! the cache, and the board's dirty flag, only when the hardware write
//! succeeded: a failed write leaves both exactly as they were.

use vstd::prelude::*;

use crate::color::{hs_to_rgb, rgb_to_hs, spec_hs_to_rgb, spec_rgb_to_hs, Hs, Rgb};
use crate::protocol::Daemon;
use crate::BoardId;

verus! {

/// The per-layer LED selector when a board addresses its layers
/// independently: the layer index in the low nibble.
pub const PER_LAYER_SELECTOR_BASE: u8 = 0xf0;

/// The selector that addresses the whole board's LEDs at once.
pub const WHOLE_BOARD_SELECTOR: u8 = 0xff;

/// The cached LED state of one layer of one board.
pub struct Layer {
    /// The layer index on its board.
    pub layer: u8,
    /// The hardware LED selector for this layer, decided once at
    /// construction: `0xf0 + layer` on a board with independently
    /// addressable layers, else `0xff` for the whole board.
    pub index: u8,
    /// The board this layer belongs to.
    pub board: BoardId,
    /// Cached effect mode and speed.  The wire protocol carries no LED
    /// effect operation, so boards reached through it have no multi-mode
    /// support and this cache stays empty.
    pub mode: Option<(u8, u8)>,
    /// Cached brightness.
    pub brightness: i32,
    /// Cached color.
    pub color: Hs,
}

/// The selector a layer is built with.
pub open spec fn spec_selector(has_per_layer: bool, layer: u8) -> u8 {
    if has_per_layer {
        (PER_LAYER_SELECTOR_BASE + layer) as u8
    } else {
        WHOLE_BOARD_SELECTOR
    }
}

impl Layer {
    pub open spec fn wf(self) -> bool {
        self.color.wf()
    }

    /// Build the cache from the outcomes of the two seeding reads.  A
    /// failed brightness read seeds zero; a failed color read seeds zero
    /// hue and zero saturation.  This is the whole construction decision,
    /// stated for every possible pair of outcomes.
    pub fn from_reads(
        board: BoardId,
        has_per_layer: bool,
        layer: u8,
        brightness_read: Result<i32, String>,
        color_read: Result<Rgb, String>,
    ) -> (r: Layer)
        requires
            layer <= 0x0f,
        ensures
            r.layer == layer,
            r.board == board,
            r.index == spec_selector(has_per_layer, layer),
            r.mode is None,
            r.brightness == (match brightness_read {
                Ok(b) => b,
                Err(_) => 0,
            }),
            r.color == (match color_read {
                Ok(c) => spec_rgb_to_hs(c),
                Err(_) => Hs { h: 0, s: 0 },
            }),
            r.wf(),
    {
        let index: u8 = if has_per_layer {
            PER_LAYER_SELECTOR_BASE + layer
        } else {
            WHOLE_BOARD_SELECTOR
        };
        let brightness = match brightness_read {
            Ok(b) => b,
            Err(_) => 0,
        };
        let color = match color_read {
            Ok(c) => rgb_to_hs(c),
            Err(_) => Hs { h: 0, s: 0 },
        };
        Layer { layer, index, board, mode: None, brightness, color }
    }

    /// Build a layer for `board`, seeding the cache from the daemon's
    /// current brightness and color.  Whatever those reads return, the
    /// cache is exactly what [`Layer::from_reads`] makes of them.
    pub fn new<D: Daemon>(daemon: &mut D, board: BoardId, has_per_layer: bool, layer: u8) -> (r:
        Layer)
        requires
            layer <= 0x0f,
        ensures
            r.layer == layer,
            r.board == board,
            r.index == spec_selector(has_per_layer, layer),
            r.mode is None,
            r.wf(),
    {
        let brightness_read = daemon.brightness(board);
        let color_read = daemon.color(board);
        Layer::from_reads(board, has_per_layer, layer, brightness_read, color_read)
    }

    /// The cached mode, with no hardware round trip.
    pub fn mode(&self) -> (r: Option<(u8, u8)>)
        ensures
            r == self.mode,
    {
        self.mode
    }

    /// Set the effect mode.  The wire protocol carries no LED effect
    /// operation, so a board reached through it rejects the call, and the
    /// cache and dirty flag stay untouched.
    pub fn set_mode(&mut self, mode: u8, speed: u8) -> (r: Result<(), String>)
        ensures
            r is Err,
            *final(self) == *old(self),
    {
        Err("board has no effect modes".to_owned())
    }

    /// The cached brightness, with no hardware round trip.
    pub fn brightness(&self) -> (r: i32)
        ensures
            r == self.brightness,
    {
        self.brightness
    }

    /// Set the brightness: write through the daemon first; only on success
    /// update the cache and raise the board's dirty flag.  A failed write
    /// leaves the cached value exactly what it was before the call.
    pub fn set_brightness<D: Daemon>(
        &mut self,
        daemon: &mut D,
        leds_changed: &mut bool,
        brightness: i32,
    ) -> (r: Result<(), String>)
        ensures
            final(self).layer == old(self).layer,
            final(self).index == old(self).index,
            final(self).board == old(self).board,
            final(self).mode == old(self).mode,
            final(self).color == old(self).color,
            r is Ok ==> final(self).brightness == brightness && *final(leds_changed),
            r is Err ==> *final(self) == *old(self) && *final(leds_changed) == *old(leds_changed),
    {
        match daemon.set_brightness(self.board, brightness) {
            Ok(_) => {
                self.brightness = brightness;
                *leds_changed = true;
                Ok(())
            },
            Err(e) => Err(e),
        }
    }

    /// The cached color, with no hardware round trip.
    pub fn color(&self) -> (r: Hs)
        ensures
            r == self.color,
    {
        self.color
    }

    /// Set the color: convert to the wire RGB form, write through the
    /// daemon first; only on success update the cache and raise the
    /// board's dirty flag.
    pub fn set_color<D: Daemon>(
        &mut self,
        daemon: &mut D,
        leds_changed: &mut bool,
        color: Hs,
    ) -> (r: Result<(), String>)
        requires
            color.wf(),
        ensures
            final(self).layer == old(self).layer,
            final(self).index == old(self).index,
            final(self).board == old(self).board,
            final(self).mode == old(self).mode,
            final(self).brightness == old(self).brightness,
            r is Ok ==> final(self).color == color && *final(leds_changed),
            r is Err ==> *final(self) == *old(self) && *final(leds_changed) == *old(leds_changed),
    {
        let rgb = hs_to_rgb(color);
        proof {
            assert(rgb == spec_hs_to_rgb(color));
        }
        match daemon.set_color(self.board, rgb) {
            Ok(_) => {
                self.color = color;
                *leds_changed = true;
                Ok(())
            },
            Err(e) => Err(e),
        }
    }
}

} // verus!
