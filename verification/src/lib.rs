//! Core of a two-half split keyboard: matrix debouncing, a checksummed wire
//! codec for relaying one half's scan to the other, a byte-stream
//! resynchronising receiver, and a layered hold-tap keymap engine.

use vstd::prelude::*;

pub mod codec;
pub mod crc8;
pub mod debounce;
pub mod dispatch;
pub mod layout;
pub mod link;
pub mod scan;

verus! {

/// Rows of one half's key matrix.
pub const ROWS: usize = 4;

/// Columns of one half's key matrix.
pub const COLS: usize = 7;

/// Columns of the merged address space, both halves side by side.
pub const MERGED_COLS: usize = 14;

/// Keys of the merged address space.
pub const KEY_COUNT: usize = 56;

/// Keys of one half, row-major.
pub const SCAN_LEN: usize = 28;

/// Payload bytes of one wire frame: seven data bits per byte.
pub const PAYLOAD_LEN: usize = 4;

/// Whole frame on the wire: marker, payload, checksum.
pub const TX_BUF_LEN: usize = 6;

/// Bytes the receiver accumulates per frame: payload plus checksum.
pub const RX_BUF_LEN: usize = 5;

/// Start-of-frame marker. Its high bit is reserved: no payload byte ever
/// has that bit set, so this value re-establishes frame alignment.
pub const SOF: u8 = 128;

/// A confirmed key transition at a coordinate, as the debouncer emits it
/// and the layout engine consumes it.
#[derive(Clone, Copy, Debug, PartialEq, Eq, Structural)]
pub enum Event {
    Press(u8, u8),
    Release(u8, u8),
}

impl Event {
    /// The row of the event's coordinate.
    pub open spec fn row(self) -> u8 {
        match self {
            Event::Press(r, _) => r,
            Event::Release(r, _) => r,
        }
    }

    /// The column of the event's coordinate.
    pub open spec fn col(self) -> u8 {
        match self {
            Event::Press(_, c) => c,
            Event::Release(_, c) => c,
        }
    }

    /// Whether the coordinate lies inside the merged address space of
    /// both halves.
    pub open spec fn in_merged_space(self) -> bool {
        self.row() < ROWS && self.col() < MERGED_COLS
    }
}

} // verus!
