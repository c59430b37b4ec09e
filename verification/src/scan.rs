//! Instantaneous contact state of one half's key matrix: a fixed
//! `ROWS x COLS` grid of booleans, viewed row-major as a flat bit sequence.

use vstd::prelude::*;

use crate::COLS;
use crate::ROWS;
use crate::SCAN_LEN;

verus! {

/// One half's matrix state at a single tick. The view is the row-major
/// flattening: bit `row * COLS + col` is key `(row, col)`.
pub struct ScanSnapshot {
    bits: Vec<bool>,
}

impl View for ScanSnapshot {
    type V = Seq<bool>;

    closed spec fn view(&self) -> Seq<bool> {
        self.bits@
    }
}

impl ScanSnapshot {
    /// A snapshot is exactly one bit per key.
    pub open spec fn wf(&self) -> bool {
        self@.len() == SCAN_LEN
    }

    /// All keys released.
    pub fn new() -> (s: ScanSnapshot)
        ensures
            s.wf(),
            forall|i: int| 0 <= i < SCAN_LEN ==> !s@[i],
    {
        let mut bits: Vec<bool> = Vec::new();
        let mut i: usize = 0;
        while i < SCAN_LEN
            invariant
                i <= SCAN_LEN,
                bits@.len() == i,
                forall|j: int| 0 <= j < i ==> !bits@[j],
            decreases SCAN_LEN - i,
        {
            bits.push(false);
            i = i + 1;
        }
        ScanSnapshot { bits }
    }

    /// A snapshot with the given row-major bits.
    pub fn from_flat(bits: Vec<bool>) -> (s: ScanSnapshot)
        requires
            bits@.len() == SCAN_LEN,
        ensures
            s.wf(),
            s@ == bits@,
    {
        ScanSnapshot { bits }
    }

    /// Whether key `(row, col)` is pressed.
    pub fn get(&self, row: usize, col: usize) -> (pressed: bool)
        requires
            self.wf(),
            row < ROWS,
            col < COLS,
        ensures
            pressed == self@[row * COLS + col],
    {
        self.bits[row * COLS + col]
    }

    /// Sets key `(row, col)`.
    pub fn set(&mut self, row: usize, col: usize, pressed: bool)
        requires
            old(self).wf(),
            row < ROWS,
            col < COLS,
        ensures
            final(self).wf(),
            final(self)@ == old(self)@.update((row * COLS + col) as int, pressed),
    {
        self.bits.set(row * COLS + col, pressed);
    }

    /// Whether key `i` of the row-major flattening is pressed.
    pub fn get_flat(&self, i: usize) -> (pressed: bool)
        requires
            self.wf(),
            i < SCAN_LEN,
        ensures
            pressed == self@[i as int],
    {
        self.bits[i]
    }
}

} // verus!
