//! The table of transition costs between adjacent grammatical contexts.
use vstd::prelude::*;

use crate::error::DictionaryError;
use crate::word_entry::{le_u16, signed16};

verus! {

/// A dense table of transition costs: row `forward_id` is the right context
/// of the earlier word, column `backward_id` the left context of the later
/// one. The buffer starts with the row and column counts, each a little-endian
/// 16-bit value, followed by the cells in row-major order, each a
/// little-endian signed 16-bit value.
#[derive(Clone, Debug)]
pub struct ConnectionCostMatrix {
    pub costs_data: Vec<u8>,
    pub forward_size: u16,
    pub backward_size: u16,
}

/// The byte length a table of `rows` by `cols` cells needs.
pub open spec fn matrix_len(rows: int, cols: int) -> int {
    4 + 2 * (rows * cols)
}

impl ConnectionCostMatrix {
    /// The buffer holds every cell that the sizes declare.
    pub open spec fn wf(&self) -> bool {
        &&& self.costs_data@.len() >= 4
        &&& self.forward_size as int == le_u16(self.costs_data@[0], self.costs_data@[1])
        &&& self.backward_size as int == le_u16(self.costs_data@[2], self.costs_data@[3])
        &&& self.costs_data@.len() >= matrix_len(
            self.forward_size as int,
            self.backward_size as int,
        )
    }

    /// The cost of moving from right context `f` to left context `b`.
    pub open spec fn cost_spec(&self, f: int, b: int) -> int {
        let at = 4 + 2 * (b + f * self.backward_size);
        signed16(le_u16(self.costs_data@[at], self.costs_data@[at + 1]))
    }

    /// Reads a cost table from its buffer; fails when the buffer is shorter
    /// than its header or than the cells the header declares.
    pub fn load(data: Vec<u8>) -> (r: Result<ConnectionCostMatrix, DictionaryError>)
        ensures
            match r {
                Ok(m) => m.wf() && m.costs_data@ == data@,
                Err(e) => e == DictionaryError::Format && (data@.len() < 4 || data@.len()
                    < matrix_len(
                    le_u16(data@[0], data@[1]),
                    le_u16(data@[2], data@[3]),
                )),
            },
    {
        if data.len() < 4 {
            return Err(DictionaryError::Format);
        }
        let forward_size: u16 = data[0] as u16 + 256 * (data[1] as u16);
        let backward_size: u16 = data[2] as u16 + 256 * (data[3] as u16);
        assert((forward_size as int) * (backward_size as int) <= 65535 * 65535) by (nonlinear_arith)
            requires
                forward_size <= 65535,
                backward_size <= 65535,
        ;
        let cells: u64 = (forward_size as u64) * (backward_size as u64);
        assert(cells as int == (forward_size as int) * (backward_size as int));
        let need: u64 = 4 + 2 * cells;
        if (data.len() as u64) < need {
            return Err(DictionaryError::Format);
        }
        Ok(ConnectionCostMatrix { costs_data: data, forward_size, backward_size })
    }

    /// The transition cost between two context ids, both within the table.
    pub fn cost(&self, forward_id: u16, backward_id: u16) -> (r: i16)
        requires
            self.wf(),
            forward_id < self.forward_size,
            backward_id < self.backward_size,
        ensures
            r as int == self.cost_spec(forward_id as int, backward_id as int),
    {
        let f = forward_id as usize;
        let b = backward_id as usize;
        let cols = self.backward_size as usize;
        proof {
            assert(b + f * cols < self.forward_size * cols) by (nonlinear_arith)
                requires
                    b < cols,
                    f < self.forward_size,
            ;
            assert(f * cols <= b + f * cols);
            assert(b + f * cols < self.costs_data@.len());
        }
        let len: usize = self.costs_data.len();
        assert(f * cols < len);
        let row_start: usize = f * cols;
        let cell: usize = row_start + b;
        let at: usize = 4 + 2 * cell;
        let bits: u16 = self.costs_data[at] as u16 + 256 * (self.costs_data[at + 1] as u16);
        if bits >= 32768 {
            (bits as i32 - 65536) as i16
        } else {
            bits as i16
        }
    }
}

} // verus!
