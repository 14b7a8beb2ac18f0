//! Global memory: a fixed number of `i64` slots addressed from zero.

use vstd::prelude::*;
use crate::error::{MiniVmError, Result};
use crate::text::{dec_nat, hex_padded, push_dec_u64, push_hex_padded, push_str};

verus! {

pub open spec fn msg_read_oob(address: nat, size: nat) -> Seq<char> {
    "Runtime Error: Out-of-bounds global memory read attempt at address 0x"@ + hex_padded(
        address,
        4,
    ) + " (Max allocation size: "@ + dec_nat(size) + " slots)"@
}

pub open spec fn msg_write_oob(address: nat, size: nat) -> Seq<char> {
    "Runtime Error: Out-of-bounds global memory write attempt at address 0x"@ + hex_padded(
        address,
        4,
    ) + " (Max allocation size: "@ + dec_nat(size) + " slots)"@
}

/// Reading slot `address` of the memory `cells`.
pub open spec fn spec_read(cells: Seq<i64>, address: nat) -> std::result::Result<i64, Seq<char>> {
    if address < cells.len() {
        Ok(cells[address as int])
    } else {
        Err(msg_read_oob(address, cells.len()))
    }
}

/// Writing `value` into slot `address` of the memory `cells`.
pub open spec fn spec_write(cells: Seq<i64>, address: nat, value: i64) -> std::result::Result<
    Seq<i64>,
    Seq<char>,
> {
    if address < cells.len() {
        Ok(cells.update(address as int, value))
    } else {
        Err(msg_write_oob(address, cells.len()))
    }
}

#[derive(Debug)]
pub struct Globals {
    memory: Vec<i64>,
}

impl Globals {
    /// The slots, by address.
    pub closed spec fn cells(&self) -> Seq<i64> {
        self.memory@
    }

    pub fn new(size: usize) -> (g: Self)
        ensures
            g.cells() == Seq::new(size as nat, |_i: int| 0i64),
    {
        let g = Globals { memory: vec![0; size] };
        assert(g.cells() =~= Seq::new(size as nat, |_i: int| 0i64));
        g
    }

    /// Sets every slot to zero.
    pub fn clear(&mut self)
        ensures
            final(self).cells() == Seq::new(old(self).cells().len(), |_i: int| 0i64),
    {
        let n = self.memory.len();
        let mut i: usize = 0;
        while i < n
            invariant
                n == self.memory@.len(),
                n == old(self).memory@.len(),
                i <= n,
                forall|j: int| 0 <= j < i ==> self.memory@[j] == 0,
            decreases n - i,
        {
            self.memory.set(i, 0);
            i = i + 1;
        }
        assert(self.cells() =~= Seq::new(old(self).cells().len(), |_i: int| 0i64));
    }

    pub fn read(&self, address: usize) -> (r: Result<i64>)
        ensures
            match spec_read(self.cells(), address as nat) {
                Ok(v) => r == Ok::<i64, MiniVmError>(v),
                Err(m) => r matches Err(e) && e.is_generic(m),
            },
    {
        if address < self.memory.len() {
            Ok(self.memory[address])
        } else {
            let mut m = String::from_str(
                "Runtime Error: Out-of-bounds global memory read attempt at address 0x",
            );
            push_hex_padded(&mut m, address as u64, 4);
            push_str(&mut m, " (Max allocation size: ");
            push_dec_u64(&mut m, self.memory.len() as u64);
            push_str(&mut m, " slots)");
            Err(MiniVmError::Generic(m))
        }
    }

    pub fn write(&mut self, address: usize, value: i64) -> (r: Result<()>)
        ensures
            match spec_write(old(self).cells(), address as nat, value) {
                Ok(cells) => r is Ok && final(self).cells() == cells,
                Err(m) => r matches Err(e) && e.is_generic(m) && final(self).cells() == old(
                    self,
                ).cells(),
            },
    {
        if address < self.memory.len() {
            self.memory.set(address, value);
            Ok(())
        } else {
            let mut m = String::from_str(
                "Runtime Error: Out-of-bounds global memory write attempt at address 0x",
            );
            push_hex_padded(&mut m, address as u64, 4);
            push_str(&mut m, " (Max allocation size: ");
            push_dec_u64(&mut m, self.memory.len() as u64);
            push_str(&mut m, " slots)");
            Err(MiniVmError::Generic(m))
        }
    }

    pub fn len(&self) -> (n: usize)
        ensures
            n == self.cells().len(),
    {
        self.memory.len()
    }
}

/// Memory reads back what was written: after a successful write, reading
/// the same address gives the written value, reading any other address
/// gives what it held before, and the size is unchanged.
pub proof fn law_globals_read_after_write(cells: Seq<i64>, address: nat, value: i64, other: nat)
    requires
        spec_write(cells, address, value) is Ok,
    ensures
        spec_read(spec_write(cells, address, value)->Ok_0, address) == Ok::<i64, Seq<char>>(
            value,
        ),
        other != address ==> spec_read(spec_write(cells, address, value)->Ok_0, other)
            == spec_read(cells, other),
{
}

} // verus!
