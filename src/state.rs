use vstd::prelude::*;

verus! {

/// The memory of a running program: a fixed array of 32-bit cells and the
/// data pointer into it.
pub struct BFState {
    mem: Vec<u32>,
    ptr: usize,
}

/// The 32-bit cell value that `v` wraps around to, as the cell arithmetic
/// of the generated code does.
pub open spec fn wrap(v: int) -> u32 {
    (v % 0x1_0000_0000) as u32
}

impl View for BFState {
    /// The cells and the data pointer.
    type V = (Seq<u32>, nat);

    closed spec fn view(&self) -> (Seq<u32>, nat) {
        (self.mem@, self.ptr as nat)
    }
}

impl BFState {
    /// The pointer addresses a cell of the array.
    pub open spec fn in_bounds(&self) -> bool {
        self@.1 < self@.0.len()
    }

    /// `mem_size` cells, all zero, with the pointer at the first one.
    pub fn new(mem_size: usize) -> (r: Self)
        ensures
            r@.0 == Seq::new(mem_size as nat, |i: int| 0u32),
            r@.1 == 0,
    {
        let mut mem: Vec<u32> = Vec::with_capacity(mem_size);
        let mut i: usize = 0;
        while i < mem_size
            invariant
                i <= mem_size,
                mem@ == Seq::new(i as nat, |k: int| 0u32),
            decreases mem_size - i,
        {
            mem.push(0);
            i = i + 1;
            assert(mem@ =~= Seq::new(i as nat, |k: int| 0u32));
        }
        BFState { mem, ptr: 0 }
    }

    /// Moves the pointer one cell forward.
    pub fn fwd(&mut self)
        requires
            old(self)@.1 < usize::MAX,
        ensures
            final(self)@ == (old(self)@.0, old(self)@.1 + 1),
    {
        self.ptr = self.ptr + 1;
    }

    /// Moves the pointer one cell back.
    pub fn bwd(&mut self)
        requires
            old(self)@.1 > 0,
        ensures
            final(self)@ == (old(self)@.0, (old(self)@.1 - 1) as nat),
    {
        self.ptr = self.ptr - 1;
    }

    /// Adds one to the current cell.
    pub fn inc(&mut self)
        requires
            old(self).in_bounds(),
        ensures
            final(self)@ == (
                old(self)@.0.update(old(self)@.1 as int, wrap(old(self)@.0[old(self)@.1 as int] + 1)),
                old(self)@.1,
            ),
    {
        let v = self.mem[self.ptr];
        self.mem.set(self.ptr, v.wrapping_add(1));
    }

    /// Subtracts one from the current cell.
    pub fn dec(&mut self)
        requires
            old(self).in_bounds(),
        ensures
            final(self)@ == (
                old(self)@.0.update(old(self)@.1 as int, wrap(old(self)@.0[old(self)@.1 as int] - 1)),
                old(self)@.1,
            ),
    {
        let v = self.mem[self.ptr];
        self.mem.set(self.ptr, v.wrapping_sub(1));
    }

    /// The current cell.
    pub fn read(&self) -> (r: u32)
        requires
            self.in_bounds(),
        ensures
            r == self@.0[self@.1 as int],
    {
        self.mem[self.ptr]
    }

    /// Stores `val` in the current cell.
    pub fn write(&mut self, val: u32)
        requires
            old(self).in_bounds(),
        ensures
            final(self)@ == (old(self)@.0.update(old(self)@.1 as int, val), old(self)@.1),
    {
        self.mem.set(self.ptr, val);
    }

    /// Whether the pointer addresses a cell of the array.
    pub fn pointer_in_bounds(&self) -> (r: bool)
        ensures
            r == self.in_bounds(),
    {
        self.ptr < self.mem.len()
    }

    /// Whether the pointer is at the largest value it can hold.
    pub fn pointer_is_last(&self) -> (r: bool)
        ensures
            r == (self@.1 >= usize::MAX),
    {
        self.ptr == usize::MAX
    }

    /// Whether the pointer is at the first cell.
    pub fn pointer_at_start(&self) -> (r: bool)
        ensures
            r == (self@.1 == 0),
    {
        self.ptr == 0
    }

    /// The cells, in order.
    pub fn cells(&self) -> (r: &[u32])
        ensures
            r@ == self@.0,
    {
        self.mem.as_slice()
    }
}

} // verus!
