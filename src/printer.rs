use vstd::prelude::*;

verus! {

/// What a state dump is taken at: the clock cycle, the context, and the frame pointer.
pub struct Printer {
    pub clk: u32,
    pub ctx: u32,
    pub fmp: u32,
}

impl Printer {
    /// The frame pointer is kept in its low 32 bits.
    pub fn new(clk: u32, ctx: u32, fmp: u64) -> (r: Printer)
        ensures
            r.clk == clk,
            r.ctx == ctx,
            r.fmp == fmp as u32,
            r.fmp == fmp % 0x1_0000_0000,
    {
        let r = Printer { clk, ctx, fmp: fmp as u32 };
        assert(fmp as u32 == fmp % 0x1_0000_0000) by (bit_vector);
        r
    }

    /// How many stack items are shown: all of them, or the top `n` where `n` is given and
    /// smaller.
    pub fn stack_items_to_print(stack_len: usize, n: Option<usize>) -> (r: usize)
        ensures
            r == match n {
                Some(k) => if k < stack_len {
                    k
                } else {
                    stack_len
                },
                None => stack_len,
            },
    {
        match n {
            Some(k) => if k < stack_len {
                k
            } else {
                stack_len
            },
            None => stack_len,
        }
    }

    /// Address of the first of `num_locals` locals of the running procedure: the frame pointer
    /// points at the last.
    pub fn local_memory_offset(&self, num_locals: u32) -> (r: u32)
        requires
            0 <= self.fmp - num_locals + 1 <= u32::MAX,
        ensures
            r == self.fmp - num_locals + 1,
    {
        if num_locals == 0 {
            self.fmp + 1
        } else {
            self.fmp - (num_locals - 1)
        }
    }
}

/// The addresses from `first` to `last`, both included, in increasing order, each paired with
/// `offset` added to it (an index and the address it stands for); empty where `first > last`.
pub fn interval_addresses(first: u32, last: u32, offset: u32) -> (r: Vec<(u32, u32)>)
    requires
        last < u32::MAX,
        last + offset <= u32::MAX,
    ensures
        r@.len() == if first <= last {
            last - first + 1
        } else {
            0
        },
        forall|i: int| 0 <= i < r@.len() ==> (#[trigger] r@[i]).0 == first + i && r@[i].1 == first + i + offset,
{
    let mut r: Vec<(u32, u32)> = Vec::new();
    let mut a: u32 = first;
    while a <= last
        invariant
            last < u32::MAX,
            last + offset <= u32::MAX,
            first <= a || r@.len() == 0,
            first <= last ==> a <= last + 1,
            first > last ==> a == first,
            r@.len() == a - first || (first > last && r@.len() == 0),
            forall|i: int| 0 <= i < r@.len() ==> (#[trigger] r@[i]).0 == first + i && r@[i].1 == first + i + offset,
        decreases last + 1 - a,
    {
        r.push((a, a + offset));
        a += 1;
    }
    r
}

} // verus!
