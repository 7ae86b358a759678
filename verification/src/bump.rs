//! A bump arena: blocks are handed out one behind the other and never given
//! back one by one.
use vstd::prelude::*;

verus! {

/// An arena of `size` bytes, of which `offset` are handed out.
pub struct BumpAllocator {
    pub size: usize,
    pub offset: usize,
}

/// The first multiple of `align` at or behind `offset`.
pub open spec fn align_up(offset: int, align: int) -> int {
    if offset % align == 0 {
        offset
    } else {
        offset + (align - offset % align)
    }
}

/// The aligned offset is a multiple of the alignment, and no smaller one is at
/// or behind the offset.
pub proof fn align_up_is_least(offset: int, align: int, other: int)
    requires
        0 <= offset,
        0 < align,
        offset <= other * align,
    ensures
        align_up(offset, align) % align == 0,
        offset <= align_up(offset, align) < offset + align,
        align_up(offset, align) <= other * align,
{
    let q = offset / align;
    let m = offset % align;
    assert(offset == align * q + m && 0 <= m < align) by {
        vstd::arithmetic::div_mod::lemma_fundamental_div_mod(offset, align);
    }
    if m == 0 {
    } else {
        assert(align_up(offset, align) == align * (q + 1)) by (nonlinear_arith)
            requires
                align_up(offset, align) == offset + (align - m),
                offset == align * q + m,
        ;
        assert((align * (q + 1)) % align == 0) by {
            vstd::arithmetic::div_mod::lemma_mod_multiples_basic(q + 1, align);
            assert(align * (q + 1) == (q + 1) * align) by (nonlinear_arith);
        }
        assert(other >= q + 1) by (nonlinear_arith)
            requires
                offset == align * q + m,
                0 < m,
                0 < align,
                offset <= other * align,
        ;
        assert(align * (q + 1) <= other * align) by (nonlinear_arith)
            requires
                other >= q + 1,
                0 < align,
        ;
    }
}

impl BumpAllocator {
    pub open spec fn wf(self) -> bool {
        self.offset <= self.size
    }

    /// Whether a block still fits.
    pub open spec fn fits(self, size: usize, align: usize) -> bool {
        align_up(self.offset as int, align as int) + size <= self.size
    }

    pub fn new(size: usize) -> (b: Self)
        ensures
            b.wf(),
            b.size == size,
            b.offset == 0,
    {
        BumpAllocator { size, offset: 0 }
    }

    /// Hands out a block and returns where it begins. Nothing changes where it
    /// does not fit.
    pub fn take_block(&mut self, size: usize, align: usize) -> (r: Option<usize>)
        requires
            old(self).wf(),
            align > 0,
        ensures
            final(self).wf(),
            final(self).size == old(self).size,
            match r {
                Some(at) => {
                    &&& old(self).fits(size, align)
                    &&& at == align_up(old(self).offset as int, align as int)
                    &&& final(self).offset == at + size
                },
                None => !old(self).fits(size, align) && final(self).offset == old(self).offset,
            },
    {
        let m: usize = self.offset % align;
        let pad: usize = if m == 0 {
            0
        } else {
            align - m
        };
        let left: usize = self.size - self.offset;
        if pad > left || size > left - pad {
            return None;
        }
        let at: usize = self.offset + pad;
        self.offset = at + size;
        Some(at)
    }

    /// The current fill level.
    pub fn checkpoint(&self) -> (r: usize)
        ensures
            r == self.offset,
    {
        self.offset
    }

    /// Gives back everything that was handed out after a checkpoint.
    pub fn reset_to(&mut self, mark: usize)
        requires
            old(self).wf(),
            mark <= old(self).offset,
        ensures
            final(self).wf(),
            final(self).size == old(self).size,
            final(self).offset == mark,
    {
        self.offset = mark;
    }
}

/// Two blocks that are handed out one after the other do not overlap, and both
/// lie in the arena.
pub proof fn blocks_are_disjoint(
    before: BumpAllocator,
    size: usize,
    align: usize,
    next_size: usize,
    next_align: usize,
)
    requires
        before.wf(),
        align > 0,
        next_align > 0,
        before.fits(size, align),
        (BumpAllocator {
            size: before.size,
            offset: (align_up(before.offset as int, align as int) + size) as usize,
        }).fits(next_size, next_align),
    ensures
        ({
            let first = align_up(before.offset as int, align as int);
            let second = align_up(first + size, next_align as int);
            &&& before.offset <= first
            &&& first + size <= second
            &&& second + next_size <= before.size
        }),
{
    let first = align_up(before.offset as int, align as int);
    vstd::arithmetic::div_mod::lemma_mod_bound(before.offset as int, align as int);
    vstd::arithmetic::div_mod::lemma_mod_bound(first + size, next_align as int);
}

/// A block is handed out exactly where it fits behind what is handed out,
/// moved up to the alignment by less than the alignment.
pub proof fn blocks_fit_behind(b: BumpAllocator, size: usize, align: usize, at: int)
    requires
        align > 0,
        b.offset <= at < b.offset + align,
        at % (align as int) == 0,
    ensures
        align_up(b.offset as int, align as int) == at,
        b.fits(size, align) <==> at + size <= b.size,
{
    let o = b.offset as int;
    let a = align as int;
    let u = align_up(o, a);
    vstd::arithmetic::div_mod::lemma_fundamental_div_mod(at, a);
    align_up_is_least(o, a, at / a);
    assert(at == (at / a) * a) by (nonlinear_arith)
        requires
            at == a * (at / a) + at % a,
            at % a == 0,
    ;
    vstd::arithmetic::div_mod::lemma_fundamental_div_mod(u, a);
    let k = at / a;
    let m = u / a;
    assert(u == m * a) by (nonlinear_arith)
        requires
            u == a * (u / a) + u % a,
            u % a == 0,
            m == u / a,
    ;
    assert(k == m) by (nonlinear_arith)
        requires
            at == k * a,
            u == m * a,
            0 < a,
            -a < at - u < a,
    ;
}

} // verus!
