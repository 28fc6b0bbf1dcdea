use vstd::prelude::*;

verus! {

/// Round `offset` down to the nearest multiple of `alignment`.
pub fn align_down(offset: u64, alignment: u64) -> (r: u64)
    requires
        alignment > 0,
    ensures
        r % alignment == 0,
        r <= offset,
        offset - r < alignment,
        r == offset - offset % alignment,
{
    proof {
        assert((offset / alignment) * alignment == offset - offset % alignment
            && offset % alignment < alignment && offset % alignment >= 0)
            by (nonlinear_arith)
            requires alignment > 0;
        assert(((offset - offset % alignment) % (alignment as int)) == 0) by (nonlinear_arith)
            requires alignment > 0, offset % alignment < alignment, offset % alignment >= 0;
    }
    (offset / alignment) * alignment
}

/// Round `length` up to the nearest multiple of `alignment`.
pub fn align_up(length: u64, alignment: u64) -> (r: u64)
    requires
        alignment > 0,
        length + alignment - 1 <= u64::MAX,
    ensures
        r % alignment == 0,
        length <= r,
        r - length < alignment,
{
    let bumped: u64 = length + (alignment - 1);
    proof {
        assert((bumped / alignment) * alignment == bumped - bumped % alignment
            && bumped % alignment < alignment && bumped % alignment >= 0)
            by (nonlinear_arith)
            requires alignment > 0;
        assert(((bumped - bumped % alignment) % (alignment as int)) == 0) by (nonlinear_arith)
            requires alignment > 0, bumped % alignment < alignment;
    }
    (bumped / alignment) * alignment
}

} // verus!
