//! Virtualization: given a scroll offset, a viewport height, and a total row
//! count, decide which rows are visible. The diff panel renders only this
//! window, so the cost of a frame does not depend on the size of the diff.

use std::ops::Range;

use vstd::prelude::*;

verus! {

pub open spec fn min_of(a: int, b: int) -> int {
    if a <= b {
        a
    } else {
        b
    }
}

pub open spec fn max_of(a: int, b: int) -> int {
    if a >= b {
        a
    } else {
        b
    }
}

/// The largest offset: the last row sits at the bottom of the viewport.
pub open spec fn max_offset(height: int, total: int) -> int {
    max_of(total - height, 0)
}

/// The offset, held at the largest one.
pub open spec fn clamped(offset: int, height: int, total: int) -> int {
    min_of(offset, max_offset(height, total))
}

/// Clamp a scroll offset so the last row can sit at the bottom of the viewport
/// but we never scroll past the end.
pub fn clamp_offset(offset: usize, height: usize, total: usize) -> (r: usize)
    ensures
        r == clamped(offset as int, height as int, total as int),
{
    let max = if total > height {
        total - height
    } else {
        0
    };
    if offset <= max {
        offset
    } else {
        max
    }
}

/// The half-open range of row indices visible for a given (clamped) scroll.
pub fn visible_range(offset: usize, height: usize, total: usize) -> (r: Range<usize>)
    ensures
        r.start == clamped(offset as int, height as int, total as int),
        r.end == min_of(r.start + height, total as int),
{
    let start = clamp_offset(offset, height, total);
    let end = if start + height <= total {
        start + height
    } else {
        total
    };
    start..end
}

/// The window never has more rows than the viewport or the content, is full
/// whenever there is enough content, and lies inside the content. It begins at the
/// offset, unless it would run past the end: then it ends there.
pub proof fn law_window(offset: int, height: int, total: int)
    requires
        0 <= offset,
        0 <= height,
        0 <= total,
    ensures
        ({
            let start = clamped(offset, height, total);
            let end = min_of(start + height, total);
            &&& 0 <= start <= end <= total
            &&& end - start == min_of(height, total)
            &&& start <= offset
            &&& clamped(start, height, total) == start
            &&& offset + height <= total ==> start == offset
            &&& offset + height > total ==> end == total
        }),
{
}

} // verus!
