use vstd::prelude::*;

verus! {

/// The largest line length and width that the cost model accepts: with both
/// bounded by it, the badness of a line and the total badness of a paragraph
/// fit in a `u128`.
pub const MAX_MEASURE: usize = 4294967295;

/// Badness of a line of `len` characters against `width`: an overflow costs a
/// million per character past the width, a short line the cube of its slack.
pub open spec fn badness_of(len: int, width: int) -> int {
    if len > width {
        1_000_000 * (len - width)
    } else {
        (width - len) * (width - len) * (width - len)
    }
}

/// An upper bound on the badness of any line within `MAX_MEASURE`.
pub open spec fn max_badness() -> int {
    (MAX_MEASURE as int) * (MAX_MEASURE as int) * (MAX_MEASURE as int)
}

pub proof fn lemma_badness_bounds(len: int, width: int)
    requires
        0 <= len <= MAX_MEASURE,
        0 <= width <= MAX_MEASURE,
    ensures
        0 <= badness_of(len, width) <= max_badness(),
        len > width ==> badness_of(len, width) >= 1_000_000,
{
    let m = MAX_MEASURE as int;
    if len > width {
        assert(1_000_000 * (len - width) <= 1_000_000 * m) by (nonlinear_arith)
            requires len - width <= m;
        assert(1_000_000 * m <= m * m * m) by (nonlinear_arith)
            requires m == 4294967295;
    } else {
        let d = width - len;
        assert(0 <= d * d * d <= m * m * m) by (nonlinear_arith)
            requires 0 <= d <= m;
    }
}

/// The badness of a line of `line_length` characters for the target `width`.
pub fn badness(line_length: usize, width: usize) -> (r: u128)
    requires
        line_length <= MAX_MEASURE,
        width <= MAX_MEASURE,
    ensures
        r == badness_of(line_length as int, width as int),
{
    proof {
        lemma_badness_bounds(line_length as int, width as int);
    }
    if line_length > width {
        1_000_000u128 * ((line_length - width) as u128)
    } else {
        let d = (width - line_length) as u128;
        proof {
            let m = MAX_MEASURE as int;
            assert(d * d <= m * m) by (nonlinear_arith)
                requires 0 <= d <= m;
            assert(m * m <= u128::MAX) by (nonlinear_arith)
                requires m == 4294967295;
        }
        d * d * d
    }
}

} // verus!
