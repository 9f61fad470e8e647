//! Small integer helpers shared by the allocators.

use vstd::prelude::*;

verus! {

/// Ceiling division as a mathematical function.
pub open spec fn spec_div_ceil(x: int, y: int) -> int {
    (x + y - 1) / y
}

/// Ceiling division: the least `q` with `q * y >= x`, for positive `y`.
pub fn div_ceil(x: usize, y: usize) -> (q: usize)
    requires
        y > 0,
    ensures
        q == spec_div_ceil(x as int, y as int),
        x <= q * y < x + y,
        q <= x,
{
    if x == 0 {
        proof {
            vstd::arithmetic::div_mod::lemma_fundamental_div_mod_converse(
                y as int - 1,
                y as int,
                0,
                y as int - 1,
            );
        }
        0
    } else {
        proof {
            let xi = x as int;
            let yi = y as int;
            vstd::arithmetic::div_mod::lemma_fundamental_div_mod(xi - 1, yi);
            let d = (xi - 1) / yi;
            let r = (xi - 1) % yi;
            assert(0 <= d <= xi - 1 && d * yi <= xi - 1) by (nonlinear_arith)
                requires
                    yi >= 1,
                    xi - 1 >= 0,
                    xi - 1 == yi * d + r,
                    0 <= r < yi,
            ;
            // (x + y - 1) = (d + 1) * y + r, so ceil division returns d + 1
            assert((xi + yi - 1) == (d + 1) * yi + r) by (nonlinear_arith)
                requires
                    xi - 1 == yi * d + r,
            ;
            vstd::arithmetic::div_mod::lemma_fundamental_div_mod_converse(
                xi + yi - 1,
                yi,
                d + 1,
                r,
            );
            assert(xi <= (d + 1) * yi < xi + yi) by (nonlinear_arith)
                requires
                    xi - 1 == yi * d + r,
                    0 <= r < yi,
            ;
            assert(d + 1 <= xi);
        }
        (x - 1) / y + 1
    }
}

/// Rounds `number` up to the next multiple of `multiple`.
pub fn round_up(number: usize, multiple: usize) -> (r: usize)
    requires
        multiple > 0,
        number + multiple - 1 <= usize::MAX,
    ensures
        r == spec_div_ceil(number as int, multiple as int) * multiple,
        (r as int) % (multiple as int) == 0,
        number <= r < number + multiple,
{
    let q = div_ceil(number, multiple);
    proof {
        assert(q * multiple <= number + multiple - 1 <= usize::MAX);
        vstd::arithmetic::div_mod::lemma_mod_multiples_basic(q as int, multiple as int);
    }
    q * multiple
}

} // verus!
