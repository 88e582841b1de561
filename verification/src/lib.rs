//! Host-side control logic for an interactive GPU path tracer.
//!
//! The crate covers the three algorithmic parts of that control logic:
//! a two-level uniform spatial grid over a sphere scene for broad-phase ray
//! queries (`grid`), the temporal-accumulation state machine that blends
//! successive noisy frames (`accum`), and a non-blocking, ring-buffered
//! performance-telemetry pipeline (`telemetry`). Geometry and durations are
//! carried as plain integers (fixed-point scene units, microseconds); the
//! graphics backend that consumes the data lives outside this crate.

use vstd::prelude::*;

pub mod accum;
pub mod builder;
pub mod grid;
pub mod rng;
pub mod telemetry;

verus! {

/// Number of work groups needed to cover `x` items at `d` items per group.
pub fn ceil_div(x: u32, d: u32) -> (r: u32)
    requires
        d >= 1,
        x + d - 1 <= u32::MAX,
    ensures
        r == (x as int + d - 1) / (d as int),
        r * d >= x,
        x > 0 ==> (r - 1) * d < x,
{
    let r = (x + (d - 1)) / d;
    proof {
        let xi = x as int;
        let di = d as int;
        let q = (xi + di - 1) / di;
        vstd::arithmetic::div_mod::lemma_fundamental_div_mod(xi + di - 1, di);
        vstd::arithmetic::div_mod::lemma_mod_bound(xi + di - 1, di);
        assert(r == q);
        assert(di * q == xi + di - 1 - ((xi + di - 1) % di));
        assert(q * di >= xi) by (nonlinear_arith)
            requires
                di * q == xi + di - 1 - ((xi + di - 1) % di),
                0 <= (xi + di - 1) % di < di,
        ;
        if x > 0 {
            assert((q - 1) * di < xi) by (nonlinear_arith)
                requires
                    di * q == xi + di - 1 - ((xi + di - 1) % di),
                    0 <= (xi + di - 1) % di < di,
            ;
        }
    }
    r
}

} // verus!
