//! Fixed-point trigonometry.
//!
//! Angles are whole numbers of a unit of which `HALF_TURN` make up pi.
//! A phase is an angle reduced to one turn, from minus pi up to but not
//! including pi, held in an `i32`. Cosines and sines are scaled by `UNIT`,
//! the value that stands for one.
//!
//! The planner holds no floating-point number, so the cosine, the sine and
//! the arctangent come from the integer routines of the crate `idsp`. What
//! they return is taken on trust and only named here; everything computed
//! from it is computed, and proved, in the planner.
use vstd::prelude::*;

verus! {

/// The angle pi.
pub const HALF_TURN: i64 = 0x8000_0000;

/// The scale of cosines and sines: the value that stands for one.
pub const UNIT: i64 = 0x8000_0000;

/// The cosine and the sine that the table gives for a phase, each scaled
/// by `UNIT`.
pub uninterp spec fn cos_sin_table(phase: i32) -> (i32, i32);

/// The phase that the approximation gives for the direction `(x, y)`.
pub uninterp spec fn arc_tangent(y: i32, x: i32) -> i32;

/// The angle reduced to one turn.
pub open spec fn wrap_phase(angle: int) -> int {
    (angle + 0x8000_0000) % 0x1_0000_0000 - 0x8000_0000
}

/// Calls `idsp::cossin`, an interpolated table look-up in integer
/// arithmetic that is defined for every phase. Claimed of it: only that
/// one phase always gives one pair of values, here named `cos_sin_table`.
#[verifier::external_body]
pub(crate) fn cos_sin(phase: i32) -> (r: (i32, i32))
    ensures
        r == cos_sin_table(phase),
{
    idsp::cossin(phase)
}

/// Calls `idsp::atan2`, a polynomial approximation in integer arithmetic
/// that is defined for every pair of arguments. Claimed of it: only that
/// one pair always gives one phase, here named `arc_tangent`.
#[verifier::external_body]
pub(crate) fn atan2(y: i32, x: i32) -> (r: i32)
    ensures
        r == arc_tangent(y, x),
{
    idsp::atan2(y, x)
}

/// Reduces an angle to its phase.
pub fn phase_of(angle: i64) -> (r: i32)
    ensures
        r == wrap_phase(angle as int),
{
    let shifted: u128 = (angle as i128 + 0x1_0000_0000_0000_0000 + 0x8000_0000) as u128;
    let low: u128 = shifted % 0x1_0000_0000;
    proof {
        // 2^64 is a whole number of turns
        vstd::arithmetic::div_mod::lemma_mod_multiples_vanish(
            0x1_0000_0000,
            angle as int + 0x8000_0000,
            0x1_0000_0000,
        );
        assert(0x1_0000_0000int * 0x1_0000_0000int == 0x1_0000_0000_0000_0000int) by (nonlinear_arith);
    }
    (low as i64 - 0x8000_0000) as i32
}

/// The cosine and the sine of an angle, each scaled by `UNIT`.
pub fn cos_sin_of(angle: i64) -> (r: (i32, i32))
    ensures
        r == cos_sin_table(wrap_phase(angle as int) as i32),
{
    cos_sin(phase_of(angle))
}

} // verus!
