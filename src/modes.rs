//! Rounding modes, and which of them a floating-point unit provides natively.
use vstd::prelude::*;

verus! {

/// Rounding modes. The first four are the ones a floating-point unit can be
/// switched to; faithful rounding places no demand on the rounding; the last
/// two are not provided by any floating-point unit.
#[derive(Copy, Clone, Debug, PartialEq, Eq, Structural)]
pub enum Round {
    /// Ties to even, the default rounding mode in any program. Values are rounded to the nearest
    /// representable number; values falling precisely between two numbers are rounded to the value
    /// with a zero in the last place.
    TiesToEven,
    /// Rounds toward 0: positive values are rounded down to the nearest representable float,
    /// and negative values are rounded up. Also known as truncation.
    TowardZero,
    /// Rounds upward: all values are rounded up to the nearest representable float.
    TowardPInf,
    /// Rounds downward: all values are rounded down to the nearest representable float.
    TowardNInf,
    /// Imposes no restriction on the rounding; the value is within one ULP of the exact result.
    Faithful,
    /// Ties away from 0: values midway between consecutive values are rounded to the one of
    /// greater magnitude.
    TiesAway,
    /// Ties to odd: values midway between two representable values are rounded to the
    /// neighbour with a one in the last place.
    TiesToOdd,
}

/// The modes a floating-point unit can be switched to.
pub open spec fn fpu_mode(mode: Round) -> bool {
    mode is TiesToEven || mode is TowardZero || mode is TowardPInf || mode is TowardNInf
}

impl Round {
    /// Whether the mode is met by running the floating-point unit in one of
    /// its own modes; this includes faithful rounding, which any of them meets.
    pub fn is_native(&self) -> (r: bool)
        ensures
            r == (fpu_mode(*self) || *self is Faithful),
    {
        match self {
            Round::TiesAway | Round::TiesToOdd => false,
            _ => true,
        }
    }

    /// Whether the mode is one the floating-point unit itself provides;
    /// faithful rounding is not.
    pub fn is_fpu_native(&self) -> (r: bool)
        ensures
            r == fpu_mode(*self),
    {
        match self {
            Round::TiesToEven | Round::TowardZero | Round::TowardPInf | Round::TowardNInf => true,
            _ => false,
        }
    }
}

/// The mode selected by the two rounding-control bits (13 and 14) of an
/// SSE control and status register value.
pub open spec fn mxcsr_mode(mxcsr: u32) -> Round {
    let rc = (mxcsr / 0x2000) % 4;
    if rc == 0 {
        Round::TiesToEven
    } else if rc == 1 {
        Round::TowardNInf
    } else if rc == 2 {
        Round::TowardPInf
    } else {
        Round::TowardZero
    }
}

/// Reads the rounding mode out of an SSE control and status register value.
pub fn rounding_mode_from_mxcsr(mxcsr: u32) -> (r: Round)
    ensures
        r == mxcsr_mode(mxcsr),
        fpu_mode(r),
{
    let rc = (mxcsr >> 13) & 3;
    proof {
        assert((mxcsr >> 13) & 3 == (mxcsr / 0x2000) % 4) by (bit_vector);
    }
    if rc == 0 {
        Round::TiesToEven
    } else if rc == 1 {
        Round::TowardNInf
    } else if rc == 2 {
        Round::TowardPInf
    } else {
        Round::TowardZero
    }
}

/// Checks that the floating-point unit is back in its default mode, ties to
/// even, after a computation switched it; any other mode is handed back as
/// the error.
pub fn ensure_state_restored(mode: Round) -> (r: Result<(), Round>)
    ensures
        r is Ok <==> mode is TiesToEven,
        r matches Err(m) ==> m == mode,
{
    match mode {
        Round::TiesToEven => Ok(()),
        _ => Err(mode),
    }
}

} // verus!
