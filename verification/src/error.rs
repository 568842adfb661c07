//! Errors of the fallible constructors and of fallible growth.

use vstd::prelude::*;
use vstd::string::*;

use crate::reserve::ReserveFractionError;

verus! {

/// Error returned by fallible map constructors.
#[derive(Debug, Clone, Copy, PartialEq, Eq, Structural)]
pub enum TryBuildError {
    /// A floating-point compatibility input was not an exact dyadic fraction.
    InvalidReserveFraction(ReserveFractionError),
    /// Funnel Hashing requires `delta <= 1/8`.
    FunnelDeltaLog2BelowMinimum {
        /// Rejected exponent in `delta = 1 / 2^d`.
        delta_log2: u32,
        /// Smallest exponent supported by Funnel Hashing.
        minimum: u32,
    },
    /// Capacity computation overflowed `usize`.
    CapacityOverflow,
    /// Allocation failed.
    AllocError,
}

/// Error returned by `try_reserve` when the map can't grow.
#[derive(Debug, Clone, Copy, PartialEq, Eq, Structural)]
pub enum TryReserveError {
    /// Capacity computation overflowed `usize`.
    CapacityOverflow,
    /// Allocation failed.
    AllocError,
}

/// The construction error that a growth error becomes.
pub open spec fn build_error_of(error: TryReserveError) -> TryBuildError {
    match error {
        TryReserveError::CapacityOverflow => TryBuildError::CapacityOverflow,
        TryReserveError::AllocError => TryBuildError::AllocError,
    }
}

impl From<ReserveFractionError> for TryBuildError {
    fn from(error: ReserveFractionError) -> (result: Self) {
        TryBuildError::InvalidReserveFraction(error)
    }
}

impl vstd::std_specs::convert::FromSpecImpl<ReserveFractionError> for TryBuildError {
    open spec fn obeys_from_spec() -> bool {
        true
    }

    open spec fn from_spec(error: ReserveFractionError) -> Self {
        TryBuildError::InvalidReserveFraction(error)
    }
}

impl From<TryReserveError> for TryBuildError {
    fn from(error: TryReserveError) -> (result: Self) {
        match error {
            TryReserveError::CapacityOverflow => TryBuildError::CapacityOverflow,
            TryReserveError::AllocError => TryBuildError::AllocError,
        }
    }
}

impl vstd::std_specs::convert::FromSpecImpl<TryReserveError> for TryBuildError {
    open spec fn obeys_from_spec() -> bool {
        true
    }

    open spec fn from_spec(error: TryReserveError) -> Self {
        build_error_of(error)
    }
}

/// The decimal digits of a number, without leading zeros.
pub open spec fn decimal(value: nat) -> Seq<char>
    decreases value,
{
    let digit = (('0' as int + value as int % 10) as char);
    if value < 10 {
        seq![digit]
    } else {
        decimal(value / 10).push(digit)
    }
}

impl TryReserveError {
    /// The error's message.
    pub open spec fn spec_message(self) -> Seq<char> {
        match self {
            TryReserveError::CapacityOverflow => "capacity overflow"@,
            TryReserveError::AllocError => "memory allocation failed"@,
        }
    }

    /// A human-readable description of the error.
    pub fn message(self) -> (result: &'static str)
        ensures
            result@ == self.spec_message(),
    {
        match self {
            TryReserveError::CapacityOverflow => "capacity overflow",
            TryReserveError::AllocError => "memory allocation failed",
        }
    }
}

/// One decimal digit.
fn digit_text(digit: usize) -> (result: &'static str)
    requires
        digit < 10,
    ensures
        result@ == seq![('0' as int + digit) as char],
{
    proof {
        reveal_strlit("0");
        reveal_strlit("1");
        reveal_strlit("2");
        reveal_strlit("3");
        reveal_strlit("4");
        reveal_strlit("5");
        reveal_strlit("6");
        reveal_strlit("7");
        reveal_strlit("8");
        reveal_strlit("9");
    }
    match digit {
        0 => "0",
        1 => "1",
        2 => "2",
        3 => "3",
        4 => "4",
        5 => "5",
        6 => "6",
        7 => "7",
        8 => "8",
        _ => "9",
    }
}

/// The decimal digits of a number.
pub(crate) fn decimal_text(value: usize) -> (result: String)
    ensures
        result@ == decimal(value as nat),
    decreases value,
{
    let mut text: String = if value < 10 {
        String::new()
    } else {
        decimal_text(value / 10)
    };
    text.append(digit_text(value % 10));
    proof {
        assert(decimal(value as nat) =~= text@);
    }
    text
}

impl TryBuildError {
    /// The error's message.
    pub open spec fn spec_message(self) -> Seq<char> {
        match self {
            TryBuildError::InvalidReserveFraction(error) => error.spec_message(),
            TryBuildError::FunnelDeltaLog2BelowMinimum { delta_log2, minimum } => {
                "Funnel reserve exponent "@ + decimal(delta_log2 as nat)
                    + " is below the minimum "@ + decimal(minimum as nat)
            },
            TryBuildError::CapacityOverflow => "capacity overflow"@,
            TryBuildError::AllocError => "memory allocation failed"@,
        }
    }

    /// A human-readable description of the error.
    pub fn message(self) -> (result: String)
        ensures
            result@ == self.spec_message(),
    {
        match self {
            TryBuildError::InvalidReserveFraction(error) => String::from_str(error.message()),
            TryBuildError::FunnelDeltaLog2BelowMinimum { delta_log2, minimum } => {
                let mut text: String = String::from_str("Funnel reserve exponent ");
                text.append(decimal_text(delta_log2 as usize).as_str());
                text.append(" is below the minimum ");
                text.append(decimal_text(minimum as usize).as_str());
                text
            },
            TryBuildError::CapacityOverflow => String::from_str("capacity overflow"),
            TryBuildError::AllocError => String::from_str("memory allocation failed"),
        }
    }
}

/// The number that decimal digits denote.
pub open spec fn number_of(digits: Seq<char>) -> int
    decreases digits.len(),
{
    if digits.len() == 0 {
        0
    } else {
        10 * number_of(digits.drop_last()) + (digits.last() as int - '0' as int)
    }
}

/// The digits of a number denote it, and do not start with a zero unless it is zero.
pub proof fn law_decimals_denote_their_number(value: nat)
    ensures
        number_of(decimal(value)) == value,
        decimal(value).len() > 0,
        forall|i: int|
            0 <= i < decimal(value).len() ==> '0' as int <= #[trigger] decimal(value)[i] as int
                <= '9' as int,
        value > 0 ==> decimal(value)[0] != '0',
    decreases value,
{
    let digits = decimal(value);
    if value < 10 {
        assert(digits.drop_last() =~= Seq::<char>::empty());
        assert(number_of(Seq::<char>::empty()) == 0);
    } else {
        law_decimals_denote_their_number(value / 10);
        assert(digits.drop_last() =~= decimal(value / 10));
    }
}

/// A request that a table refuses is refused by its builder for the same reason.
pub proof fn law_build_errors_keep_their_reason(error: TryReserveError)
    ensures
        build_error_of(error) == TryBuildError::AllocError <==> error
            == TryReserveError::AllocError,
        build_error_of(error) == TryBuildError::CapacityOverflow <==> error
            == TryReserveError::CapacityOverflow,
{
}

} // verus!
