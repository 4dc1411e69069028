//! The errors of the tracker. Whatever fails leaves the state as it was.

use vstd::prelude::*;
use vstd::string::StringExecFns;

verus! {

/// What an operation of the tracker can fail with.
#[derive(Debug, PartialEq, Eq)]
pub enum ContractError {
    /// The caller is not the administrator.
    Unauthorized {  },
    /// A transfer names another asset than the tracked one.
    InvalidDenom { expected_denom: String },
    /// The address is already excluded.
    TokenAlreadyWhitelisted {  },
    /// The address is not excluded.
    TokenNotFound {  },
    /// More would be taken from a balance, or from the supply, than it holds.
    ArithmeticUnderflow {  },
    /// A balance, or the supply, would exceed the largest 128-bit number.
    ArithmeticOverflow {  },
}

/// An error as contracts speak of it.
pub enum Failure {
    Unauthorized,
    InvalidDenom { expected_denom: Seq<char> },
    TokenAlreadyWhitelisted,
    TokenNotFound,
    ArithmeticUnderflow,
    ArithmeticOverflow,
}

impl View for ContractError {
    type V = Failure;

    open spec fn view(&self) -> Failure {
        match self {
            ContractError::Unauthorized {  } => Failure::Unauthorized,
            ContractError::InvalidDenom { expected_denom } => Failure::InvalidDenom {
                expected_denom: expected_denom@,
            },
            ContractError::TokenAlreadyWhitelisted {  } => Failure::TokenAlreadyWhitelisted,
            ContractError::TokenNotFound {  } => Failure::TokenNotFound,
            ContractError::ArithmeticUnderflow {  } => Failure::ArithmeticUnderflow,
            ContractError::ArithmeticOverflow {  } => Failure::ArithmeticOverflow,
        }
    }
}

impl ContractError {
    /// The message of the error.
    pub fn message(&self) -> (r: String)
        ensures
            r@ == match self@ {
                Failure::Unauthorized => "Unauthorized"@,
                Failure::InvalidDenom { expected_denom } => "Invalid denom, expected "@
                    + expected_denom,
                Failure::TokenAlreadyWhitelisted => "Token already whitelisted"@,
                Failure::TokenNotFound => "Token not found"@,
                Failure::ArithmeticUnderflow => "Arithmetic underflow"@,
                Failure::ArithmeticOverflow => "Arithmetic overflow"@,
            },
    {
        match self {
            ContractError::Unauthorized {  } => "Unauthorized".to_owned(),
            ContractError::InvalidDenom { expected_denom } => {
                let mut r = "Invalid denom, expected ".to_owned();
                r.append(expected_denom.as_str());
                r
            },
            ContractError::TokenAlreadyWhitelisted {  } => "Token already whitelisted".to_owned(),
            ContractError::TokenNotFound {  } => "Token not found".to_owned(),
            ContractError::ArithmeticUnderflow {  } => "Arithmetic underflow".to_owned(),
            ContractError::ArithmeticOverflow {  } => "Arithmetic overflow".to_owned(),
        }
    }
}

} // verus!
