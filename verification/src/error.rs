//! Errors of the evaluator and the codes of its C interface.
use vstd::prelude::*;
use vstd::string::*;

verus! {

/// What went wrong while evaluating an expression.
#[derive(Debug)]
pub enum EvaluatorError {
    JavaScriptError(String),
    ParseError(String),
    VariableError(String),
    TypeError(String),
    StateError(String),
    FunctionError(String),
}

/// The message prefix of each kind of error.
pub open spec fn error_prefix(e: EvaluatorError) -> Seq<char> {
    match e {
        EvaluatorError::JavaScriptError(_) => "JavaScript runtime error: "@,
        EvaluatorError::ParseError(_) => "Expression parsing error: "@,
        EvaluatorError::VariableError(_) => "Variable resolution error: "@,
        EvaluatorError::TypeError(_) => "Type conversion error: "@,
        EvaluatorError::StateError(_) => "State management error: "@,
        EvaluatorError::FunctionError(_) => "Function registration error: "@,
    }
}

/// The detail text an error carries.
pub open spec fn error_detail(e: EvaluatorError) -> Seq<char> {
    match e {
        EvaluatorError::JavaScriptError(m) => m@,
        EvaluatorError::ParseError(m) => m@,
        EvaluatorError::VariableError(m) => m@,
        EvaluatorError::TypeError(m) => m@,
        EvaluatorError::StateError(m) => m@,
        EvaluatorError::FunctionError(m) => m@,
    }
}

impl EvaluatorError {
    /// The human-readable message: the kind's prefix, then the detail.
    pub fn message(&self) -> (s: String)
        ensures
            s@ == error_prefix(*self) + error_detail(*self),
    {
        let (prefix, detail) = match self {
            EvaluatorError::JavaScriptError(m) => ("JavaScript runtime error: ", m),
            EvaluatorError::ParseError(m) => ("Expression parsing error: ", m),
            EvaluatorError::VariableError(m) => ("Variable resolution error: ", m),
            EvaluatorError::TypeError(m) => ("Type conversion error: ", m),
            EvaluatorError::StateError(m) => ("State management error: ", m),
            EvaluatorError::FunctionError(m) => ("Function registration error: ", m),
        };
        let mut s = String::from_str(prefix);
        s.append(detail.as_str());
        s
    }
}

/// A JavaScript runtime error with message `msg`.
pub fn js_err<T>(msg: String) -> (r: Result<T, EvaluatorError>)
    ensures
        r matches Err(EvaluatorError::JavaScriptError(m)) && m@ == msg@,
{
    Err(EvaluatorError::JavaScriptError(msg))
}

/// Status codes of the C interface.
#[derive(Debug, Clone, Copy, PartialEq, Eq, Structural)]
pub enum EquationError {
    Success,
    NullPointer,
    InvalidUtf8,
    EvaluationError,
    FunctionRegistrationError,
    MemoryError,
    UnknownError,
}

impl EquationError {
    /// The numeric code a C caller sees.
    pub open spec fn spec_code(self) -> u32 {
        match self {
            EquationError::Success => 0,
            EquationError::NullPointer => 1,
            EquationError::InvalidUtf8 => 2,
            EquationError::EvaluationError => 3,
            EquationError::FunctionRegistrationError => 4,
            EquationError::MemoryError => 5,
            EquationError::UnknownError => 6,
        }
    }

    /// The numeric code a C caller sees.
    pub fn code(&self) -> (c: u32)
        ensures
            c == self.spec_code(),
    {
        match self {
            EquationError::Success => 0,
            EquationError::NullPointer => 1,
            EquationError::InvalidUtf8 => 2,
            EquationError::EvaluationError => 3,
            EquationError::FunctionRegistrationError => 4,
            EquationError::MemoryError => 5,
            EquationError::UnknownError => 6,
        }
    }
}

/// Distinct statuses have distinct codes.
pub proof fn lemma_codes_distinct(a: EquationError, b: EquationError)
    ensures
        a.spec_code() == b.spec_code() ==> a == b,
{
}

} // verus!
