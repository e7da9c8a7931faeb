use vstd::prelude::*;

verus! {

/// A failure while reading the token sequence: either a lookahead past the
/// end of the sequence, or a mismatch against a required literal token.
#[derive(Debug, Clone)]
pub enum ParseError {
    /// A token was requested at an index that is not within the sequence;
    /// carries the attempted index and the number of tokens available.
    OutOfRange { index: usize, available: usize },
    /// The current token did not match the required literal; carries the
    /// expected text, the actual text, and the cursor position.
    UnexpectedToken { expected: String, actual: String, position: usize },
}

/// The mathematical picture of a `ParseError`: positions as integers and
/// token text as character sequences.
pub enum ErrSpec {
    OutOfRange { index: int, available: int },
    UnexpectedToken { expected: Seq<char>, actual: Seq<char>, position: int },
}

impl View for ParseError {
    type V = ErrSpec;

    open spec fn view(&self) -> ErrSpec {
        match self {
            ParseError::OutOfRange { index, available } => ErrSpec::OutOfRange {
                index: *index as int,
                available: *available as int,
            },
            ParseError::UnexpectedToken { expected, actual, position } => ErrSpec::UnexpectedToken {
                expected: expected@,
                actual: actual@,
                position: *position as int,
            },
        }
    }
}

/// Wraps an error as the `Err` case of a `Result`, the shape every failing
/// cursor operation returns.
pub fn errorize<T>(err: ParseError) -> (r: Result<T, ParseError>)
    ensures
        r == Err::<T, ParseError>(err),
{
    Err(err)
}

} // verus!
