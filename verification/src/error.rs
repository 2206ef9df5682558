use vstd::prelude::*;
use vstd::string::*;

verus! {

/// Errors returned by safe MetricChrono APIs.
#[derive(Clone, Debug, Eq, PartialEq)]
pub enum MetricChronoError {
    EmptyLadder,
    InvalidTier { index: usize, reason: &'static str },
    OutputTooSmall { needed: usize, actual: usize },
    ShapeMismatch { expected: usize, actual: usize, context: &'static str },
    InvalidArgument(&'static str),
}

/// Result alias used by the public MetricChrono APIs.
pub type Result<T> = core::result::Result<T, MetricChronoError>;

/// The character of one decimal digit.
pub open spec fn digit_char(d: nat) -> char {
    if d == 0 { '0' }
    else if d == 1 { '1' }
    else if d == 2 { '2' }
    else if d == 3 { '3' }
    else if d == 4 { '4' }
    else if d == 5 { '5' }
    else if d == 6 { '6' }
    else if d == 7 { '7' }
    else if d == 8 { '8' }
    else { '9' }
}

/// Decimal rendering of a natural number, most significant digit first.
pub open spec fn decimal(n: nat) -> Seq<char>
    decreases n,
{
    if n < 10 {
        seq![digit_char(n)]
    } else {
        decimal(n / 10) + seq![digit_char(n % 10)]
    }
}

/// Human-readable message of an error, as its `Display` text reads.
pub open spec fn error_message(e: MetricChronoError) -> Seq<char> {
    match e {
        MetricChronoError::EmptyLadder => "ladder must contain at least one tier"@,
        MetricChronoError::InvalidTier { index, reason } =>
            "invalid tier at index "@ + decimal(index as nat) + ": "@ + reason@,
        MetricChronoError::OutputTooSmall { needed, actual } =>
            "output buffer too small: need "@ + decimal(needed as nat) + ", got "@
                + decimal(actual as nat),
        MetricChronoError::ShapeMismatch { expected, actual, context } =>
            "shape mismatch for "@ + context@ + ": expected "@ + decimal(expected as nat)
                + ", got "@ + decimal(actual as nat),
        MetricChronoError::InvalidArgument(reason) => "invalid argument: "@ + reason@,
    }
}

fn digit_str(d: usize) -> (s: &'static str)
    requires
        d < 10,
    ensures
        s@ == seq![digit_char(d as nat)],
{
    proof {
        reveal_strlit("0");
        reveal_strlit("1");
        reveal_strlit("2");
        reveal_strlit("3");
        reveal_strlit("4");
        reveal_strlit("5");
        reveal_strlit("6");
        reveal_strlit("7");
        reveal_strlit("8");
        reveal_strlit("9");
    }
    if d == 0 { "0" }
    else if d == 1 { "1" }
    else if d == 2 { "2" }
    else if d == 3 { "3" }
    else if d == 4 { "4" }
    else if d == 5 { "5" }
    else if d == 6 { "6" }
    else if d == 7 { "7" }
    else if d == 8 { "8" }
    else { "9" }
}

fn append_decimal(s: &mut String, n: usize)
    ensures
        final(s)@ == old(s)@ + decimal(n as nat),
    decreases n,
{
    if n >= 10 {
        append_decimal(s, n / 10);
    }
    let d = digit_str(n % 10);
    s.append(d);
    proof {
        if n >= 10 {
            assert(final(s)@ =~= old(s)@ + decimal(n as nat));
        }
    }
}

impl MetricChronoError {
    /// The error's message, as its `Display` text reads.
    pub fn message(&self) -> (m: String)
        ensures
            m@ == error_message(*self),
    {
        match self {
            MetricChronoError::EmptyLadder => String::from_str("ladder must contain at least one tier"),
            MetricChronoError::InvalidTier { index, reason } => {
                let mut m = String::from_str("invalid tier at index ");
                append_decimal(&mut m, *index);
                m.append(": ");
                m.append(reason);
                m
            },
            MetricChronoError::OutputTooSmall { needed, actual } => {
                let mut m = String::from_str("output buffer too small: need ");
                append_decimal(&mut m, *needed);
                m.append(", got ");
                append_decimal(&mut m, *actual);
                m
            },
            MetricChronoError::ShapeMismatch { expected, actual, context } => {
                let mut m = String::from_str("shape mismatch for ");
                m.append(context);
                m.append(": expected ");
                append_decimal(&mut m, *expected);
                m.append(", got ");
                append_decimal(&mut m, *actual);
                m
            },
            MetricChronoError::InvalidArgument(reason) => {
                let mut m = String::from_str("invalid argument: ");
                m.append(reason);
                m
            },
        }
    }
}

/// Check that an output buffer of length `actual` can hold `needed` values.
pub fn ensure_output(needed: usize, actual: usize) -> (r: Result<()>)
    ensures
        actual >= needed <==> r is Ok,
        actual < needed ==> r == Err::<(), MetricChronoError>(
            MetricChronoError::OutputTooSmall { needed, actual },
        ),
{
    if actual < needed {
        Err(MetricChronoError::OutputTooSmall { needed, actual })
    } else {
        Ok(())
    }
}

/// Check that a shape has exactly the `expected` length.
pub fn ensure_shape(expected: usize, actual: usize, context: &'static str) -> (r: Result<()>)
    ensures
        expected == actual <==> r is Ok,
        expected != actual ==> r == Err::<(), MetricChronoError>(
            MetricChronoError::ShapeMismatch { expected, actual, context },
        ),
{
    if expected != actual {
        Err(MetricChronoError::ShapeMismatch { expected, actual, context })
    } else {
        Ok(())
    }
}

fn bytes_equal(a: &[u8], b: &[u8]) -> (r: bool)
    ensures
        r == (a@ == b@),
{
    if a.len() != b.len() {
        return false;
    }
    let mut i: usize = 0;
    while i < a.len()
        invariant
            a@.len() == b@.len(),
            i <= a@.len(),
            forall|j: int| 0 <= j < i ==> a@[j] == b@[j],
        decreases a@.len() - i,
    {
        if a[i] != b[i] {
            return false;
        }
        i = i + 1;
    }
    assert(a@ =~= b@);
    true
}

/// Check that a document names the schema version that is expected.
pub fn ensure_schema(actual: &str, expected: &'static str) -> (r: Result<()>)
    ensures
        actual@ == expected@ <==> r is Ok,
        actual@ != expected@ ==> r == Err::<(), MetricChronoError>(
            MetricChronoError::InvalidArgument("unsupported schema version"),
        ),
{
    let same = bytes_equal(actual.as_bytes(), expected.as_bytes());
    proof {
        vstd::utf8::encode_utf8_decode_utf8(actual@);
        vstd::utf8::encode_utf8_decode_utf8(expected@);
    }
    if same {
        Ok(())
    } else {
        Err(MetricChronoError::InvalidArgument("unsupported schema version"))
    }
}

} // verus!
