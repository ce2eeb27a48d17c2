use vstd::prelude::*;

verus! {

/// The failures the remote query layer reports: the endpoint answered with
/// a non-success status code, or answered without a data section.
#[derive(Debug, Clone, Copy, PartialEq, Eq, Structural)]
pub enum QueryError {
    HttpError(u16),
    NoData,
}

/// The character for one decimal digit.
pub open spec fn dec_digit(d: int) -> char {
    if d == 0 {
        '0'
    } else if d == 1 {
        '1'
    } else if d == 2 {
        '2'
    } else if d == 3 {
        '3'
    } else if d == 4 {
        '4'
    } else if d == 5 {
        '5'
    } else if d == 6 {
        '6'
    } else if d == 7 {
        '7'
    } else if d == 8 {
        '8'
    } else {
        '9'
    }
}

/// The decimal rendering of a non-negative number, most significant digit
/// first, without leading zeros.
pub open spec fn dec_rep(n: int) -> Seq<char>
    decreases n,
{
    if n < 10 {
        seq![dec_digit(n)]
    } else {
        dec_rep(n / 10).push(dec_digit(n % 10))
    }
}

/// Appends one decimal digit to the string.
fn push_digit(out: &mut String, d: u16)
    requires
        d < 10,
    ensures
        final(out)@ == old(out)@.push(dec_digit(d as int)),
{
    let ghost before = out@;
    if d == 0 {
        out.append("0");
    } else if d == 1 {
        out.append("1");
    } else if d == 2 {
        out.append("2");
    } else if d == 3 {
        out.append("3");
    } else if d == 4 {
        out.append("4");
    } else if d == 5 {
        out.append("5");
    } else if d == 6 {
        out.append("6");
    } else if d == 7 {
        out.append("7");
    } else if d == 8 {
        out.append("8");
    } else {
        out.append("9");
    }
    proof {
        reveal_strlit("0");
        reveal_strlit("1");
        reveal_strlit("2");
        reveal_strlit("3");
        reveal_strlit("4");
        reveal_strlit("5");
        reveal_strlit("6");
        reveal_strlit("7");
        reveal_strlit("8");
        reveal_strlit("9");
        assert(out@ =~= before.push(dec_digit(d as int)));
    }
}

/// Appends the decimal rendering of `n` to the string.
fn push_decimal(out: &mut String, n: u16)
    ensures
        final(out)@ == old(out)@ + dec_rep(n as int),
    decreases n,
{
    let ghost before = out@;
    if n >= 10 {
        push_decimal(out, n / 10);
    }
    push_digit(out, n % 10);
    proof {
        if n >= 10 {
            assert(out@ =~= before + dec_rep(n as int));
        } else {
            assert(dec_rep(n as int) =~= seq![dec_digit(n as int)]);
            assert(out@ =~= before + dec_rep(n as int));
        }
    }
}

impl QueryError {
    /// A human-readable description of the failure.
    pub fn message(&self) -> (r: String)
        ensures
            self is HttpError ==> r@ == "http error: "@ + dec_rep(self->HttpError_0 as int),
            self is NoData ==> r@ == "no data"@,
    {
        match self {
            QueryError::HttpError(code) => {
                let mut out = String::new();
                out.append("http error: ");
                push_decimal(&mut out, *code);
                proof {
                    assert(out@ =~= "http error: "@ + dec_rep(*code as int));
                }
                out
            },
            QueryError::NoData => {
                let mut out = String::new();
                out.append("no data");
                proof {
                    assert(out@ =~= "no data"@);
                }
                out
            },
        }
    }
}

} // verus!
