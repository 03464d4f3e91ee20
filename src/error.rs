//! Allocation failure.
use crate::layout::Layout;
use vstd::prelude::*;
use vstd::string::StringExecFns;

verus! {

/// The error of an allocation that could not be served: the memory is
/// exhausted, the arena's limit is reached, or the request's arithmetic
/// overflows.
#[derive(Clone, Copy, Debug, PartialEq, Eq)]
pub struct AllocErr;

/// The character of the decimal digit `d`.
pub open spec fn digit_char(d: int) -> char {
    seq!['0', '1', '2', '3', '4', '5', '6', '7', '8', '9'][d]
}

/// The decimal digits of `n`, most significant first.
pub open spec fn decimal(n: nat) -> Seq<char>
    decreases n,
{
    if n < 10 {
        seq![digit_char(n as int)]
    } else {
        decimal(n / 10).push(digit_char((n % 10) as int))
    }
}

/// The diagnostic that the abort hook reports for a failed request.
pub open spec fn alloc_error_message(size: nat, align: nat) -> Seq<char> {
    "encountered allocation error: size "@ + decimal(size) + ", align "@ + decimal(align)
}

fn digit_str(d: usize) -> (r: &'static str)
    requires
        d < 10,
    ensures
        r@ == seq![digit_char(d as int)],
{
    match d {
        0 => {
            proof {
                reveal_strlit("0");
            }
            "0"
        },
        1 => {
            proof {
                reveal_strlit("1");
            }
            "1"
        },
        2 => {
            proof {
                reveal_strlit("2");
            }
            "2"
        },
        3 => {
            proof {
                reveal_strlit("3");
            }
            "3"
        },
        4 => {
            proof {
                reveal_strlit("4");
            }
            "4"
        },
        5 => {
            proof {
                reveal_strlit("5");
            }
            "5"
        },
        6 => {
            proof {
                reveal_strlit("6");
            }
            "6"
        },
        7 => {
            proof {
                reveal_strlit("7");
            }
            "7"
        },
        8 => {
            proof {
                reveal_strlit("8");
            }
            "8"
        },
        _ => {
            proof {
                reveal_strlit("9");
            }
            "9"
        },
    }
}

/// Appends the decimal digits of `n` to `s`.
fn push_decimal(s: &mut String, n: usize)
    ensures
        final(s)@ == old(s)@ + decimal(n as nat),
    decreases n,
{
    if n >= 10 {
        push_decimal(s, n / 10);
    }
    s.append(digit_str(n % 10));
    proof {
        if n >= 10 {
            assert(final(s)@ =~= old(s)@ + decimal(n as nat));
        }
    }
}

/// The diagnostic for a request that could not be served, as the abort
/// hook of the infallible entry points reports it before ending the
/// process.
pub fn handle_alloc_error(layout: Layout) -> (r: String)
    ensures
        r@ == alloc_error_message(layout.size() as nat, layout.align() as nat),
{
    let mut s = <String as StringExecFns>::from_str("encountered allocation error: size ");
    push_decimal(&mut s, layout.size());
    s.append(", align ");
    push_decimal(&mut s, layout.align());
    assert(s@ =~= alloc_error_message(layout.size() as nat, layout.align() as nat));
    s
}

} // verus!
