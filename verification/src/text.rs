//! Numbers and padding as text.

use vstd::prelude::*;
use vstd::string::{StrSliceExecFns, StringExecFns};

verus! {

/// The character that writes the digit `d`.
pub open spec fn digit_char(d: int) -> char {
    seq!['0', '1', '2', '3', '4', '5', '6', '7', '8', '9'][d]
}

/// The decimal digits that write `n`, without leading zeros.
pub open spec fn decimal_digits(n: nat) -> Seq<char>
    decreases n,
{
    if n < 10 {
        seq![digit_char(n as int)]
    } else {
        decimal_digits(n / 10).push(digit_char((n % 10) as int))
    }
}

/// `count` spaces.
pub open spec fn spaces(count: nat) -> Seq<char> {
    Seq::new(count, |i: int| ' ')
}

/// The text behind as many spaces as bring it to `width` characters.
pub open spec fn right_aligned(text: Seq<char>, width: nat) -> Seq<char> {
    if width > text.len() {
        spaces((width - text.len()) as nat) + text
    } else {
        text
    }
}

/// Calls `u64::to_string` of std: the number written in decimal digits,
/// without a sign and without leading zeros.
#[verifier::external_body]
pub(crate) fn decimal_text(n: u64) -> (r: String)
    ensures
        r@ == decimal_digits(n as nat),
{
    n.to_string()
}

/// The text behind as many spaces as bring it to `width` characters; the
/// text itself where it is that long already.
pub fn pad_left(text: &str, width: usize) -> (r: String)
    ensures
        r@ == right_aligned(text@, width as nat),
{
    let len: usize = text.unicode_len();
    let mut out = String::from_str("");
    proof {
        reveal_strlit("");
        assert(out@ =~= spaces(0));
    }
    let pad: usize = if width > len {
        width - len
    } else {
        0
    };
    let mut count: usize = 0;
    while count < pad
        invariant
            count <= pad,
            out@ == spaces(count as nat),
        decreases pad - count,
    {
        proof {
            reveal_strlit(" ");
            assert(spaces(count as nat) + " "@ =~= spaces((count + 1) as nat));
        }
        out.append(" ");
        count = count + 1;
    }
    out.append(text);
    proof {
        assert(spaces(0) + text@ =~= text@);
    }
    out
}

} // verus!
