//! Reply status codes.

use crate::text;
use vstd::prelude::*;
use vstd::string::*;

verus! {

/// Whether a status reports success.
pub open spec fn success(status: u16) -> bool {
    200 <= status < 300
}

/// Whether a reply can carry this status.
pub open spec fn is_status(status: u16) -> bool {
    100 <= status < 1000
}

/// The reason that `reqwest::StatusCode` displays behind a code.
pub uninterp spec fn reason(status: u16) -> Seq<char>;

/// A status as `reqwest::StatusCode` displays it: the code, a space, and the reason.
pub open spec fn status_line(status: u16) -> Seq<char> {
    text::decimal(status as nat) + " "@ + reason(status)
}

/// `reqwest::StatusCode` displayed: the code in decimal, a space, and a phrase that is a
/// function of the code.
#[verifier::external_body]
pub(crate) fn display_status(status: u16) -> (r: String)
    requires
        is_status(status),
    ensures
        r@ == text::decimal(status as nat) + " "@ + reason(status),
{
    reqwest::StatusCode::from_u16(status).unwrap().to_string()
}

/// Whether a status reports success.
pub fn is_success(status: u16) -> (r: bool)
    ensures
        r == success(status),
{
    200 <= status && status < 300
}

/// The statuses of success are those from 200 to 299.
pub proof fn lemma_success(status: u16)
    ensures
        success(status) <==> status as int / 100 == 2,
{
}

/// A status of three digits displays as these digits, a space, and more.
pub proof fn lemma_status_line(status: u16)
    requires
        100 <= status < 1000,
    ensures
        status_line(status).len() >= 4,
        text::number_of(status_line(status).take(3)) == status,
        status_line(status)[3] == ' ',
{
    reveal_strlit(" ");
    let n = status as nat;
    text::lemma_decimal(n);
    reveal_with_fuel(text::decimal, 4);
    assert(text::decimal(n).len() == 3);
    assert(status_line(status).take(3) =~= text::decimal(n));
}

} // verus!
