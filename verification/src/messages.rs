//! The error messages of the piece table and the cursor, each stated as the
//! exact text it holds.

use vstd::prelude::*;
use vstd::string::StringExecFns;

verus! {

/// The ASCII digit for `d` (below ten).
pub open spec fn digit(d: nat) -> char {
    (d + 48) as char
}

/// The decimal notation of `n`, without leading zeros.
pub open spec fn decimal(n: nat) -> Seq<char>
    decreases n,
{
    if n < 10 {
        seq![digit(n)]
    } else {
        decimal(n / 10) + seq![digit(n % 10)]
    }
}

/// The number that a string of decimal digits denotes, read from the left.
pub open spec fn digits_value(s: Seq<char>) -> int
    decreases s.len(),
{
    if s.len() == 0 {
        0
    } else {
        digits_value(s.drop_last()) * 10 + (s.last() as int - 48)
    }
}

/// `decimal(n)` is the usual notation of `n`: every character is a digit,
/// the digits denote `n`, and there is no leading zero (0 itself is "0").
pub proof fn lemma_decimal_is_notation(n: nat)
    ensures
        decimal(n).len() > 0,
        forall|k: int| 0 <= k < decimal(n).len() ==> '0' <= #[trigger] decimal(n)[k] <= '9',
        digits_value(decimal(n)) == n,
        decimal(n)[0] == '0' ==> n == 0 && decimal(n).len() == 1,
    decreases n,
{
    if n < 10 {
        assert(decimal(n).drop_last() =~= Seq::<char>::empty());
        assert(digit(n) as int == n + 48);
        assert(decimal(n).last() == digit(n));
        assert(digits_value(Seq::<char>::empty()) == 0);
        assert(digits_value(decimal(n)) == digits_value(decimal(n).drop_last()) * 10 + (
        decimal(n).last() as int - 48));
    } else {
        lemma_decimal_is_notation(n / 10);
        let d = decimal(n);
        assert(d.drop_last() =~= decimal(n / 10));
        assert(d.last() == digit(n % 10));
        assert(digit(n % 10) as int == n % 10 + 48);
        assert(digits_value(d) == digits_value(decimal(n / 10)) * 10 + (n % 10));
        assert(d[0] == decimal(n / 10)[0]);
        assert(n == (n / 10) * 10 + n % 10) by (nonlinear_arith);
        assert forall|k: int| 0 <= k < d.len() implies '0' <= #[trigger] d[k] <= '9' by {
            if k < d.len() - 1 {
                assert(d[k] == decimal(n / 10)[k]);
            }
        }
    }
}

/// Calls `ToString::to_string` on a `usize`, which formats it through its
/// `Display` impl: the decimal digits of `n`, with no sign, padding or
/// leading zeros. The contract claims that the result is exactly that
/// notation.
#[verifier::external_body]
fn decimal_string(n: usize) -> (s: String)
    ensures
        s@ == decimal(n as nat),
{
    n.to_string()
}

pub open spec fn insert_empty_text() -> Seq<char> {
    "insert text must be non-empty"@
}

pub open spec fn insert_position_text(pos: nat, doc_len: nat) -> Seq<char> {
    "insert position "@ + decimal(pos) + " is out of bounds (document length is "@ + decimal(
        doc_len,
    ) + ")"@
}

pub open spec fn insert_boundary_text(pos: nat) -> Seq<char> {
    "pos "@ + decimal(pos) + " is not on a UTF-8 character boundary"@
}

pub open spec fn delete_position_text(pos: nat, doc_len: nat) -> Seq<char> {
    "delete position "@ + decimal(pos) + " is out of bounds (document length is "@ + decimal(
        doc_len,
    ) + ")"@
}

pub open spec fn delete_range_text(pos: nat, end: nat, doc_len: nat) -> Seq<char> {
    "delete range ["@ + decimal(pos) + ", "@ + decimal(end)
        + ") is out of bounds (document length is "@ + decimal(doc_len) + ")"@
}

pub open spec fn delete_boundary_text(pos: nat, end: nat) -> Seq<char> {
    "delete range ["@ + decimal(pos) + ", "@ + decimal(end)
        + ") does not start and end on UTF-8 character boundaries"@
}

pub open spec fn delete_piece_text(pos: nat, len: nat, piece_len: nat, offset: nat) -> Seq<
    char,
> {
    "invalid delete range: "@ + decimal(pos) + " "@ + decimal(len)
        + " exceeds bounds of current piece ("@ + decimal(piece_len) + ", "@ + decimal(offset)
        + ")"@
}

pub open spec fn cursor_bounds_text(index: nat, doc_len: nat) -> Seq<char> {
    "Cursor index "@ + decimal(index) + " is out of bounds for text length "@ + decimal(doc_len)
}

pub open spec fn cursor_boundary_text(index: nat) -> Seq<char> {
    "Cursor index "@ + decimal(index) + " is not on a valid UTF-8 character boundary in the text"@
}

pub(crate) fn insert_empty_message() -> (s: String)
    ensures
        s@ == insert_empty_text(),
{
    String::from_str("insert text must be non-empty")
}

pub(crate) fn insert_position_message(pos: usize, doc_len: usize) -> (s: String)
    ensures
        s@ == insert_position_text(pos as nat, doc_len as nat),
{
    let mut s = String::from_str("insert position ");
    s.append(decimal_string(pos).as_str());
    s.append(" is out of bounds (document length is ");
    s.append(decimal_string(doc_len).as_str());
    s.append(")");
    s
}

pub(crate) fn insert_boundary_message(pos: usize) -> (s: String)
    ensures
        s@ == insert_boundary_text(pos as nat),
{
    let mut s = String::from_str("pos ");
    s.append(decimal_string(pos).as_str());
    s.append(" is not on a UTF-8 character boundary");
    s
}

pub(crate) fn delete_position_message(pos: usize, doc_len: usize) -> (s: String)
    ensures
        s@ == delete_position_text(pos as nat, doc_len as nat),
{
    let mut s = String::from_str("delete position ");
    s.append(decimal_string(pos).as_str());
    s.append(" is out of bounds (document length is ");
    s.append(decimal_string(doc_len).as_str());
    s.append(")");
    s
}

pub(crate) fn delete_range_message(pos: usize, end: usize, doc_len: usize) -> (s: String)
    ensures
        s@ == delete_range_text(pos as nat, end as nat, doc_len as nat),
{
    let mut s = String::from_str("delete range [");
    s.append(decimal_string(pos).as_str());
    s.append(", ");
    s.append(decimal_string(end).as_str());
    s.append(") is out of bounds (document length is ");
    s.append(decimal_string(doc_len).as_str());
    s.append(")");
    s
}

pub(crate) fn delete_boundary_message(pos: usize, end: usize) -> (s: String)
    ensures
        s@ == delete_boundary_text(pos as nat, end as nat),
{
    let mut s = String::from_str("delete range [");
    s.append(decimal_string(pos).as_str());
    s.append(", ");
    s.append(decimal_string(end).as_str());
    s.append(") does not start and end on UTF-8 character boundaries");
    s
}

pub(crate) fn delete_piece_message(pos: usize, len: usize, piece_len: usize, offset: usize) -> (s:
    String)
    ensures
        s@ == delete_piece_text(pos as nat, len as nat, piece_len as nat, offset as nat),
{
    let mut s = String::from_str("invalid delete range: ");
    s.append(decimal_string(pos).as_str());
    s.append(" ");
    s.append(decimal_string(len).as_str());
    s.append(" exceeds bounds of current piece (");
    s.append(decimal_string(piece_len).as_str());
    s.append(", ");
    s.append(decimal_string(offset).as_str());
    s.append(")");
    s
}

pub(crate) fn cursor_bounds_message(index: usize, doc_len: usize) -> (s: String)
    ensures
        s@ == cursor_bounds_text(index as nat, doc_len as nat),
{
    let mut s = String::from_str("Cursor index ");
    s.append(decimal_string(index).as_str());
    s.append(" is out of bounds for text length ");
    s.append(decimal_string(doc_len).as_str());
    s
}

pub(crate) fn cursor_boundary_message(index: usize) -> (s: String)
    ensures
        s@ == cursor_boundary_text(index as nat),
{
    let mut s = String::from_str("Cursor index ");
    s.append(decimal_string(index).as_str());
    s.append(" is not on a valid UTF-8 character boundary in the text");
    s
}

} // verus!
