//! Reading one line of an edge list: two unsigned decimal identifiers
//! separated by whitespace. Tokens after the second are ignored.
//!
//! Lines are read as bytes, so only ASCII whitespace separates tokens, and an
//! identifier is a plain run of decimal digits: a sign such as a leading `+`,
//! or a non-ASCII space, makes the line malformed.

use vstd::prelude::*;

verus! {

/// Space, tab, line feed, vertical tab, form feed or carriage return.
pub open spec fn is_space(b: u8) -> bool {
    b == 32 || (9 <= b && b <= 13)
}

pub open spec fn is_digit(b: u8) -> bool {
    48 <= b && b <= 57
}

/// The first index from `i` on that does not hold a space.
pub open spec fn skip_spaces(s: Seq<u8>, i: int) -> int
    decreases s.len() - i,
{
    if 0 <= i < s.len() && is_space(s[i]) {
        skip_spaces(s, i + 1)
    } else {
        i
    }
}

/// The first index from `i` on that holds a space, or the end.
pub open spec fn token_end(s: Seq<u8>, i: int) -> int
    decreases s.len() - i,
{
    if 0 <= i < s.len() && !is_space(s[i]) {
        token_end(s, i + 1)
    } else {
        i
    }
}

pub open spec fn all_digits(s: Seq<u8>, i: int, j: int) -> bool {
    forall|k: int| i <= k < j ==> is_digit(#[trigger] s[k])
}

/// The number that the digits `s[i..j]` write in decimal.
pub open spec fn digits_value(s: Seq<u8>, i: int, j: int) -> int
    decreases j - i,
{
    if j <= i {
        0
    } else {
        digits_value(s, i, j - 1) * 10 + (s[j - 1] - 48)
    }
}

/// The token `s[i..j]` is a decimal number that fits in a `u64`.
pub open spec fn is_number(s: Seq<u8>, i: int, j: int) -> bool {
    i < j && all_digits(s, i, j) && digits_value(s, i, j) <= u64::MAX
}

/// What a line of the edge list holds.
#[derive(Clone, Copy, Debug, PartialEq, Eq, Structural)]
pub enum EdgeLine {
    /// Nothing but whitespace.
    Blank,
    /// Two identifiers.
    Edge(u64, u64),
    /// A second token is missing, or one of the first two is not a number
    /// that fits in a `u64`.
    Malformed,
}

/// The meaning of line `s`.
pub open spec fn edge_line_of(s: Seq<u8>) -> EdgeLine {
    let i0 = skip_spaces(s, 0);
    let e0 = token_end(s, i0);
    let i1 = skip_spaces(s, e0);
    let e1 = token_end(s, i1);
    if i0 >= s.len() {
        EdgeLine::Blank
    } else if is_number(s, i0, e0) && is_number(s, i1, e1) {
        EdgeLine::Edge(digits_value(s, i0, e0) as u64, digits_value(s, i1, e1) as u64)
    } else {
        EdgeLine::Malformed
    }
}

proof fn lemma_digits_value_grows(s: Seq<u8>, i: int, k: int, j: int)
    requires
        i <= k <= j,
        all_digits(s, i, j),
    ensures
        digits_value(s, i, k) <= digits_value(s, i, j),
        0 <= digits_value(s, i, k),
    decreases j - i, j - k,
{
    if k < j {
        lemma_digits_value_grows(s, i, k, j - 1);
        lemma_digits_value_grows(s, i, j - 1, j - 1);
        assert(is_digit(s[j - 1]));
    } else if k > i {
        lemma_digits_value_grows(s, i, k - 1, k - 1);
        assert(is_digit(s[k - 1]));
    }
}

fn skip_spaces_from(s: &[u8], i: usize) -> (r: usize)
    requires
        i <= s@.len(),
    ensures
        r == skip_spaces(s@, i as int),
        i <= r <= s@.len(),
{
    let mut k = i;
    while k < s.len() && (s[k] == 32 || (9 <= s[k] && s[k] <= 13))
        invariant
            i <= k <= s@.len(),
            skip_spaces(s@, k as int) == skip_spaces(s@, i as int),
        decreases s@.len() - k,
    {
        k = k + 1;
    }
    k
}

fn token_end_from(s: &[u8], i: usize) -> (r: usize)
    requires
        i <= s@.len(),
    ensures
        r == token_end(s@, i as int),
        i <= r <= s@.len(),
{
    let mut k = i;
    while k < s.len() && !(s[k] == 32 || (9 <= s[k] && s[k] <= 13))
        invariant
            i <= k <= s@.len(),
            token_end(s@, k as int) == token_end(s@, i as int),
        decreases s@.len() - k,
    {
        k = k + 1;
    }
    k
}

/// The number that `s[i..j]` writes, if it is one that fits in a `u64`.
fn number_in(s: &[u8], i: usize, j: usize) -> (r: Option<u64>)
    requires
        i <= j <= s@.len(),
    ensures
        r is Some <==> is_number(s@, i as int, j as int),
        r matches Some(v) ==> v == digits_value(s@, i as int, j as int),
{
    if i == j {
        return None;
    }
    let mut v: u64 = 0;
    let mut k = i;
    while k < j
        invariant
            i <= k <= j <= s@.len(),
            all_digits(s@, i as int, k as int),
            v == digits_value(s@, i as int, k as int),
        decreases j - k,
    {
        let b = s[k];
        if !(48 <= b && b <= 57) {
            assert(!all_digits(s@, i as int, j as int));
            return None;
        }
        let d = (b - 48) as u64;
        if v > (u64::MAX - d) / 10 {
            proof {
                if all_digits(s@, i as int, j as int) {
                    lemma_digits_value_grows(s@, i as int, k + 1, j as int);
                }
            }
            return None;
        }
        v = v * 10 + d;
        k = k + 1;
    }
    Some(v)
}

/// Reads one line of the edge list.
pub fn parse_edge_line(s: &[u8]) -> (r: EdgeLine)
    ensures
        r == edge_line_of(s@),
{
    let i0 = skip_spaces_from(s, 0);
    if i0 >= s.len() {
        return EdgeLine::Blank;
    }
    let e0 = token_end_from(s, i0);
    let i1 = skip_spaces_from(s, e0);
    let e1 = token_end_from(s, i1);
    match (number_in(s, i0, e0), number_in(s, i1, e1)) {
        (Some(a), Some(b)) => EdgeLine::Edge(a, b),
        _ => EdgeLine::Malformed,
    }
}

} // verus!
