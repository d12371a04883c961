//! Graphs written as grids of flags.
//!
//! The text holds tokens with blanks between them: the number of left
//! vertices, the number of right vertices, and then one flag for every pair
//! of a left and a right vertex, row by row. The flag `1` stands for an edge,
//! the flags `0` and `_` for none.

use crate::graph::{Bigraph, Edge};
use vstd::prelude::*;
use vstd::string::StringSliceAdditionalSpecFns;

verus! {

/// Why a text is not a grid.
#[derive(Debug, Clone, Copy, PartialEq, Eq, Structural)]
pub enum GridError {
    /// The text has fewer than two tokens.
    MissingSize,
    /// One of the first two tokens is not a number that fits in 32 bits.
    BadSize,
    /// No graph can have that many vertices.
    TooLarge,
    /// The text ends before the last flag.
    MissingCell,
    /// A flag is not `1`, `0` or `_`.
    BadCell,
    /// The text goes on after the last flag.
    TrailingInput,
}

/// Whether `b` is a blank: a space, a tab, a line feed, a form feed or a
/// carriage return.
pub open spec fn is_blank(b: u8) -> bool {
    b == 32 || b == 9 || b == 10 || b == 12 || b == 13
}

/// The first place from `from` on that holds no blank, or the end.
pub open spec fn skip_blanks(bytes: Seq<u8>, from: int) -> int
    decreases bytes.len() - from,
{
    if 0 <= from < bytes.len() && is_blank(bytes[from]) {
        skip_blanks(bytes, from + 1)
    } else {
        from
    }
}

/// The first place from `from` on that holds a blank, or the end.
pub open spec fn skip_token(bytes: Seq<u8>, from: int) -> int
    decreases bytes.len() - from,
{
    if 0 <= from < bytes.len() && !is_blank(bytes[from]) {
        skip_token(bytes, from + 1)
    } else {
        from
    }
}

/// Token `n` of what follows place `from`, counted from 0.
pub open spec fn token(bytes: Seq<u8>, n: nat, from: int) -> Option<Seq<u8>>
    decreases n,
{
    let start = skip_blanks(bytes, from);
    let end = skip_token(bytes, start);
    if !(0 <= start < bytes.len()) {
        None
    } else if n == 0 {
        Some(bytes.subrange(start, end))
    } else {
        token(bytes, (n - 1) as nat, end)
    }
}

/// The number that the digits `digits` stand for.
pub open spec fn value(digits: Seq<u8>) -> nat
    decreases digits.len(),
{
    if digits.len() == 0 {
        0
    } else {
        value(digits.drop_last()) * 10 + (digits.last() - 48) as nat
    }
}

/// The number that `tok` stands for, if it is made of digits and stands for
/// a number that fits in 32 bits.
pub open spec fn number(tok: Seq<u8>) -> Option<u32> {
    if tok.len() > 0 && (forall|i: int| 0 <= i < tok.len() ==> 48 <= #[trigger] tok[i] <= 57)
        && value(tok) <= u32::MAX {
        Some(value(tok) as u32)
    } else {
        None
    }
}

/// Whether `tok` is a flag.
pub open spec fn is_cell(tok: Seq<u8>) -> bool {
    tok.len() == 1 && (tok[0] == 49 || tok[0] == 48 || tok[0] == 95)
}

/// Whether `tok` is the flag that stands for an edge.
pub open spec fn is_set(tok: Seq<u8>) -> bool {
    tok.len() == 1 && tok[0] == 49
}

/// The flag of the pair of left vertex `x` and right vertex `y` in a grid
/// with `right` right vertices.
pub open spec fn cell(bytes: Seq<u8>, right: nat, x: nat, y: nat) -> Option<Seq<u8>> {
    token(bytes, 2 + x * right + y, 0)
}

/// What the text `bytes` is read as.
pub open spec fn grid_sizes(bytes: Seq<u8>) -> Result<(u32, u32), GridError> {
    match (token(bytes, 0, 0), token(bytes, 1, 0)) {
        (Some(a), Some(b)) => match (number(a), number(b)) {
            (Some(left), Some(right)) => if Bigraph::spec_can_hold(left, right) {
                Ok((left, right))
            } else {
                Err(GridError::TooLarge)
            },
            _ => Err(GridError::BadSize),
        },
        _ => Err(GridError::MissingSize),
    }
}

/// Whether the first `n` flags are there and are flags.
pub open spec fn cells_fine(bytes: Seq<u8>, n: nat) -> bool {
    forall|i: nat|
        i < n ==> (#[trigger] token(bytes, 2 + i, 0)) is Some && is_cell(
            token(bytes, 2 + i, 0).unwrap(),
        )
}

/// Digits stand for a number that grows with every digit.
proof fn lemma_value_grows(digits: Seq<u8>, n: int)
    requires
        0 <= n <= digits.len(),
        forall|i: int| 0 <= i < digits.len() ==> 48 <= #[trigger] digits[i] <= 57,
    ensures
        value(digits.take(n)) <= value(digits),
    decreases digits.len() - n,
{
    if n < digits.len() {
        lemma_value_grows(digits, n + 1);
        assert(digits.take(n + 1).drop_last() =~= digits.take(n));
    } else {
        assert(digits.take(n) =~= digits);
    }
}

/// The token after the first token of what follows `from` is the second.
proof fn lemma_token_step(bytes: Seq<u8>, n: nat, from: int)
    requires
        0 <= skip_blanks(bytes, from) < bytes.len(),
    ensures
        token(bytes, n + 1, from) == token(bytes, n, skip_token(bytes, skip_blanks(bytes, from))),
{
}

/// What follows a token that was counted from the start is counted on from
/// there.
proof fn lemma_token_from(bytes: Seq<u8>, k: nat, n: nat, pos: int)
    requires
        forall|m: nat| #[trigger] token(bytes, k + m, 0) == token(bytes, m, pos),
        0 <= skip_blanks(bytes, pos) < bytes.len(),
    ensures
        token(bytes, k + 1 + n, 0) == token(bytes, n, skip_token(bytes, skip_blanks(bytes, pos))),
{
    assert(token(bytes, k + (n + 1) as nat, 0) == token(bytes, (n + 1) as nat, pos));
    lemma_token_step(bytes, n, pos);
}

/// The places of the first token from `from` on: where it begins and where
/// it ends, or nothing where only blanks follow.
fn next_token(bytes: &[u8], from: usize) -> (r: Option<(usize, usize)>)
    requires
        from <= bytes@.len(),
    ensures
        match r {
            Some((start, end)) => start == skip_blanks(bytes@, from as int) && end == skip_token(
                bytes@,
                start as int,
            ) && from <= start < end <= bytes@.len(),
            None => skip_blanks(bytes@, from as int) >= bytes@.len(),
        },
{
    let mut start = from;
    while start < bytes.len() && is_blank_byte(bytes[start])
        invariant
            from <= start <= bytes@.len(),
            skip_blanks(bytes@, from as int) == skip_blanks(bytes@, start as int),
        decreases bytes@.len() - start,
    {
        start = start + 1;
    }
    if start >= bytes.len() {
        return None;
    }
    let mut end = start + 1;
    while end < bytes.len() && !is_blank_byte(bytes[end])
        invariant
            start < end <= bytes@.len(),
            skip_token(bytes@, start as int) == skip_token(bytes@, end as int),
        decreases bytes@.len() - end,
    {
        end = end + 1;
    }
    Some((start, end))
}

/// Whether `b` is a blank.
fn is_blank_byte(b: u8) -> (r: bool)
    ensures
        r == is_blank(b),
{
    b == 32 || b == 9 || b == 10 || b == 12 || b == 13
}

/// The number that the bytes from `start` to `end` stand for.
fn read_number(bytes: &[u8], start: usize, end: usize) -> (r: Option<u32>)
    requires
        start < end <= bytes@.len(),
    ensures
        r == number(bytes@.subrange(start as int, end as int)),
{
    let ghost tok = bytes@.subrange(start as int, end as int);
    let mut n: u32 = 0;
    let mut i: usize = start;
    while i < end
        invariant
            start <= i <= end <= bytes@.len(),
            tok == bytes@.subrange(start as int, end as int),
            forall|j: int| 0 <= j < i - start ==> 48 <= #[trigger] tok[j] <= 57,
            n == value(tok.take(i - start)),
        decreases end - i,
    {
        let b = bytes[i];
        proof {
            assert(tok[i - start] == b);
            assert(tok.take(i - start + 1).drop_last() =~= tok.take(i - start));
        }
        if b < 48 || b > 57 {
            return None;
        }
        let d = (b - 48) as u32;
        if n > (u32::MAX - d) / 10 {
            proof {
                assert(value(tok.take(i - start + 1)) > u32::MAX);
                if forall|j: int| 0 <= j < tok.len() ==> 48 <= #[trigger] tok[j] <= 57 {
                    lemma_value_grows(tok, i - start + 1);
                }
            }
            return None;
        }
        n = n * 10 + d;
        i = i + 1;
    }
    proof {
        assert(tok.take(end - start) =~= tok);
    }
    Some(n)
}

/// Reads a grid.
///
/// The graph has the edges whose flags are `1`. A text that is not a grid
/// is refused with the first thing that is wrong with it.
pub fn from_str(s: &str) -> (r: Result<Bigraph, GridError>)
    ensures
        match r {
            Ok(g) => match grid_sizes(s.spec_bytes()) {
                Ok((left, right)) => g.wf() && g.spec_left() == left && g.spec_right() == right
                    && cells_fine(s.spec_bytes(), left as nat * right as nat) && token(
                    s.spec_bytes(),
                    2 + left as nat * right as nat,
                    0,
                ) is None && forall|e: Edge|
                    g.has_edge(e) == (g.in_range(e) && is_set(
                        cell(s.spec_bytes(), right as nat, e.0 as nat, e.1 as nat).unwrap(),
                    )),
                Err(_) => false,
            },
            Err(why) => match grid_sizes(s.spec_bytes()) {
                Ok((left, right)) => exists|n: nat|
                    n <= left as nat * right as nat && cells_fine(s.spec_bytes(), n) && match token(
                        s.spec_bytes(),
                        2 + n,
                        0,
                    ) {
                        Some(tok) => if n < left as nat * right as nat {
                            !is_cell(tok) && why == GridError::BadCell
                        } else {
                            why == GridError::TrailingInput
                        },
                        None => n < left as nat * right as nat && why == GridError::MissingCell,
                    },
                Err(sizes) => why == sizes,
            },
        },
{
    let bytes = s.as_bytes();
    let ghost text = s.spec_bytes();
    let (a_start, a_end) = match next_token(bytes, 0) {
        Some(span) => span,
        None => {
            return Err(GridError::MissingSize);
        },
    };
    proof {
        lemma_token_step(text, 0, 0);
    }
    let (b_start, b_end) = match next_token(bytes, a_end) {
        Some(span) => span,
        None => {
            return Err(GridError::MissingSize);
        },
    };
    let left = match read_number(bytes, a_start, a_end) {
        Some(n) => n,
        None => {
            return Err(GridError::BadSize);
        },
    };
    let right = match read_number(bytes, b_start, b_end) {
        Some(n) => n,
        None => {
            return Err(GridError::BadSize);
        },
    };
    if !Bigraph::can_hold(left, right) {
        return Err(GridError::TooLarge);
    }
    let ghost total = left as nat * right as nat;
    let mut g = Bigraph::new(left, right);
    let mut pos = b_end;
    let ghost mut done: nat = 0;
    proof {
        assert forall|m: nat| #[trigger] token(text, 2 + m, 0) == token(text, m, pos as int) by {
            lemma_token_step(text, m + 1, 0);
            lemma_token_step(text, m, a_end as int);
        }
    }
    let mut x: u32 = 0;
    while x < left
        invariant
            text == s.spec_bytes(),
            bytes@ == text,
            grid_sizes(text) == Ok::<(u32, u32), GridError>((left, right)),
            total == left as nat * right as nat,
            x <= left,
            pos <= bytes@.len(),
            done == x as nat * right as nat,
            g.wf(),
            g.spec_left() == left,
            g.spec_right() == right,
            cells_fine(text, done),
            forall|m: nat| #[trigger] token(text, 2 + done + m, 0) == token(text, m, pos as int),
            forall|e: Edge|
                g.has_edge(e) == (g.in_range(e) && e.0 < x && is_set(
                    cell(text, right as nat, e.0 as nat, e.1 as nat).unwrap(),
                )),
        decreases left - x,
    {
        let mut y: u32 = 0;
        while y < right
            invariant
                text == s.spec_bytes(),
                bytes@ == text,
                grid_sizes(text) == Ok::<(u32, u32), GridError>((left, right)),
                total == left as nat * right as nat,
                x < left,
                y <= right,
                pos <= bytes@.len(),
                done == x as nat * right as nat + y as nat,
                g.wf(),
                g.spec_left() == left,
                g.spec_right() == right,
                cells_fine(text, done),
                forall|m: nat| #[trigger] token(text, 2 + done + m, 0) == token(text, m, pos as int),
                forall|e: Edge|
                    g.has_edge(e) == (g.in_range(e) && (e.0 < x || (e.0 == x && e.1 < y)) && is_set(
                        cell(text, right as nat, e.0 as nat, e.1 as nat).unwrap(),
                    )),
            decreases right - y,
        {
            proof {
                assert(done < total) by (nonlinear_arith)
                    requires
                        done == x as nat * right as nat + y as nat,
                        total == left as nat * right as nat,
                        x < left,
                        y < right,
                ;
                assert(token(text, 2 + done + 0, 0) == token(text, 0, pos as int));
            }
            let (start, end) = match next_token(bytes, pos) {
                Some(span) => span,
                None => {
                    return Err(GridError::MissingCell);
                },
            };
            let ghost tok = text.subrange(start as int, end as int);
            proof {
                assert(token(text, 2 + done, 0) == Some(tok));
                assert(cell(text, right as nat, x as nat, y as nat) == Some(tok));
            }
            if end - start != 1 {
                return Err(GridError::BadCell);
            }
            let b = bytes[start];
            proof {
                assert(tok[0] == b);
            }
            if b == 49 {
                g.add(Edge(x, y));
            } else if b != 48 && b != 95 {
                return Err(GridError::BadCell);
            }
            proof {
                let before = done;
                assert forall|m: nat| #[trigger] token(text, 2 + (before + 1) + m, 0) == token(
                    text,
                    m,
                    end as int,
                ) by {
                    lemma_token_from(text, 2 + before, m, pos as int);
                }
                assert forall|i: nat| i < before + 1 implies (#[trigger] token(text, 2 + i, 0))
                    is Some && is_cell(token(text, 2 + i, 0).unwrap()) by {
                    if i < before {
                        assert(token(text, 2 + i, 0) is Some);
                    }
                }
                done = before + 1;
                assert forall|e: Edge|
                    g.in_range(e) && e.0 == x && e.1 < y implies 2 + e.0 as nat * right as nat
                    + e.1 as nat != 2 + before by {}
            }
            pos = end;
            y = y + 1;
        }
        proof {
            assert(x as nat * right as nat + right as nat == (x + 1) as nat * right as nat)
                by (nonlinear_arith);
        }
        x = x + 1;
    }
    proof {
        assert(token(text, 2 + done + 0, 0) == token(text, 0, pos as int));
    }
    match next_token(bytes, pos) {
        Some(_) => Err(GridError::TrailingInput),
        None => Ok(g),
    }
}

} // verus!
