//! The value types of the pipeline: street names, grid positions and raw
//! input records, with their order and their text rendering.

use vstd::prelude::*;
use crate::order::{seq_char_lt, str_compare, lemma_seq_char_lt_trichotomy,
    lemma_seq_char_lt_transitive};

verus! {

/// Name of one street (such as `"Canterbury Road"`).
#[derive(Debug, PartialEq, Eq, Hash)]
pub struct StreetName(pub String);

impl Clone for StreetName {
    fn clone(&self) -> (r: Self)
        ensures
            r == *self,
    {
        StreetName(self.0.clone())
    }
}

/// Grid position such as "A9" or "B4": a column label and a row number.
#[derive(Debug, PartialEq, Eq, Hash)]
pub struct GridPosition {
    pub column: String,
    pub row: usize,
}

impl Clone for GridPosition {
    fn clone(&self) -> (r: Self)
        ensures
            r == *self,
    {
        GridPosition { column: self.column.clone(), row: self.row }
    }
}

/// One raw observation handed to the deduplicator: a street name together
/// with one grid position where the street appears.
#[derive(Debug, PartialEq, Eq, Hash)]
pub struct InputStreetValue {
    pub street_name: StreetName,
    pub position: GridPosition,
}

impl Clone for InputStreetValue {
    fn clone(&self) -> (r: Self)
        ensures
            r == *self,
    {
        InputStreetValue {
            street_name: self.street_name.clone(),
            position: self.position.clone(),
        }
    }
}

/// The mathematical value of a grid position: the column label's characters
/// and the row number.
pub open spec fn pos_key(p: GridPosition) -> (Seq<char>, nat) {
    (p.column@, p.row as nat)
}

/// The keys of a sequence of grid positions, in the same order.
pub open spec fn pos_keys(ps: Seq<GridPosition>) -> Seq<(Seq<char>, nat)> {
    ps.map_values(|p: GridPosition| pos_key(p))
}

/// Strict order on grid positions: lexicographic by column label first, then
/// numeric by row (never by the rendered string, which would misorder
/// multi-digit rows).
pub open spec fn pos_lt(a: (Seq<char>, nat), b: (Seq<char>, nat)) -> bool {
    seq_char_lt(a.0, b.0) || (a.0 == b.0 && a.1 < b.1)
}

/// The position order is total: any two position keys are related exactly
/// one way.
pub proof fn lemma_pos_lt_trichotomy(a: (Seq<char>, nat), b: (Seq<char>, nat))
    ensures
        pos_lt(a, b) || pos_lt(b, a) || a == b,
        pos_lt(a, b) ==> !pos_lt(b, a),
        pos_lt(a, b) ==> a != b,
{
    lemma_seq_char_lt_trichotomy(a.0, b.0);
    if !pos_lt(a, b) && !pos_lt(b, a) {
        assert(a.0 == b.0 && a.1 == b.1);
        assert(a == b);
    }
}

/// The position order is transitive.
pub proof fn lemma_pos_lt_transitive(a: (Seq<char>, nat), b: (Seq<char>, nat), c: (Seq<char>, nat))
    requires
        pos_lt(a, b),
        pos_lt(b, c),
    ensures
        pos_lt(a, c),
{
    if seq_char_lt(a.0, b.0) && seq_char_lt(b.0, c.0) {
        lemma_seq_char_lt_transitive(a.0, b.0, c.0);
    }
}

impl GridPosition {
    /// Decides the strict position order.
    pub fn is_before(&self, other: &GridPosition) -> (r: bool)
        ensures
            r == pos_lt(pos_key(*self), pos_key(*other)),
    {
        let c = str_compare(self.column.as_str(), other.column.as_str());
        if c == 0 {
            true
        } else if c == 1 {
            self.row < other.row
        } else {
            false
        }
    }

    /// Decides whether two positions name the same grid cell.
    pub fn same_cell(&self, other: &GridPosition) -> (r: bool)
        ensures
            r == (pos_key(*self) == pos_key(*other)),
    {
        let c = str_compare(self.column.as_str(), other.column.as_str());
        if c == 1 && self.row == other.row {
            proof {
                assert(pos_key(*self) == pos_key(*other));
            }
            true
        } else {
            proof {
                if pos_key(*self) == pos_key(*other) {
                    assert(self.column@ == other.column@);
                    assert(self.row == other.row);
                }
            }
            false
        }
    }
}

/// The decimal digit character for a value below ten.
pub open spec fn spec_digit(d: nat) -> char {
    if d == 0 { '0' }
    else if d == 1 { '1' }
    else if d == 2 { '2' }
    else if d == 3 { '3' }
    else if d == 4 { '4' }
    else if d == 5 { '5' }
    else if d == 6 { '6' }
    else if d == 7 { '7' }
    else if d == 8 { '8' }
    else { '9' }
}

/// The usual decimal rendering of a number, most significant digit first,
/// without leading zeros (`0` renders as `"0"`).
pub open spec fn spec_dec(n: nat) -> Seq<char>
    decreases n,
{
    if n < 10 {
        seq![spec_digit(n)]
    } else {
        spec_dec(n / 10) + seq![spec_digit(n % 10)]
    }
}

/// The text of a grid position: the column label directly followed by the
/// decimal row number (column "A", row 9 renders as "A9").
pub open spec fn spec_pos_text(k: (Seq<char>, nat)) -> Seq<char> {
    k.0 + spec_dec(k.1)
}

/// The one-character string for a digit value.
fn digit_str(d: usize) -> (r: &'static str)
    requires
        d < 10,
    ensures
        r@ =~= seq![spec_digit(d as nat)],
{
    proof {
        reveal_strlit("0");
        reveal_strlit("1");
        reveal_strlit("2");
        reveal_strlit("3");
        reveal_strlit("4");
        reveal_strlit("5");
        reveal_strlit("6");
        reveal_strlit("7");
        reveal_strlit("8");
        reveal_strlit("9");
    }
    if d == 0 { "0" }
    else if d == 1 { "1" }
    else if d == 2 { "2" }
    else if d == 3 { "3" }
    else if d == 4 { "4" }
    else if d == 5 { "5" }
    else if d == 6 { "6" }
    else if d == 7 { "7" }
    else if d == 8 { "8" }
    else { "9" }
}

/// Appends the decimal rendering of `n` to `s`.
fn push_decimal(s: &mut String, n: usize)
    ensures
        final(s)@ == old(s)@ + spec_dec(n as nat),
    decreases n,
{
    if n >= 10 {
        push_decimal(s, n / 10);
    }
    s.append(digit_str(n % 10));
    proof {
        assert(s@ =~= old(s)@ + spec_dec(n as nat));
    }
}

impl GridPosition {
    /// Renders the position as text, such as "A9".
    pub fn render(&self) -> (r: String)
        ensures
            r@ == spec_pos_text(pos_key(*self)),
    {
        let mut s = self.column.clone();
        push_decimal(&mut s, self.row);
        s
    }
}

} // verus!
