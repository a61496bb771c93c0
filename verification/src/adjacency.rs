//! Which states may stand next to each other.

use crate::roots::{integer_sqrt, lemma_root, root};
use vstd::prelude::*;

verus! {

/// The distance between two numbers.
pub open spec fn gap(a: int, b: int) -> int {
    if a < b {
        b - a
    } else {
        a - b
    }
}

/// The positional rule. The states are laid out in rows of `side`: state `a`
/// stands at row `a % side` and column `a / side`. Two states are compatible
/// when their rows and their columns differ by at most 1 each. This stands in
/// for a comparison of the patterns themselves, which it does not look at.
pub open spec fn positional(side: nat, a: int, b: int) -> bool {
    &&& side > 0
    &&& gap(a % side as int, b % side as int) <= 1
    &&& gap(a / side as int, b / side as int) <= 1
}

/// In every row the table has `states` entries, and it has `states` rows.
pub open spec fn is_square(table: Seq<Vec<bool>>, states: nat) -> bool {
    &&& table.len() == states
    &&& forall|a: int| 0 <= a < table.len() ==> (#[trigger] table[a])@.len() == states
}

/// The rule that says which states may stand next to each other.
#[derive(Debug)]
pub enum Adjacency {
    /// The positional rule over rows of `side` states.
    Positional { side: usize },
    /// One entry for each ordered pair of states.
    Table { table: Vec<Vec<bool>> },
}

impl Adjacency {
    /// Whether state `b` may stand next to state `a`.
    pub open spec fn allows(&self, a: int, b: int) -> bool {
        match self {
            Adjacency::Positional { side } => 0 <= a && 0 <= b && positional(*side as nat, a, b),
            Adjacency::Table { table } => {
                &&& 0 <= a < table@.len()
                &&& 0 <= b < table@[a]@.len()
                &&& table@[a]@[b]
            },
        }
    }

    /// The rule was made for a catalog of `states` states.
    pub open spec fn fits(&self, states: nat) -> bool {
        match self {
            Adjacency::Positional { side } => *side == root(states),
            Adjacency::Table { table } => is_square(table@, states),
        }
    }

    /// The positional rule for a catalog of `states` states: the side of the
    /// layout is the square root of `states`, rounded down.
    pub fn positional(states: usize) -> (rule: Adjacency)
        ensures
            rule == (Adjacency::Positional { side: root(states as nat) as usize }),
            root(states as nat) <= states,
            rule.fits(states as nat),
    {
        Adjacency::Positional { side: side_of(states) }
    }

    /// The rule given by a table, if the table has one entry for each ordered
    /// pair of the `states` states.
    pub fn table(table: Vec<Vec<bool>>, states: usize) -> (rule: Option<Adjacency>)
        ensures
            rule is Some <==> is_square(table@, states as nat),
            rule matches Some(r) ==> r == (Adjacency::Table { table }),
    {
        if table.len() != states {
            return None;
        }
        let mut a: usize = 0;
        while a < table.len()
            invariant
                a <= table.len(),
                table.len() == states,
                forall|j: int| 0 <= j < a ==> (#[trigger] table@[j])@.len() == states,
            decreases table.len() - a,
        {
            if table[a].len() != states {
                return None;
            }
            a += 1;
        }
        Some(Adjacency::Table { table })
    }

    /// Whether state `b` may stand next to state `a`.
    pub fn compatible(&self, a: usize, b: usize) -> (ok: bool)
        ensures
            ok == self.allows(a as int, b as int),
    {
        match self {
            Adjacency::Positional { side } => positional_neighbors(*side, a, b),
            Adjacency::Table { table } => {
                if a < table.len() && b < table[a].len() {
                    table[a][b]
                } else {
                    false
                }
            },
        }
    }
}

/// The side of the square in which `states` states are laid out.
pub fn side_of(states: usize) -> (side: usize)
    ensures
        side == root(states as nat),
        side <= states,
{
    let r: u128 = integer_sqrt(states as u128);
    proof {
        lemma_root(states as nat);
        assert(r <= r * r) by (nonlinear_arith);
    }
    r as usize
}

/// The positional rule over rows of `side` states.
pub fn positional_neighbors(side: usize, a: usize, b: usize) -> (ok: bool)
    ensures
        ok == positional(side as nat, a as int, b as int),
{
    if side == 0 {
        return false;
    }
    let row_a: usize = a % side;
    let row_b: usize = b % side;
    let col_a: usize = a / side;
    let col_b: usize = b / side;
    let dx: usize = if row_a < row_b {
        row_b - row_a
    } else {
        row_a - row_b
    };
    let dy: usize = if col_a < col_b {
        col_b - col_a
    } else {
        col_a - col_b
    };
    dx <= 1 && dy <= 1
}

} // verus!
