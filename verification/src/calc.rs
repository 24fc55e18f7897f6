//! The calculator line protocol's command parser: picks the operator a
//! command uses and splits the line into its two operand texts. Evaluating
//! the operands is left to the caller, which owns the number format.

use vstd::prelude::*;
use crate::bytesutil::{find_byte, lemma_find_byte, spec_find_byte};

verus! {

/// The operator a command line uses and where it stands: the first
/// operator, in the fixed trial order `*`, `/`, `+`, `-`, `^`, that occurs
/// in the line at all, at its first occurrence.
pub open spec fn spec_find_operator(line: Seq<u8>) -> Option<(u8, int)> {
    if spec_find_byte(line, 42) is Some {
        Some((42u8, spec_find_byte(line, 42)->Some_0))
    } else if spec_find_byte(line, 47) is Some {
        Some((47u8, spec_find_byte(line, 47)->Some_0))
    } else if spec_find_byte(line, 43) is Some {
        Some((43u8, spec_find_byte(line, 43)->Some_0))
    } else if spec_find_byte(line, 45) is Some {
        Some((45u8, spec_find_byte(line, 45)->Some_0))
    } else if spec_find_byte(line, 94) is Some {
        Some((94u8, spec_find_byte(line, 94)->Some_0))
    } else {
        None
    }
}

/// Finds the command's operator, trying `*`, `/`, `+`, `-`, `^` in that
/// order and taking the first occurrence of the first that is present.
pub fn find_operator(line: &[u8]) -> (r: Option<(u8, usize)>)
    ensures
        match spec_find_operator(line@) {
            Some(p) => r matches Some(q) && q.0 == p.0 && q.1 as int == p.1,
            None => r is None,
        },
{
    match find_byte(line, 42) {
        Some(i) => Some((42, i)),
        None => match find_byte(line, 47) {
            Some(i) => Some((47, i)),
            None => match find_byte(line, 43) {
                Some(i) => Some((43, i)),
                None => match find_byte(line, 45) {
                    Some(i) => Some((45, i)),
                    None => match find_byte(line, 94) {
                        Some(i) => Some((94, i)),
                        None => None,
                    },
                },
            },
        },
    }
}

/// Splits a command at its operator: the operator byte, everything before
/// it, and everything after it. A line without an operator is a bare
/// number and is handed back whole to be parsed as one.
pub fn split_command(line: &[u8]) -> (r: Option<(u8, Vec<u8>, Vec<u8>)>)
    ensures
        match spec_find_operator(line@) {
            Some(p) => r matches Some(q) && q.0 == p.0 && q.1@ == line@.take(p.1) && q.2@
                == line@.skip(p.1 + 1),
            None => r is None,
        },
{
    proof {
        lemma_find_byte(line@, 42);
        lemma_find_byte(line@, 47);
        lemma_find_byte(line@, 43);
        lemma_find_byte(line@, 45);
        lemma_find_byte(line@, 94);
    }
    let n = line.len();
    match find_operator(line) {
        None => None,
        Some((op, i)) => {
            let lhs = vstd::slice::slice_to_vec(vstd::slice::slice_subrange(line, 0, i));
            let rhs = vstd::slice::slice_to_vec(vstd::slice::slice_subrange(line, i + 1, n));
            Some((op, lhs, rhs))
        },
    }
}

} // verus!
