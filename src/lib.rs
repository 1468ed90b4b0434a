use vstd::prelude::*;

pub mod dictionary;
pub mod ranking;
pub mod solver;
pub mod trie_node;

use crate::ranking::ranked;
use crate::solver::{reported, strs, Solver};
use crate::trie_node::TrieNode;

verus! {

/// Every word of `dictionary` of at least three characters that a path of
/// touching cells of `board` spells, each once, longest first and words of
/// equal length in dictionary order.
pub fn solve_words(dictionary: &TrieNode, board: Vec<Vec<String>>) -> (r: Vec<String>)
    requires
        dictionary.wf(),
    ensures
        ranked(strs(r@)),
        forall|w: Seq<char>| #[trigger] strs(r@).contains(w) == reported(dictionary@, board@, w),
{
    let solver = Solver::new(dictionary);
    solver.find_all_words(board.as_slice())
}

} // verus!
