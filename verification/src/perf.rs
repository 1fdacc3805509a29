//! Counters of work. They are deterministic, so that the growth of the work with
//! the size of the input can be held to a bound.
//!
//! The functions whose names end in `_counted` add to them: those of the Earley
//! parser to the steps of completions, the nodes of forests and the work of
//! showing all derivations, that of the CYK parser to the steps of its table,
//! those of the LALR table and parser to the cells of actions, the reductions
//! and, where there is a tree, its nodes and token texts. Nothing here adds to
//! the other counters.

use vstd::prelude::*;

verus! {

/// Whether work can be counted.
pub const ENABLED: bool = true;

/// Counts of work done, and a switch for the shortcuts of the Earley parser.
#[derive(Clone, Copy, PartialEq, Eq, Debug, Structural)]
pub struct Counters {
    pub completer_scan_steps: u64,
    pub explicit_prefix_copies: u64,
    pub explicit_node_children: u64,
    pub explicit_assemble_children: u64,
    pub explicit_derivations: u64,
    pub forest_nodes: u64,
    pub cyk_table_steps: u64,
    pub lexer_scan_steps: u64,
    pub dense_build_bytes: u64,
    pub expansion_alts: u64,
    pub parse_table_action_cells: u64,
    pub tree_nodes_built: u64,
    pub token_value_string_bytes: u64,
    pub lexer_token_value_bytes: u64,
    pub semantic_reduce_calls: u64,
    pub child_vec_allocs: u64,
    pub leo_disabled: bool,
}

/// No work counted, and shortcuts taken.
pub open spec fn no_work() -> Counters {
    Counters {
        completer_scan_steps: 0,
        explicit_prefix_copies: 0,
        explicit_node_children: 0,
        explicit_assemble_children: 0,
        explicit_derivations: 0,
        forest_nodes: 0,
        cyk_table_steps: 0,
        lexer_scan_steps: 0,
        dense_build_bytes: 0,
        expansion_alts: 0,
        parse_table_action_cells: 0,
        tree_nodes_built: 0,
        token_value_string_bytes: 0,
        lexer_token_value_bytes: 0,
        semantic_reduce_calls: 0,
        child_vec_allocs: 0,
        leo_disabled: false,
    }
}

/// A count with more added; it starts over past the largest number.
pub open spec fn counted(n: u64, by: nat) -> u64 {
    ((n + by) % 0x1_0000_0000_0000_0000) as u64
}

/// Counting twice is counting the sum.
pub proof fn lemma_counted(n: u64, a: nat, b: nat)
    ensures
        counted(counted(n, a), b) == counted(n, a + b),
{
}

/// Counting nothing changes nothing.
pub proof fn lemma_counted_nothing(n: u64)
    ensures
        counted(n, 0) == n,
{
}

/// Adding a count adds what was counted.
pub proof fn lemma_counted_mod(n: u64, m: u64, by: nat)
    ensures
        counted(n, counted(m, by) as nat) == counted(n, m as nat + by),
{
}

/// A count with more added.
pub fn count(n: u64, by: u64) -> (r: u64)
    ensures
        r == counted(n, by as nat),
{
    if n > u64::MAX - by {
        by - (u64::MAX - n) - 1
    } else {
        n + by
    }
}

impl Counters {
    /// No work counted, and shortcuts taken.
    pub fn new() -> (r: Counters)
        ensures
            r == no_work(),
    {
        Counters {
            completer_scan_steps: 0,
            explicit_prefix_copies: 0,
            explicit_node_children: 0,
            explicit_assemble_children: 0,
            explicit_derivations: 0,
            forest_nodes: 0,
            cyk_table_steps: 0,
            lexer_scan_steps: 0,
            dense_build_bytes: 0,
            expansion_alts: 0,
            parse_table_action_cells: 0,
            tree_nodes_built: 0,
            token_value_string_bytes: 0,
            lexer_token_value_bytes: 0,
            semantic_reduce_calls: 0,
            child_vec_allocs: 0,
            leo_disabled: false,
        }
    }
}

/// Counts more of the items that completion examines.
pub fn add_completer_scan_steps(c: &mut Counters, n: u64)
    ensures
        *final(c) == (Counters { completer_scan_steps: counted(old(c).completer_scan_steps, n as nat), ..*old(c) }),
{
    c.completer_scan_steps = count(c.completer_scan_steps, n);
}

/// Counts more of the values copied to combine alternatives.
pub fn add_explicit_prefix_copies(c: &mut Counters, n: u64)
    ensures
        *final(c) == (Counters { explicit_prefix_copies: counted(old(c).explicit_prefix_copies, n as nat), ..*old(c) }),
{
    c.explicit_prefix_copies = count(c.explicit_prefix_copies, n);
}

/// Counts more of the children of the values kept for all derivations of a node.
pub fn add_explicit_node_children(c: &mut Counters, n: u64)
    ensures
        *final(c) == (Counters { explicit_node_children: counted(old(c).explicit_node_children, n as nat), ..*old(c) }),
{
    c.explicit_node_children = count(c.explicit_node_children, n);
}

/// Counts more of the children handed on to assemble a derivation.
pub fn add_explicit_assemble_children(c: &mut Counters, n: u64)
    ensures
        *final(c) == (Counters { explicit_assemble_children: counted(old(c).explicit_assemble_children, n as nat), ..*old(c) }),
{
    c.explicit_assemble_children = count(c.explicit_assemble_children, n);
}

/// Counts one more of the derivations kept.
pub fn add_explicit_derivation(c: &mut Counters)
    ensures
        *final(c) == (Counters { explicit_derivations: counted(old(c).explicit_derivations, 1), ..*old(c) }),
{
    c.explicit_derivations = count(c.explicit_derivations, 1);
}

/// Counts one more of the nodes of parse forests.
pub fn add_forest_node(c: &mut Counters)
    ensures
        *final(c) == (Counters { forest_nodes: counted(old(c).forest_nodes, 1), ..*old(c) }),
{
    c.forest_nodes = count(c.forest_nodes, 1);
}

/// Counts more of the combinations that the table of a CYK parse tries.
pub fn add_cyk_table_steps(c: &mut Counters, n: u64)
    ensures
        *final(c) == (Counters { cyk_table_steps: counted(old(c).cyk_table_steps, n as nat), ..*old(c) }),
{
    c.cyk_table_steps = count(c.cyk_table_steps, n);
}

/// Counts more of the steps of scanning.
pub fn add_lexer_scan_steps(c: &mut Counters, n: u64)
    ensures
        *final(c) == (Counters { lexer_scan_steps: counted(old(c).lexer_scan_steps, n as nat), ..*old(c) }),
{
    c.lexer_scan_steps = count(c.lexer_scan_steps, n);
}

/// Counts more of the bytes of built automata.
pub fn add_dense_build_bytes(c: &mut Counters, n: u64)
    ensures
        *final(c) == (Counters { dense_build_bytes: counted(old(c).dense_build_bytes, n as nat), ..*old(c) }),
{
    c.dense_build_bytes = count(c.dense_build_bytes, n);
}

/// Counts more of the alternatives made while expanding a rule.
pub fn add_expansion_alts(c: &mut Counters, n: u64)
    ensures
        *final(c) == (Counters { expansion_alts: counted(old(c).expansion_alts, n as nat), ..*old(c) }),
{
    c.expansion_alts = count(c.expansion_alts, n);
}

/// Counts more of the cells that parse tables store.
pub fn add_parse_table_action_cells(c: &mut Counters, n: u64)
    ensures
        *final(c) == (Counters { parse_table_action_cells: counted(old(c).parse_table_action_cells, n as nat), ..*old(c) }),
{
    c.parse_table_action_cells = count(c.parse_table_action_cells, n);
}

/// Counts one more of the tree nodes built.
pub fn add_tree_node_built(c: &mut Counters)
    ensures
        *final(c) == (Counters { tree_nodes_built: counted(old(c).tree_nodes_built, 1), ..*old(c) }),
{
    c.tree_nodes_built = count(c.tree_nodes_built, 1);
}

/// Counts more of the bytes of token texts copied into output.
pub fn add_token_value_string_bytes(c: &mut Counters, n: u64)
    ensures
        *final(c) == (Counters { token_value_string_bytes: counted(old(c).token_value_string_bytes, n as nat), ..*old(c) }),
{
    c.token_value_string_bytes = count(c.token_value_string_bytes, n);
}

/// Counts more of the bytes of token texts that lexing makes.
pub fn add_lexer_token_value_bytes(c: &mut Counters, n: u64)
    ensures
        *final(c) == (Counters { lexer_token_value_bytes: counted(old(c).lexer_token_value_bytes, n as nat), ..*old(c) }),
{
    c.lexer_token_value_bytes = count(c.lexer_token_value_bytes, n);
}

/// Counts one more of the reductions shaped.
pub fn add_semantic_reduce_call(c: &mut Counters)
    ensures
        *final(c) == (Counters { semantic_reduce_calls: counted(old(c).semantic_reduce_calls, 1), ..*old(c) }),
{
    c.semantic_reduce_calls = count(c.semantic_reduce_calls, 1);
}

/// Counts one more of the lists of children made.
pub fn add_child_vec_alloc(c: &mut Counters)
    ensures
        *final(c) == (Counters { child_vec_allocs: counted(old(c).child_vec_allocs, 1), ..*old(c) }),
{
    c.child_vec_allocs = count(c.child_vec_allocs, 1);
}

/// Sets all counts to zero. The switch stays as it is.
pub fn reset(c: &mut Counters)
    ensures
        *final(c) == (Counters { leo_disabled: old(c).leo_disabled, ..no_work() }),
{
    let switch = c.leo_disabled;
    *c = Counters::new();
    c.leo_disabled = switch;
}

/// How many: the items that completion examines.
pub fn completer_scan_steps(c: &Counters) -> (r: u64)
    ensures
        r == c.completer_scan_steps,
{
    c.completer_scan_steps
}

/// How many: the values copied to combine alternatives.
pub fn explicit_prefix_copies(c: &Counters) -> (r: u64)
    ensures
        r == c.explicit_prefix_copies,
{
    c.explicit_prefix_copies
}

/// How many: the children of the values kept for all derivations of a node.
pub fn explicit_node_children(c: &Counters) -> (r: u64)
    ensures
        r == c.explicit_node_children,
{
    c.explicit_node_children
}

/// How many: the children handed on to assemble a derivation.
pub fn explicit_assemble_children(c: &Counters) -> (r: u64)
    ensures
        r == c.explicit_assemble_children,
{
    c.explicit_assemble_children
}

/// How many: the derivations kept.
pub fn explicit_derivations(c: &Counters) -> (r: u64)
    ensures
        r == c.explicit_derivations,
{
    c.explicit_derivations
}

/// How many: the nodes of parse forests.
pub fn forest_nodes(c: &Counters) -> (r: u64)
    ensures
        r == c.forest_nodes,
{
    c.forest_nodes
}

/// How many: the combinations that the table of a CYK parse tries.
pub fn cyk_table_steps(c: &Counters) -> (r: u64)
    ensures
        r == c.cyk_table_steps,
{
    c.cyk_table_steps
}

/// How many: the steps of scanning.
pub fn lexer_scan_steps(c: &Counters) -> (r: u64)
    ensures
        r == c.lexer_scan_steps,
{
    c.lexer_scan_steps
}

/// How many: the bytes of built automata.
pub fn dense_build_bytes(c: &Counters) -> (r: u64)
    ensures
        r == c.dense_build_bytes,
{
    c.dense_build_bytes
}

/// How many: the alternatives made while expanding a rule.
pub fn expansion_alts(c: &Counters) -> (r: u64)
    ensures
        r == c.expansion_alts,
{
    c.expansion_alts
}

/// How many: the cells that parse tables store.
pub fn parse_table_action_cells(c: &Counters) -> (r: u64)
    ensures
        r == c.parse_table_action_cells,
{
    c.parse_table_action_cells
}

/// How many: the tree nodes built.
pub fn tree_nodes_built(c: &Counters) -> (r: u64)
    ensures
        r == c.tree_nodes_built,
{
    c.tree_nodes_built
}

/// How many: the bytes of token texts copied into output.
pub fn token_value_string_bytes(c: &Counters) -> (r: u64)
    ensures
        r == c.token_value_string_bytes,
{
    c.token_value_string_bytes
}

/// How many: the bytes of token texts that lexing makes.
pub fn lexer_token_value_bytes(c: &Counters) -> (r: u64)
    ensures
        r == c.lexer_token_value_bytes,
{
    c.lexer_token_value_bytes
}

/// How many: the reductions shaped.
pub fn semantic_reduce_calls(c: &Counters) -> (r: u64)
    ensures
        r == c.semantic_reduce_calls,
{
    c.semantic_reduce_calls
}

/// How many: the lists of children made.
pub fn child_vec_allocs(c: &Counters) -> (r: u64)
    ensures
        r == c.child_vec_allocs,
{
    c.child_vec_allocs
}

/// Turns the shortcuts of the Earley parser off or on.
pub fn set_leo_disabled(c: &mut Counters, disabled: bool)
    ensures
        *final(c) == (Counters { leo_disabled: disabled, ..*old(c) }),
{
    c.leo_disabled = disabled;
}

/// Whether the shortcuts of the Earley parser are off.
pub fn leo_disabled(c: &Counters) -> (r: bool)
    ensures
        r == c.leo_disabled,
{
    c.leo_disabled
}

} // verus!
