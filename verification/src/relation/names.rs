//! The names of columns and tables, told apart.

use vstd::prelude::*;

verus! {

/// The columns, by their length and how they begin.
pub proof fn lemma_columns()
    ensures
        "source_id"@.len() == 9 && "source_id"@[0] == 's' && "source_id"@[1] == 'o',
        "target_id"@.len() == 9 && "target_id"@[0] == 't' && "target_id"@[1] == 'a',
        "edge_type"@.len() == 9 && "edge_type"@[0] == 'e' && "edge_type"@[1] == 'd',
        "valid_from"@.len() == 10 && "valid_from"@[0] == 'v' && "valid_from"@[1] == 'a',
        "valid_to"@.len() == 8 && "valid_to"@[0] == 'v' && "valid_to"@[1] == 'a',
        "weight"@.len() == 6 && "weight"@[0] == 'w' && "weight"@[1] == 'e',
        "properties"@.len() == 10 && "properties"@[0] == 'p' && "properties"@[1] == 'r',
        "recorded_at"@.len() == 11 && "recorded_at"@[0] == 'r' && "recorded_at"@[1] == 'e',
        "branch_id"@.len() == 9 && "branch_id"@[0] == 'b' && "branch_id"@[1] == 'r',
        "rn"@.len() == 2 && "rn"@[0] == 'r' && "rn"@[1] == 'n',
        "entity_id"@.len() == 9 && "entity_id"@[0] == 'e' && "entity_id"@[1] == 'n',
        "cutoff"@.len() == 6 && "cutoff"@[0] == 'c' && "cutoff"@[1] == 'u',
        "dist"@.len() == 4 && "dist"@[0] == 'd' && "dist"@[1] == 'i',
        "payload"@.len() == 7 && "payload"@[0] == 'p' && "payload"@[1] == 'a',
        "seq_id"@.len() == 6 && "seq_id"@[0] == 's' && "seq_id"@[1] == 'e',
        "table_name"@.len() == 10 && "table_name"@[0] == 't' && "table_name"@[1] == 'a',
        "concept_id"@.len() == 10 && "concept_id"@[0] == 'c' && "concept_id"@[1] == 'o',
        "parent_id"@.len() == 9 && "parent_id"@[0] == 'p' && "parent_id"@[1] == 'a',
        "forked_at"@.len() == 9 && "forked_at"@[0] == 'f' && "forked_at"@[1] == 'o',
        "created_at"@.len() == 10 && "created_at"@[0] == 'c' && "created_at"@[1] == 'r',
        "node_id"@.len() == 7 && "node_id"@[0] == 'n' && "node_id"@[1] == 'o',
        "depth"@.len() == 5 && "depth"@[0] == 'd' && "depth"@[1] == 'e',
{
    reveal_strlit("source_id");
    reveal_strlit("target_id");
    reveal_strlit("edge_type");
    reveal_strlit("valid_from");
    reveal_strlit("valid_to");
    reveal_strlit("weight");
    reveal_strlit("properties");
    reveal_strlit("recorded_at");
    reveal_strlit("branch_id");
    reveal_strlit("rn");
    reveal_strlit("entity_id");
    reveal_strlit("cutoff");
    reveal_strlit("dist");
    reveal_strlit("payload");
    reveal_strlit("seq_id");
    reveal_strlit("table_name");
    reveal_strlit("concept_id");
    reveal_strlit("parent_id");
    reveal_strlit("forked_at");
    reveal_strlit("created_at");
    reveal_strlit("node_id");
    reveal_strlit("depth");
}

/// The short names that a statement gives its tables, and a table that goes by
/// its own.
pub proof fn lemma_aliases()
    ensures
        "lc"@.len() == 2 && "lc"@[0] == 'l' && "lc"@[1] == 'c',
        "g"@.len() == 1 && "g"@[0] == 'g',
        "k"@.len() == 1 && "k"@[0] == 'k',
        "l"@.len() == 1 && "l"@[0] == 'l',
        "e"@.len() == 1 && "e"@[0] == 'e',
        "c"@.len() == 1 && "c"@[0] == 'c',
        "a"@.len() == 1 && "a"@[0] == 'a',
        "b"@.len() == 1 && "b"@[0] == 'b',
        "w"@.len() == 1 && "w"@[0] == 'w',
        "transaction_log"@.len() == 15,
{
    reveal_strlit("lc");
    reveal_strlit("g");
    reveal_strlit("k");
    reveal_strlit("l");
    reveal_strlit("e");
    reveal_strlit("c");
    reveal_strlit("a");
    reveal_strlit("b");
    reveal_strlit("w");
    reveal_strlit("transaction_log");
}

} // verus!
