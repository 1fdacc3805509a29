//! A verified parsing engine over interned grammars: LALR(1), Earley and CYK
//! parsers, the tree builder that they share, indentation post-lexing,
//! interactive and recovering parsing, and reconstruction of text from trees.

pub mod accepts_laws;
pub mod agreement;
pub mod ambig_laws;
pub mod analysis;
pub mod best_laws;
pub mod bits;
pub mod built;
pub mod choice_laws;
pub mod cnf;
pub mod cnf_laws;
pub mod count_laws;
pub mod cyk;
pub mod cyk_empties;
pub mod cyk_laws;
pub mod cyk_trees;
pub mod cyk_weights;
pub mod derivation;
pub mod driving_laws;
pub mod earley;
pub mod earley_alone;
pub mod earley_build;
pub mod earley_carry;
pub mod earley_chain;
pub mod earley_chart;
pub mod earley_complete;
pub mod earley_dynamic;
pub mod earley_every;
pub mod earley_exact;
pub mod earley_explicit;
pub mod earley_fill;
pub mod earley_filled;
pub mod earley_forest;
pub mod earley_forests;
pub mod earley_good;
pub mod earley_laws;
pub mod earley_led;
pub mod earley_leo;
pub mod earley_load;
pub mod earley_offered;
pub mod earley_paths;
pub mod earley_places;
pub mod earley_rank;
pub mod earley_reach;
pub mod earley_recognizer;
pub mod earley_shape;
pub mod earley_sound;
pub mod earley_sprung;
pub mod earley_text;
pub mod earley_tree;
pub mod earley_shown;
pub mod earley_value;
pub mod earley_whole;
pub mod earley_wired;
pub mod empty_laws;
pub mod empty_values;
pub mod error;
pub mod family_laws;
pub mod follow_laws;
pub mod frontend;
pub mod indent_laws;
pub mod interactive;
pub mod lalr;
pub mod lalr_complete;
pub mod lalr_laws;
pub mod lalr_stack;
pub mod lalr_table;
pub mod lalr_trees;
pub mod lalr_unique;
pub mod lazy_laws;
pub mod lex_laws;
pub mod lex_sources;
pub mod lexer;
pub mod list_laws;
pub mod lookahead;
pub mod lr0;
pub mod option_laws;
pub mod output;
pub mod pattern;
pub mod pattern_laws;
pub mod perf;
pub mod postlex;
pub mod postlex_laws;
pub mod rank_laws;
pub mod reading;
pub mod recons_best;
pub mod recons_laws;
pub mod recons_match;
pub mod recons_rules;
pub mod recons_trip;
pub mod recons_words;
pub mod reconstruct;
pub mod recovery;
pub mod recovery_laws;
pub mod relex_laws;
pub mod report_laws;
pub mod resume_laws;
pub mod scan_laws;
pub mod scanner;
pub mod shape_laws;
pub mod span_laws;
pub mod span_tree;
pub mod standalone;
pub mod standalone_files;
pub mod standalone_laws;
pub mod steps;
pub mod symbols;
pub mod table_laws;
pub mod tally;
pub mod text;
pub mod text_laws;
pub mod tie_laws;
pub mod token_source;
pub mod tree;
pub mod tree_builder;
pub mod value_key;
pub mod weight_laws;
