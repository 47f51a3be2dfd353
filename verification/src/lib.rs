//! A PEG-style syntax engine: a recursive descent evaluator that matches
//! a compiled rule graph against an input string and builds a concrete
//! syntax tree annotated with AST-reflection tags.
//!
//! The engine supports ordered choice, sequences, bounded and unbounded
//! repetition, positive and negative lookahead, character classes,
//! string literals, wildcard, unordered groups, rule-valued arguments,
//! packrat memoization, and the built-in `JOIN` primitive that flattens
//! a matched subtree into one leaf.
//!
//! The central verified guarantees: a successful step never moves the
//! cursor backwards; a failed attempt leaves the cursor exactly where it
//! was; lookahead never consumes input; literals, character classes and
//! the wildcard match exactly as specified, down to the emitted leaf and
//! the line tracker's update; the memo cache replays recorded outcomes
//! and records exactly the advancing ones; for a rule whose body is one
//! run of primitives — each greedily repeated within its range or
//! standing as a lookahead assertion — the whole parse is characterised:
//! it succeeds if and only if the run spells the entire input, returning
//! exactly the tree of those leaves, fails cleanly otherwise, and
//! reports a repetition beyond the limit as the matching hard error; and
//! for any grammar free of `JOIN` a successful parse returns a tree
//! whose leaves, read in depth-first order, spell exactly the consumed
//! input.

pub mod ext;
pub mod parser;
pub mod rule;
pub mod tree;
