//! Dictionary-based rewriting of byte strings.
//!
//! [`naive_ac`] holds the automaton that finds every occurrence of a set of
//! patterns in one pass over a text and replaces the chosen ones by their
//! payloads. [`policy`] states, as mathematics, which occurrences are chosen
//! and what the rewritten text is. [`dict`] reads the lines of a dictionary
//! file. [`naive_trie`] is a small prefix tree for membership tests.

pub mod dict;
pub mod naive_ac;
pub mod naive_trie;
pub mod policy;
