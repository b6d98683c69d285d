//! De-identification of Java sources: method names, parameters and local
//! variables are replaced by synthetic names, everything else is left as it is.
//!
//! A source is parsed into a flattened syntax tree ([`parser`], [`syntax`]).
//! The method renamer ([`methods`]) and the local-identifier renamer
//! ([`locals`]) walk that tree and take the spans that they replace into a
//! rewrite ([`rewrite`]), which refuses what may not be replaced: reserved
//! words ([`keywords`]), strings, character literals and comments
//! ([`protect`]), and what has been replaced already. The replacements are
//! applied in one rewrite of the source ([`patch`]). What holds of the result
//! is stated in [`patch_laws`], [`protect_laws`] and [`laws`]; [`obfuscator`]
//! runs the two renamers one after the other.

pub mod batch;
pub mod cli;
pub mod helper;
pub mod keywords;
pub mod laws;
pub mod locals;
pub mod methods;
pub mod names;
pub mod obfuscator;
pub mod parser;
pub mod patch;
pub mod patch_laws;
pub mod protect;
pub mod protect_laws;
pub mod record;
pub mod rewrite;
pub mod syntax;
