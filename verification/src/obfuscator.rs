//! The obfuscation of one source: the method renamer, then the
//! local-identifier renamer on what the first has made of it.

use vstd::prelude::*;
use vstd::utf8::*;
use vstd::string::*;
use crate::laws::{lemma_kept_through, lemma_unchanged_keeps, protected_text_kept};
use crate::locals::{local_pass, rename_locals};
use crate::methods::{lemma_method_edits, method_edits, method_pass, rename_methods};
use crate::parser::{java_nodes, parse_java};

verus! {

/// What a renamer hands back: the text with its renames applied, or the
/// source as it was, where no syntax tree was to be had. A source that
/// cannot be parsed is no error.
pub enum Outcome {
    Renamed(String),
    Unchanged(String),
}

impl Outcome {
    /// The text of the outcome.
    pub open spec fn text(self) -> Seq<char> {
        match self {
            Outcome::Renamed(t) => t@,
            Outcome::Unchanged(t) => t@,
        }
    }

    /// Whether a syntax tree was had and the renames were applied.
    pub fn is_renamed(&self) -> (renamed: bool)
        ensures
            renamed == (self is Renamed),
    {
        match self {
            Outcome::Renamed(_) => true,
            Outcome::Unchanged(_) => false,
        }
    }

    /// The text of the outcome.
    pub fn into_text(self) -> (t: String)
        ensures
            t@ == self.text(),
    {
        match self {
            Outcome::Renamed(t) => t,
            Outcome::Unchanged(t) => t,
        }
    }
}

/// The bytes of a source after the method renamer: where the source has a
/// syntax tree, the methods of that tree are renamed; where it has none, the
/// source is left as it is.
pub open spec fn methods_renamed(source: Seq<char>) -> Seq<u8> {
    match java_nodes(source) {
        Some(nodes) => method_pass(encode_utf8(source), nodes),
        None => encode_utf8(source),
    }
}

/// The bytes of a source after the local-identifier renamer: where the source
/// has a syntax tree, the parameters and locals of the methods of that tree
/// are renamed; where it has none, the source is left as it is.
pub open spec fn locals_renamed(source: Seq<char>) -> Seq<u8> {
    match java_nodes(source) {
        Some(nodes) => local_pass(encode_utf8(source), nodes),
        None => encode_utf8(source),
    }
}

/// The bytes of a source after both renamers: the methods are renamed, then,
/// in the text that this has given, the parameters and locals.
pub open spec fn obfuscated(source: Seq<char>) -> Seq<u8> {
    locals_renamed(decode_utf8(methods_renamed(source)))
}

/// Parses `java_code` and renames its methods. The outcome is `Renamed`
/// where the source has a syntax tree and `Unchanged`, with the source as it
/// was, where it has none. Either way the strings, character literals and
/// comments of the source are kept.
pub fn method_renaming(java_code: &str) -> (outcome: Outcome)
    ensures
        outcome is Renamed <==> java_nodes(java_code@).is_some(),
        outcome matches Outcome::Unchanged(t) ==> t@ == java_code@,
        encode_utf8(outcome.text()) == methods_renamed(java_code@),
        protected_text_kept(encode_utf8(java_code@), encode_utf8(outcome.text())),
{
    match parse_java(java_code) {
        Some(tree) => Outcome::Renamed(rename_methods(java_code, &tree)),
        None => {
            proof {
                lemma_unchanged_keeps(encode_utf8(java_code@));
            }
            Outcome::Unchanged(String::from_str(java_code))
        },
    }
}

/// Parses `java_code` and renames the parameters and local variables of its
/// methods. The outcome is `Renamed` where the source has a syntax tree and
/// `Unchanged`, with the source as it was, where it has none. Either way the
/// strings, character literals and comments of the source are kept.
pub fn local_renaming(java_code: &str) -> (outcome: Outcome)
    ensures
        outcome is Renamed <==> java_nodes(java_code@).is_some(),
        outcome matches Outcome::Unchanged(t) ==> t@ == java_code@,
        encode_utf8(outcome.text()) == locals_renamed(java_code@),
        protected_text_kept(encode_utf8(java_code@), encode_utf8(outcome.text())),
{
    match parse_java(java_code) {
        Some(tree) => Outcome::Renamed(rename_locals(java_code, &tree)),
        None => {
            proof {
                lemma_unchanged_keeps(encode_utf8(java_code@));
            }
            Outcome::Unchanged(String::from_str(java_code))
        },
    }
}

/// The text of `java_code` with its methods renamed: `func_1`, `func_2` and
/// so on, in the order of their declarations. A source that cannot be
/// parsed is handed back unchanged.
pub fn obfuscate_function_names(java_code: &str) -> (result: String)
    ensures
        encode_utf8(result@) == methods_renamed(java_code@),
        protected_text_kept(encode_utf8(java_code@), encode_utf8(result@)),
{
    method_renaming(java_code).into_text()
}

/// The text of `java_code` with the parameters and local variables of its
/// methods renamed: `var_1`, `var_2` and so on, anew in each method. A source
/// that cannot be parsed is handed back unchanged.
pub fn obfuscate_code(java_code: &str) -> (result: String)
    ensures
        encode_utf8(result@) == locals_renamed(java_code@),
        protected_text_kept(encode_utf8(java_code@), encode_utf8(result@)),
{
    local_renaming(java_code).into_text()
}

/// Obfuscates the source `code`: first the methods are renamed, then, in
/// the text that this has given, the parameters and local variables. The
/// strings, character literals and comments of the source are kept through
/// both.
pub fn obfuscate(code: &str) -> (result: String)
    ensures
        encode_utf8(result@) == obfuscated(code@),
        protected_text_kept(encode_utf8(code@), encode_utf8(result@)),
{
    let func_name_obfuscated = obfuscate_function_names(code);
    proof {
        encode_utf8_decode_utf8(func_name_obfuscated@);
    }
    let result = obfuscate_code(func_name_obfuscated.as_str());
    proof {
        let source = encode_utf8(code@);
        match java_nodes(code@) {
            Some(nodes) => {
                lemma_method_edits(source, nodes, nodes.len() as int);
                lemma_kept_through(
                    source,
                    method_edits(source, nodes, nodes.len() as int),
                    encode_utf8(result@),
                );
            },
            None => {},
        }
    }
    result
}

} // verus!
