//! The words that are never renamed: the reserved words of Java and the
//! literals `true`, `false` and `null`.

use vstd::prelude::*;
use vstd::utf8::*;
use crate::names::{decimal, digit_char, lemma_decimal_ends_in_digit, local_name, method_name};

verus! {

/// The bytes of a word.
pub open spec fn word(s: &str) -> Seq<u8> {
    encode_utf8(s@)
}

/// Whether `name` is a reserved word of Java or one of the literals `true`,
/// `false` and `null`.
#[verifier::opaque]
pub open spec fn is_reserved(name: Seq<u8>) -> bool {
    ||| name == word("abstract")
    ||| name == word("continue")
    ||| name == word("for")
    ||| name == word("new")
    ||| name == word("switch")
    ||| name == word("assert")
    ||| name == word("default")
    ||| name == word("if")
    ||| name == word("package")
    ||| name == word("synchronized")
    ||| name == word("boolean")
    ||| name == word("do")
    ||| name == word("goto")
    ||| name == word("private")
    ||| name == word("this")
    ||| name == word("break")
    ||| name == word("double")
    ||| name == word("implements")
    ||| name == word("protected")
    ||| name == word("throw")
    ||| name == word("byte")
    ||| name == word("else")
    ||| name == word("import")
    ||| name == word("public")
    ||| name == word("throws")
    ||| name == word("case")
    ||| name == word("enum")
    ||| name == word("instanceof")
    ||| name == word("return")
    ||| name == word("transient")
    ||| name == word("catch")
    ||| name == word("extends")
    ||| name == word("int")
    ||| name == word("short")
    ||| name == word("try")
    ||| name == word("char")
    ||| name == word("final")
    ||| name == word("interface")
    ||| name == word("static")
    ||| name == word("void")
    ||| name == word("class")
    ||| name == word("finally")
    ||| name == word("long")
    ||| name == word("strictfp")
    ||| name == word("volatile")
    ||| name == word("const")
    ||| name == word("float")
    ||| name == word("native")
    ||| name == word("super")
    ||| name == word("while")
    ||| name == word("_")
    ||| name == word("true")
    ||| name == word("false")
    ||| name == word("null")
}

/// Whether two byte strings are the same.
pub fn bytes_equal(a: &[u8], b: &[u8]) -> (same: bool)
    ensures
        same == (a@ == b@),
{
    if a.len() != b.len() {
        return false;
    }
    let mut i: usize = 0;
    while i < a.len()
        invariant
            a@.len() == b@.len(),
            i <= a@.len(),
            forall|k: int| 0 <= k < i ==> a@[k] == b@[k],
        decreases a@.len() - i,
    {
        if a[i] != b[i] {
            return false;
        }
        i += 1;
    }
    assert(a@ =~= b@);
    true
}

fn is_word(name: &[u8], w: &str) -> (same: bool)
    ensures
        same == (name@ == word(w)),
{
    bytes_equal(name, w.as_bytes())
}

/// Whether `name` is a word that must never be renamed.
pub fn is_reserved_word(name: &[u8]) -> (reserved: bool)
    ensures
        reserved == is_reserved(name@),
{
    reveal(is_reserved);
    is_word(name, "abstract")
        || is_word(name, "continue")
        || is_word(name, "for")
        || is_word(name, "new")
        || is_word(name, "switch")
        || is_word(name, "assert")
        || is_word(name, "default")
        || is_word(name, "if")
        || is_word(name, "package")
        || is_word(name, "synchronized")
        || is_word(name, "boolean")
        || is_word(name, "do")
        || is_word(name, "goto")
        || is_word(name, "private")
        || is_word(name, "this")
        || is_word(name, "break")
        || is_word(name, "double")
        || is_word(name, "implements")
        || is_word(name, "protected")
        || is_word(name, "throw")
        || is_word(name, "byte")
        || is_word(name, "else")
        || is_word(name, "import")
        || is_word(name, "public")
        || is_word(name, "throws")
        || is_word(name, "case")
        || is_word(name, "enum")
        || is_word(name, "instanceof")
        || is_word(name, "return")
        || is_word(name, "transient")
        || is_word(name, "catch")
        || is_word(name, "extends")
        || is_word(name, "int")
        || is_word(name, "short")
        || is_word(name, "try")
        || is_word(name, "char")
        || is_word(name, "final")
        || is_word(name, "interface")
        || is_word(name, "static")
        || is_word(name, "void")
        || is_word(name, "class")
        || is_word(name, "finally")
        || is_word(name, "long")
        || is_word(name, "strictfp")
        || is_word(name, "volatile")
        || is_word(name, "const")
        || is_word(name, "float")
        || is_word(name, "native")
        || is_word(name, "super")
        || is_word(name, "while")
        || is_word(name, "_")
        || is_word(name, "true")
        || is_word(name, "false")
        || is_word(name, "null")
}

/// Whether `c` is a decimal digit.
pub open spec fn is_digit(c: char) -> bool {
    '0' <= c <= '9'
}

/// No reserved word ends in a decimal digit.
pub proof fn lemma_reserved_ends_without_digit(name: Seq<char>)
    requires
        is_reserved(encode_utf8(name)),
    ensures
        name.len() > 0,
        !is_digit(name.last()),
{
    broadcast use encode_utf8_decode_utf8;

    reveal(is_reserved);
    let bytes = encode_utf8(name);
    assert(decode_utf8(bytes) == name);
    reveal_strlit("abstract");
    reveal_strlit("continue");
    reveal_strlit("for");
    reveal_strlit("new");
    reveal_strlit("switch");
    reveal_strlit("assert");
    reveal_strlit("default");
    reveal_strlit("if");
    reveal_strlit("package");
    reveal_strlit("synchronized");
    reveal_strlit("boolean");
    reveal_strlit("do");
    reveal_strlit("goto");
    reveal_strlit("private");
    reveal_strlit("this");
    reveal_strlit("break");
    reveal_strlit("double");
    reveal_strlit("implements");
    reveal_strlit("protected");
    reveal_strlit("throw");
    reveal_strlit("byte");
    reveal_strlit("else");
    reveal_strlit("import");
    reveal_strlit("public");
    reveal_strlit("throws");
    reveal_strlit("case");
    reveal_strlit("enum");
    reveal_strlit("instanceof");
    reveal_strlit("return");
    reveal_strlit("transient");
    reveal_strlit("catch");
    reveal_strlit("extends");
    reveal_strlit("int");
    reveal_strlit("short");
    reveal_strlit("try");
    reveal_strlit("char");
    reveal_strlit("final");
    reveal_strlit("interface");
    reveal_strlit("static");
    reveal_strlit("void");
    reveal_strlit("class");
    reveal_strlit("finally");
    reveal_strlit("long");
    reveal_strlit("strictfp");
    reveal_strlit("volatile");
    reveal_strlit("const");
    reveal_strlit("float");
    reveal_strlit("native");
    reveal_strlit("super");
    reveal_strlit("while");
    reveal_strlit("_");
    reveal_strlit("true");
    reveal_strlit("false");
    reveal_strlit("null");
    if bytes == word("abstract") {
        assert(decode_utf8(encode_utf8("abstract"@)) == "abstract"@);
        assert(name == "abstract"@);
    }
    if bytes == word("continue") {
        assert(decode_utf8(encode_utf8("continue"@)) == "continue"@);
        assert(name == "continue"@);
    }
    if bytes == word("for") {
        assert(decode_utf8(encode_utf8("for"@)) == "for"@);
        assert(name == "for"@);
    }
    if bytes == word("new") {
        assert(decode_utf8(encode_utf8("new"@)) == "new"@);
        assert(name == "new"@);
    }
    if bytes == word("switch") {
        assert(decode_utf8(encode_utf8("switch"@)) == "switch"@);
        assert(name == "switch"@);
    }
    if bytes == word("assert") {
        assert(decode_utf8(encode_utf8("assert"@)) == "assert"@);
        assert(name == "assert"@);
    }
    if bytes == word("default") {
        assert(decode_utf8(encode_utf8("default"@)) == "default"@);
        assert(name == "default"@);
    }
    if bytes == word("if") {
        assert(decode_utf8(encode_utf8("if"@)) == "if"@);
        assert(name == "if"@);
    }
    if bytes == word("package") {
        assert(decode_utf8(encode_utf8("package"@)) == "package"@);
        assert(name == "package"@);
    }
    if bytes == word("synchronized") {
        assert(decode_utf8(encode_utf8("synchronized"@)) == "synchronized"@);
        assert(name == "synchronized"@);
    }
    if bytes == word("boolean") {
        assert(decode_utf8(encode_utf8("boolean"@)) == "boolean"@);
        assert(name == "boolean"@);
    }
    if bytes == word("do") {
        assert(decode_utf8(encode_utf8("do"@)) == "do"@);
        assert(name == "do"@);
    }
    if bytes == word("goto") {
        assert(decode_utf8(encode_utf8("goto"@)) == "goto"@);
        assert(name == "goto"@);
    }
    if bytes == word("private") {
        assert(decode_utf8(encode_utf8("private"@)) == "private"@);
        assert(name == "private"@);
    }
    if bytes == word("this") {
        assert(decode_utf8(encode_utf8("this"@)) == "this"@);
        assert(name == "this"@);
    }
    if bytes == word("break") {
        assert(decode_utf8(encode_utf8("break"@)) == "break"@);
        assert(name == "break"@);
    }
    if bytes == word("double") {
        assert(decode_utf8(encode_utf8("double"@)) == "double"@);
        assert(name == "double"@);
    }
    if bytes == word("implements") {
        assert(decode_utf8(encode_utf8("implements"@)) == "implements"@);
        assert(name == "implements"@);
    }
    if bytes == word("protected") {
        assert(decode_utf8(encode_utf8("protected"@)) == "protected"@);
        assert(name == "protected"@);
    }
    if bytes == word("throw") {
        assert(decode_utf8(encode_utf8("throw"@)) == "throw"@);
        assert(name == "throw"@);
    }
    if bytes == word("byte") {
        assert(decode_utf8(encode_utf8("byte"@)) == "byte"@);
        assert(name == "byte"@);
    }
    if bytes == word("else") {
        assert(decode_utf8(encode_utf8("else"@)) == "else"@);
        assert(name == "else"@);
    }
    if bytes == word("import") {
        assert(decode_utf8(encode_utf8("import"@)) == "import"@);
        assert(name == "import"@);
    }
    if bytes == word("public") {
        assert(decode_utf8(encode_utf8("public"@)) == "public"@);
        assert(name == "public"@);
    }
    if bytes == word("throws") {
        assert(decode_utf8(encode_utf8("throws"@)) == "throws"@);
        assert(name == "throws"@);
    }
    if bytes == word("case") {
        assert(decode_utf8(encode_utf8("case"@)) == "case"@);
        assert(name == "case"@);
    }
    if bytes == word("enum") {
        assert(decode_utf8(encode_utf8("enum"@)) == "enum"@);
        assert(name == "enum"@);
    }
    if bytes == word("instanceof") {
        assert(decode_utf8(encode_utf8("instanceof"@)) == "instanceof"@);
        assert(name == "instanceof"@);
    }
    if bytes == word("return") {
        assert(decode_utf8(encode_utf8("return"@)) == "return"@);
        assert(name == "return"@);
    }
    if bytes == word("transient") {
        assert(decode_utf8(encode_utf8("transient"@)) == "transient"@);
        assert(name == "transient"@);
    }
    if bytes == word("catch") {
        assert(decode_utf8(encode_utf8("catch"@)) == "catch"@);
        assert(name == "catch"@);
    }
    if bytes == word("extends") {
        assert(decode_utf8(encode_utf8("extends"@)) == "extends"@);
        assert(name == "extends"@);
    }
    if bytes == word("int") {
        assert(decode_utf8(encode_utf8("int"@)) == "int"@);
        assert(name == "int"@);
    }
    if bytes == word("short") {
        assert(decode_utf8(encode_utf8("short"@)) == "short"@);
        assert(name == "short"@);
    }
    if bytes == word("try") {
        assert(decode_utf8(encode_utf8("try"@)) == "try"@);
        assert(name == "try"@);
    }
    if bytes == word("char") {
        assert(decode_utf8(encode_utf8("char"@)) == "char"@);
        assert(name == "char"@);
    }
    if bytes == word("final") {
        assert(decode_utf8(encode_utf8("final"@)) == "final"@);
        assert(name == "final"@);
    }
    if bytes == word("interface") {
        assert(decode_utf8(encode_utf8("interface"@)) == "interface"@);
        assert(name == "interface"@);
    }
    if bytes == word("static") {
        assert(decode_utf8(encode_utf8("static"@)) == "static"@);
        assert(name == "static"@);
    }
    if bytes == word("void") {
        assert(decode_utf8(encode_utf8("void"@)) == "void"@);
        assert(name == "void"@);
    }
    if bytes == word("class") {
        assert(decode_utf8(encode_utf8("class"@)) == "class"@);
        assert(name == "class"@);
    }
    if bytes == word("finally") {
        assert(decode_utf8(encode_utf8("finally"@)) == "finally"@);
        assert(name == "finally"@);
    }
    if bytes == word("long") {
        assert(decode_utf8(encode_utf8("long"@)) == "long"@);
        assert(name == "long"@);
    }
    if bytes == word("strictfp") {
        assert(decode_utf8(encode_utf8("strictfp"@)) == "strictfp"@);
        assert(name == "strictfp"@);
    }
    if bytes == word("volatile") {
        assert(decode_utf8(encode_utf8("volatile"@)) == "volatile"@);
        assert(name == "volatile"@);
    }
    if bytes == word("const") {
        assert(decode_utf8(encode_utf8("const"@)) == "const"@);
        assert(name == "const"@);
    }
    if bytes == word("float") {
        assert(decode_utf8(encode_utf8("float"@)) == "float"@);
        assert(name == "float"@);
    }
    if bytes == word("native") {
        assert(decode_utf8(encode_utf8("native"@)) == "native"@);
        assert(name == "native"@);
    }
    if bytes == word("super") {
        assert(decode_utf8(encode_utf8("super"@)) == "super"@);
        assert(name == "super"@);
    }
    if bytes == word("while") {
        assert(decode_utf8(encode_utf8("while"@)) == "while"@);
        assert(name == "while"@);
    }
    if bytes == word("_") {
        assert(decode_utf8(encode_utf8("_"@)) == "_"@);
        assert(name == "_"@);
    }
    if bytes == word("true") {
        assert(decode_utf8(encode_utf8("true"@)) == "true"@);
        assert(name == "true"@);
    }
    if bytes == word("false") {
        assert(decode_utf8(encode_utf8("false"@)) == "false"@);
        assert(name == "false"@);
    }
    if bytes == word("null") {
        assert(decode_utf8(encode_utf8("null"@)) == "null"@);
        assert(name == "null"@);
    }
}

/// A synthetic name is never a reserved word.
pub proof fn lemma_synthetic_not_reserved(n: nat)
    ensures
        !is_reserved(encode_utf8(method_name(n))),
        !is_reserved(encode_utf8(local_name(n))),
{
    lemma_decimal_ends_in_digit(n);
    assert(is_digit(digit_char((n % 10) as int)));
    assert(method_name(n).last() == decimal(n).last());
    assert(local_name(n).last() == decimal(n).last());
    if is_reserved(encode_utf8(method_name(n))) {
        lemma_reserved_ends_without_digit(method_name(n));
    }
    if is_reserved(encode_utf8(local_name(n))) {
        lemma_reserved_ends_without_digit(local_name(n));
    }
}

} // verus!
