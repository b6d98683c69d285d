//! Which of the files of a directory are taken: those whose name has the
//! extension asked for, whatever the case of its ASCII letters.

use vstd::prelude::*;
use vstd::string::*;
use vstd::slice::*;

verus! {

pub const DOT: u8 = 46;

/// The place of the last dot at or before place `i - 1` of `name`.
pub open spec fn last_dot(name: Seq<u8>, i: int) -> Option<int>
    decreases i,
{
    if i <= 0 || i > name.len() {
        None
    } else if name[i - 1] == DOT {
        Some(i - 1)
    } else {
        last_dot(name, i - 1)
    }
}

/// The extension of a file name: what follows its last dot. A name without
/// a dot has none, nor has a name whose only dot is its first byte, nor has
/// the name `..`.
pub open spec fn extension_of(name: Seq<u8>) -> Option<Seq<u8>> {
    if name == seq![DOT, DOT] {
        None
    } else {
        match last_dot(name, name.len() as int) {
            Some(i) => {
                if i == 0 {
                    None
                } else {
                    Some(name.subrange(i + 1, name.len() as int))
                }
            },
            None => None,
        }
    }
}

/// An ASCII capital as its small letter, any other byte as it is.
pub open spec fn lower(b: u8) -> u8 {
    if 65 <= b <= 90 {
        (b + 32) as u8
    } else {
        b
    }
}

/// The two byte strings are the same but for the case of ASCII letters.
pub open spec fn same_ignoring_case(a: Seq<u8>, b: Seq<u8>) -> bool {
    a.len() == b.len() && forall|i: int| 0 <= i < a.len() ==> lower(a[i]) == lower(b[i])
}

/// Whether a file of this name is taken for `extension`.
pub open spec fn has_extension(name: Seq<u8>, extension: Seq<u8>) -> bool {
    match extension_of(name) {
        Some(ext) => same_ignoring_case(ext, extension),
        None => false,
    }
}

fn lower_byte(b: u8) -> (l: u8)
    ensures
        l == lower(b),
{
    if 65 <= b && b <= 90 {
        b + 32
    } else {
        b
    }
}

/// Whether two byte strings are the same but for the case of ASCII letters.
pub fn eq_ignore_ascii_case(a: &[u8], b: &[u8]) -> (same: bool)
    ensures
        same == same_ignoring_case(a@, b@),
{
    if a.len() != b.len() {
        return false;
    }
    let mut i: usize = 0;
    while i < a.len()
        invariant
            a@.len() == b@.len(),
            i <= a@.len(),
            forall|k: int| 0 <= k < i ==> lower(a@[k]) == lower(b@[k]),
        decreases a@.len() - i,
    {
        if lower_byte(a[i]) != lower_byte(b[i]) {
            return false;
        }
        i += 1;
    }
    true
}

/// Whether the file name has the extension, whatever the case of its ASCII
/// letters.
pub fn matches_extension(name: &[u8], extension: &[u8]) -> (taken: bool)
    ensures
        taken == has_extension(name@, extension@),
{
    let n: usize = name.len();
    if n == 2 && name[0] == DOT && name[1] == DOT {
        assert(name@ =~= seq![DOT, DOT]);
        return false;
    }
    assert(name@ != seq![DOT, DOT]) by {
        if name@ == seq![DOT, DOT] {
            assert(seq![DOT, DOT].len() == 2);
            assert(seq![DOT, DOT][0] == DOT);
            assert(seq![DOT, DOT][1] == DOT);
        }
    }
    let mut i: usize = n;
    while i > 0
        invariant
            i <= n,
            n == name@.len(),
            name@ != seq![DOT, DOT],
            last_dot(name@, i as int) == last_dot(name@, n as int),
        decreases i,
    {
        if name[i - 1] == DOT {
            if i - 1 == 0 {
                return false;
            }
            return eq_ignore_ascii_case(slice_subrange(name, i, n), extension);
        }
        i -= 1;
    }
    false
}

/// The places, among the first `upto` names, of the names that are taken.
pub open spec fn taken(names: Seq<Vec<u8>>, extension: Seq<u8>, upto: int) -> Seq<usize>
    decreases upto,
{
    if upto <= 0 {
        Seq::empty()
    } else if upto <= names.len() && has_extension(names[upto - 1]@, extension) {
        taken(names, extension, upto - 1).push((upto - 1) as usize)
    } else {
        taken(names, extension, upto - 1)
    }
}

/// Of the file names of a directory, the places of those that have the
/// extension, in the order of the names.
pub fn get_files(names: &Vec<Vec<u8>>, extension: &str) -> (matching_files: Vec<usize>)
    ensures
        matching_files@ == taken(names@, extension.spec_bytes(), names@.len() as int),
{
    let ext = extension.as_bytes();
    let mut matching_files: Vec<usize> = Vec::new();
    let mut i: usize = 0;
    while i < names.len()
        invariant
            i <= names@.len(),
            ext@ == extension.spec_bytes(),
            matching_files@ == taken(names@, ext@, i as int),
        decreases names@.len() - i,
    {
        if matches_extension(names[i].as_slice(), ext) {
            matching_files.push(i);
        }
        i += 1;
    }
    matching_files
}

} // verus!
