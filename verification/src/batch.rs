//! The decisions of a run over many files: which files are done already,
//! how the record of a file is named, what a line of the error log says.

use vstd::prelude::*;
use vstd::string::*;

verus! {

/// Whether a file needs no more work: its obfuscated copy exists and, where
/// records are written, its record exists too.
pub fn is_processed(obfuscated_exists: bool, jsonl_exists: bool, jsonl_enabled: bool) -> (done:
    bool)
    ensures
        done == (obfuscated_exists && (jsonl_enabled ==> jsonl_exists)),
{
    if !obfuscated_exists {
        return false;
    }
    if jsonl_enabled {
        jsonl_exists
    } else {
        true
    }
}

/// The name of the record of a file: the name of the file and `.jsonl`.
pub fn jsonl_file_name(file_name: &str) -> (name: String)
    ensures
        name@ == file_name@ + ".jsonl"@,
{
    let mut name = String::from_str(file_name);
    name.append(".jsonl");
    name
}

/// The line of the error log for a file that failed at `stage`.
pub fn error_log_line(stage: &str, file: &str, error: &str) -> (line: String)
    ensures
        line@ == "[stage="@ + stage@ + "] file="@ + file@ + " error="@ + error@,
{
    let mut line = String::from_str("[stage=");
    line.append(stage);
    line.append("] file=");
    line.append(file);
    line.append(" error=");
    line.append(error);
    line
}

} // verus!
