//! The arguments of a run.

use vstd::prelude::*;

verus! {

/// Where a run reads its Java files and where it writes.
pub struct Args {
    /// Input directory of the set of java files that needs to be converted.
    pub input: String,
    /// Output directory of the set of converted java files.
    pub output: String,
    /// Output directory for the jsonL files, where they are asked for.
    pub jsonl_output: Option<String>,
}

impl Args {
    /// Whether the run writes a record for each file.
    pub fn jsonl_enabled(&self) -> (enabled: bool)
        ensures
            enabled == self.jsonl_output.is_some(),
    {
        self.jsonl_output.is_some()
    }

    /// The directory of the records: the one given for them, else the output
    /// directory.
    pub fn jsonl_dir(&self) -> (dir: &str)
        ensures
            dir@ == match self.jsonl_output {
                Some(d) => d@,
                None => self.output@,
            },
    {
        match &self.jsonl_output {
            Some(d) => d.as_str(),
            None => self.output.as_str(),
        }
    }
}

} // verus!
