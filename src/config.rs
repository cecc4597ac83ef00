use vstd::prelude::*;

use crate::error::ReadError;
use crate::key::{line_key, LineData};

verus! {

/// The settings of a run: where the input is, where the shards go, how many
/// workers write them and how many files may be open at once in all.
pub struct RunCfg {
    input_file: String,
    output_dir: String,
    output_threads: usize,
    max_active_files: usize,
    skip_invalid_lines: bool,
}

impl RunCfg {
    pub closed spec fn spec_output_threads(&self) -> usize {
        self.output_threads
    }

    pub closed spec fn spec_max_active_files(&self) -> usize {
        self.max_active_files
    }

    pub closed spec fn spec_skip_invalid_lines(&self) -> bool {
        self.skip_invalid_lines
    }

    pub closed spec fn spec_input_file(&self) -> Seq<char> {
        self.input_file@
    }

    pub closed spec fn spec_output_dir(&self) -> Seq<char> {
        self.output_dir@
    }

    /// The settings, where there is at least one worker and at least one
    /// open file for each.
    pub fn new(
        input_file: String,
        output_dir: String,
        output_threads: usize,
        max_active_files: usize,
        skip_invalid_lines: bool,
    ) -> (r: Option<RunCfg>)
        ensures
            r.is_some() == (output_threads >= 1 && max_active_files >= output_threads),
            r matches Some(c) ==> {
                &&& c.spec_input_file() == input_file@
                &&& c.spec_output_dir() == output_dir@
                &&& c.spec_output_threads() == output_threads
                &&& c.spec_max_active_files() == max_active_files
                &&& c.spec_skip_invalid_lines() == skip_invalid_lines
            },
    {
        if output_threads >= 1 && max_active_files >= output_threads {
            Some(RunCfg { input_file, output_dir, output_threads, max_active_files, skip_invalid_lines })
        } else {
            None
        }
    }

    pub fn input_file(&self) -> (r: &str)
        ensures
            r@ == self.spec_input_file(),
    {
        self.input_file.as_str()
    }

    pub fn output_dir(&self) -> (r: &str)
        ensures
            r@ == self.spec_output_dir(),
    {
        self.output_dir.as_str()
    }

    pub fn output_threads(&self) -> (r: usize)
        ensures
            r == self.spec_output_threads(),
    {
        self.output_threads
    }

    pub fn max_active_files(&self) -> (r: usize)
        ensures
            r == self.spec_max_active_files(),
    {
        self.max_active_files
    }

    pub fn skip_invalid_lines(&self) -> (r: bool)
        ensures
            r == self.spec_skip_invalid_lines(),
    {
        self.skip_invalid_lines
    }
}

/// Reads an input line as a keyed record. A line that is not one ends the
/// run, or is dropped (`Ok(None)`) where `skip_invalid` holds.
pub fn keyed_line(line: &str, skip_invalid: bool) -> (r: Result<Option<LineData>, ReadError>)
    ensures
        match r {
            Ok(Some(d)) => line_key(line@) == Some(d.spec_key()@) && d.text() == line@ + seq!['\n'],
            Ok(None) => line_key(line@).is_none() && skip_invalid,
            Err(e) => line_key(line@).is_none() && !skip_invalid && (e matches ReadError::InvalidLine(
                s,
            ) && s@ == line@),
        },
{
    match LineData::parse(line) {
        Ok(d) => Ok(Some(d)),
        Err(e) => if skip_invalid {
            Ok(None)
        } else {
            Err(e)
        },
    }
}

} // verus!
