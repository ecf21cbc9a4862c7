//! The checks made on the command line once it has been parsed.

use vstd::prelude::*;

verus! {

/// The parsed command line.
pub struct Args {
    /// The positional pattern, if one was given.
    pub pattern: Option<String>,
    /// The patterns given with `-e` / `--regexp`.
    pub patterns: Vec<String>,
    /// The paths to search.
    pub paths: Vec<String>,
    /// How many times `-u` was given.
    pub unrestricted: u8,
    /// The text encoding given with `-E`, if any.
    pub encoding: Option<String>,
    /// The arguments handed on to the search tool.
    pub rg_args: Vec<String>,
}

/// Why a command line was refused.
#[derive(Clone, Copy, Debug, PartialEq, Eq, Structural)]
pub enum CliError {
    NoPattern,
}

impl CliError {
    pub fn message(&self) -> (r: &'static str)
        ensures
            r@ == "No pattern was provided!"@,
    {
        "No pattern was provided!"
    }
}

fn clone_strings(v: &Vec<String>) -> (r: Vec<String>)
    ensures
        r@.len() == v@.len(),
        forall|i: int| 0 <= i < v@.len() ==> (#[trigger] r@[i])@ == v@[i]@,
{
    let mut out: Vec<String> = Vec::new();
    let mut i: usize = 0;
    while i < v.len()
        invariant
            0 <= i <= v@.len(),
            out@.len() == i,
            forall|k: int| 0 <= k < i ==> (#[trigger] out@[k])@ == v@[k]@,
        decreases v@.len() - i,
    {
        out.push(v[i].clone());
        i = i + 1;
    }
    out
}

impl Args {
    /// The patterns to search for: those given by flag where there are
    /// any, else the positional one.
    pub fn rg_patterns(&self) -> (r: Vec<String>)
        ensures
            self.patterns@.len() > 0 ==> r@.len() == self.patterns@.len() && forall|i: int|
                0 <= i < r@.len() ==> (#[trigger] r@[i])@ == self.patterns@[i]@,
            self.patterns@.len() == 0 ==> match self.pattern {
                Some(p) => r@.len() == 1 && r@[0]@ == p@,
                None => r@.len() == 0,
            },
    {
        if self.patterns.len() > 0 {
            clone_strings(&self.patterns)
        } else {
            match &self.pattern {
                Some(p) => vec![p.clone()],
                None => Vec::new(),
            }
        }
    }
}

/// Checks a parsed command line. Without any pattern it is refused. Where
/// patterns were given by flag, a positional pattern is taken for one more
/// path. Binary search is not supported, so `-u` counts above two become
/// two.
pub fn validate_arguments(args: Args) -> (r: Result<Args, CliError>)
    ensures
        args.pattern is None && args.patterns@.len() == 0 <==> r == Err::<Args, CliError>(
            CliError::NoPattern,
        ),
        r matches Ok(a) ==> {
            &&& a.patterns == args.patterns
            &&& a.encoding == args.encoding
            &&& a.rg_args == args.rg_args
            &&& a.unrestricted == if args.unrestricted > 2 {
                2
            } else {
                args.unrestricted
            }
            &&& if args.pattern is Some && args.patterns@.len() > 0 {
                &&& a.pattern is None
                &&& a.paths@ == args.paths@.push(args.pattern->0)
            } else {
                &&& a.pattern == args.pattern
                &&& a.paths == args.paths
            }
        },
{
    let mut args = args;
    if args.pattern.is_none() && args.patterns.len() == 0 {
        return Err(CliError::NoPattern);
    }
    if args.pattern.is_some() && args.patterns.len() > 0 {
        let p = args.pattern.take();
        args.paths.push(p.unwrap());
    }
    if args.unrestricted > 2 {
        args.unrestricted = 2;
    }
    Ok(args)
}

} // verus!
