//! The validated configuration the command-line layer hands to the core:
//! source paths, an optional compiled pattern, and an optional seed.
use crate::errors::FortuneError;
use crate::select::regex_compiles;
use crate::select::Pattern;
use vstd::prelude::*;

verus! {

/// The raw options as the command line supplies them.
pub struct Args {
    pub sources: Vec<String>,
    pub pattern: Option<String>,
    pub insensitive: bool,
    pub seed: Option<u64>,
}

/// The validated configuration: the pattern, when given, has been compiled
/// with the requested case sensitivity.
pub struct Config {
    pub sources: Vec<String>,
    pub pattern: Option<Pattern>,
    pub seed: Option<u64>,
}

/// Validates the raw options: compiles the pattern when one was given, and
/// rejects the configuration exactly when it is not a valid regular
/// expression.
pub fn make_config(args: Args) -> (r: Result<Config, FortuneError>)
    ensures
        r is Err <==> (args.pattern matches Some(p) && !regex_compiles(p@, args.insensitive)),
        r matches Ok(c) ==> c.sources@ == args.sources@ && c.seed == args.seed,
        r matches Ok(c) ==> (c.pattern is Some <==> args.pattern is Some),
        args.pattern matches Some(p) ==> r matches Ok(c) ==> (c.pattern matches Some(q)
            && q.pat_view() == p@ && q.case_insensitive() == args.insensitive),
        r matches Err(e) ==> (args.pattern matches Some(p) && e matches
            FortuneError::InvalidPattern { pattern } && pattern@ == p@),
{
    let Args { sources, pattern, insensitive, seed } = args;
    match pattern {
        None => Ok(Config { sources, pattern: None, seed }),
        Some(p) => {
            match Pattern::new(p.as_str(), insensitive) {
                Some(q) => Ok(Config { sources, pattern: Some(q), seed }),
                None => Err(FortuneError::InvalidPattern { pattern: p }),
            }
        },
    }
}

} // verus!
