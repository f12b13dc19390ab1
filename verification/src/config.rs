//! The settings of one search.

use crate::line::texts_of;
use crate::search::{
    matching_lines, matching_lines_ignoring_case, search, search_case_insensitive,
};
use vstd::prelude::*;
use vstd::std_specs::iter::IteratorSpec;

verus! {

/// Why no settings could be built from the arguments.
#[derive(Debug, Clone, Copy, PartialEq, Eq, Structural)]
pub enum ConfigError {
    /// The arguments hold no query.
    MissingQuery,
    /// The arguments hold no path.
    MissingPath,
}

/// What to search for, where, and how.
#[derive(Debug)]
pub struct Config {
    /// The text to look for.
    pub query: String,
    /// The path of the file to search. Nothing is asked of it here.
    pub path: String,
    /// Whether upper and lower case are taken as one.
    pub ignore_case: bool,
}

/// What the arguments `args` of a process stand for: the first is the name of
/// the program and is passed over, the second is the query, the third the
/// path, and any others are ignored.
pub open spec fn parsed(args: Seq<String>, ignore_case: bool) -> Result<Config, ConfigError> {
    if args.len() < 2 {
        Err(ConfigError::MissingQuery)
    } else if args.len() < 3 {
        Err(ConfigError::MissingPath)
    } else {
        Ok(Config { query: args[1], path: args[2], ignore_case })
    }
}

/// The lines of `text` that a search with these settings returns.
pub open spec fn selected_lines(ignore_case: bool, query: Seq<char>, text: Seq<char>) -> Seq<
    Seq<char>,
> {
    if ignore_case {
        matching_lines_ignoring_case(query, text)
    } else {
        matching_lines(query, text)
    }
}

impl ConfigError {
    /// What to tell the user.
    pub fn message(&self) -> (text: &'static str)
        ensures
            text@ == match *self {
                ConfigError::MissingQuery => "Didn't get a query string"@,
                ConfigError::MissingPath => "Didn't get a file name"@,
            },
    {
        match self {
            ConfigError::MissingQuery => "Didn't get a query string",
            ConfigError::MissingPath => "Didn't get a file name",
        }
    }
}

impl Config {
    /// Builds the settings from the arguments of a process, as `args` hands
    /// them out with the name of the program first, and from whether case is
    /// to be ignored.
    ///
    /// An argument that is present counts, also where it is empty.
    pub fn build(mut args: impl Iterator<Item = String>, ignore_case: bool) -> (built: Result<
        Config,
        ConfigError,
    >)
        ensures
            args.obeys_prophetic_iter_laws() ==> built == parsed(args.remaining(), ignore_case),
    {
        args.next();
        let query = match args.next() {
            Some(arg) => arg,
            None => return Err(ConfigError::MissingQuery),
        };
        let path = match args.next() {
            Some(arg) => arg,
            None => return Err(ConfigError::MissingPath),
        };
        Ok(Config { query, path, ignore_case })
    }
}

/// Searches `contents` as `config` says, and returns the lines to print, in
/// their order.
pub fn run<'a>(config: &Config, contents: &'a str) -> (found: Vec<&'a str>)
    ensures
        texts_of(found@) == selected_lines(config.ignore_case, config.query@, contents@),
{
    if config.ignore_case {
        search_case_insensitive(config.query.as_str(), contents)
    } else {
        search(config.query.as_str(), contents)
    }
}

} // verus!
