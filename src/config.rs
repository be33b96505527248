use vstd::prelude::*;
use vstd::string::StringSliceAdditionalSpecFns;
use vstd::utf8::*;

use crate::search::{
    matching_lines, matching_lines_folded, search_lines, search_lines_case_insensitive,
};
use crate::text::bytes_of;

verus! {

/// What a configuration holds: the text searched for, the file searched, and the mode.
pub struct ConfigView {
    pub query: Seq<char>,
    pub filename: Seq<char>,
    pub case_sensitive: bool,
}

/// Why a configuration could not be made.
#[derive(Debug, PartialEq, Eq, Structural)]
pub enum ConfigError {
    /// Exactly two arguments, a query and a file name, are needed; this many were given.
    WrongArgumentCount(usize),
}

/// A search to run: a query, the file to search, and whether case matters.
pub struct Config {
    query: String,
    filename: String,
    case_sensitive: bool,
}

impl View for Config {
    type V = ConfigView;

    closed spec fn view(&self) -> ConfigView {
        ConfigView {
            query: self.query@,
            filename: self.filename@,
            case_sensitive: self.case_sensitive,
        }
    }
}

impl Config {
    /// Makes a configuration from the command-line arguments that follow the program name,
    /// which must be a query and a file name. Case matters unless `case_insensitive` is set,
    /// which is the case when the environment defines `CASE_INSENSITIVE`, whatever its value.
    pub fn new(args: Vec<String>, case_insensitive: bool) -> (r: Result<Config, ConfigError>)
        ensures
            args.len() == 2 <==> r is Ok,
            r matches Ok(c) ==> c@ == (ConfigView {
                query: args[0]@,
                filename: args[1]@,
                case_sensitive: !case_insensitive,
            }),
            r matches Err(e) ==> e == ConfigError::WrongArgumentCount(args.len()),
    {
        if args.len() != 2 {
            return Err(ConfigError::WrongArgumentCount(args.len()));
        }
        let ghost given = args@;
        let mut args = args;
        let filename = args.pop().unwrap();
        let query = args.pop().unwrap();
        assert(query == given[0] && filename == given[1]);
        Ok(Config { query, filename, case_sensitive: !case_insensitive })
    }

    /// The text searched for.
    pub fn query(&self) -> (r: &str)
        ensures
            r@ == self@.query,
    {
        self.query.as_str()
    }

    /// The file to search.
    pub fn filename(&self) -> (r: &str)
        ensures
            r@ == self@.filename,
    {
        self.filename.as_str()
    }

    /// Whether case matters in the search.
    pub fn case_sensitive(&self) -> (r: bool)
        ensures
            r == self@.case_sensitive,
    {
        self.case_sensitive
    }

    /// The lines of `contents` that this search finds, in order, in its mode.
    pub fn search<'a>(&self, contents: &'a str) -> (r: Vec<&'a str>)
        ensures
            bytes_of(r@) == (if self@.case_sensitive {
                matching_lines(contents.spec_bytes(), encode_utf8(self@.query))
            } else {
                matching_lines_folded(contents.spec_bytes(), self@.query)
            }),
    {
        if self.case_sensitive {
            search_lines(self.query.as_str(), contents)
        } else {
            search_lines_case_insensitive(self.query.as_str(), contents)
        }
    }
}

} // verus!
