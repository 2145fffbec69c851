use vstd::prelude::*;

verus! {

/// Why `Config::build` rejected an argument list.
#[derive(Clone, Copy, Debug, PartialEq, Eq, Structural)]
pub enum ConfigError {
    /// No query argument was given: fewer than two arguments in all.
    MissingQuery,
    /// A query was given but no file path followed it.
    MissingFilePath,
}

/// What one invocation of the tool was asked to do: the substring to look
/// for, the file to look in, and whether letter case is ignored.
#[derive(Debug)]
pub struct Config {
    pub query: String,
    pub file_path: String,
    pub ignore_case: bool,
}

impl Config {
    /// Builds a configuration from the raw argument list.  The first element
    /// (conventionally the program name) is discarded; the next two become
    /// the query and the file path; anything after them is silently ignored.
    /// The case flag is handed in by the caller: only the unverified driver
    /// may read the environment, and it passes the flag down explicitly.
    pub fn build(args: Vec<String>, ignore_case: bool) -> (r: Result<Config, ConfigError>)
        ensures
            r is Ok <==> args@.len() >= 3,
            args@.len() >= 3 ==> {
                let c = r->Ok_0;
                &&& c.query@ == args@[1]@
                &&& c.file_path@ == args@[2]@
                &&& c.ignore_case == ignore_case
            },
            args@.len() <= 1 ==> r == Err::<Config, ConfigError>(ConfigError::MissingQuery),
            args@.len() == 2 ==> r == Err::<Config, ConfigError>(ConfigError::MissingFilePath),
    {
        if args.len() <= 1 {
            return Err(ConfigError::MissingQuery);
        }
        if args.len() == 2 {
            return Err(ConfigError::MissingFilePath);
        }
        let query = args[1].clone();
        let file_path = args[2].clone();
        Ok(Config { query, file_path, ignore_case })
    }
}

} // verus!
