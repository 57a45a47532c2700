use vstd::prelude::*;

verus! {

/// The settings of a run, as read from the command line and the environment.
pub struct CommandlineOpts {
    pub vault_addr: String,
    pub vault_token: String,
    pub keepass_file: String,
    pub keepass_password: String,
    pub path_prefix: String,
    pub mount: String,
    pub verbose: bool,
}

/// The log filter of a run: the one already set, where there is one, else
/// a verbose or a quiet default.
pub open spec fn log_filter(verbose: bool, current: Option<Seq<char>>) -> Seq<char> {
    match current {
        Some(f) => f,
        None => if verbose {
            "debug"@
        } else {
            "warn,keepass2vault=info"@
        },
    }
}

impl CommandlineOpts {
    /// The log filter to run with, given the one already set, if any.
    pub fn setup_logger(&self, current: Option<String>) -> (r: String)
        ensures
            r@ == log_filter(
                self.verbose,
                match current {
                    Some(f) => Some(f@),
                    None => None,
                },
            ),
    {
        match current {
            Some(f) => f,
            None => if self.verbose {
                String::from_str("debug")
            } else {
                String::from_str("warn,keepass2vault=info")
            },
        }
    }

    /// The options as read, with the log filter they call for.
    pub fn parse_and_setup_logger(opts: CommandlineOpts, current: Option<String>) -> (r: (
        CommandlineOpts,
        String,
    ))
        ensures
            r.0 == opts,
            r.1@ == log_filter(
                opts.verbose,
                match current {
                    Some(f) => Some(f@),
                    None => None,
                },
            ),
    {
        let filter = opts.setup_logger(current);
        (opts, filter)
    }
}

} // verus!
