//! The profiler's configuration: defaults, overridden by the configuration file's
//! `profiler` table, overridden by the command line.

use vstd::prelude::*;

use crate::settings::{chosen, chosen_opt, pick, pick_opt};

verus! {

/// What the profiler is asked to do.
#[derive(Debug, Clone, Copy, PartialEq, Eq)]
pub enum Commands {
    Profile,
    Model,
    AppCluster,
    PriorityCluster,
    Nop,
}

/// The profiler table of a configuration file. `P` is a path.
#[derive(Debug)]
pub struct FileSettings<P> {
    pub profile_csv: Option<P>,
    pub output: Option<P>,
    pub degree_of_polynomial: Option<usize>,
}

/// The settings given on the command line.
#[derive(Debug)]
pub struct CliSettings<P> {
    pub verbose: u8,
    pub profile_csv: Option<P>,
    pub output: Option<P>,
    pub degree: Option<usize>,
    pub command: Option<Commands>,
}

/// The profiler's configuration.
#[derive(Debug)]
pub struct Config<P> {
    pub profile_csv: Option<P>,
    pub output_path: Option<P>,
    pub degree_of_polynomial: usize,
    pub command: Commands,
    pub verbose: u8,
}

impl<P> Config<P> {
    /// The configuration from the defaults (no profile, no output, degree 2, no
    /// command), the file's profiler table if there is one, and the command line, each
    /// field from the last that gives it; the verbosity is the command line's.
    pub fn resolve(file: Option<FileSettings<P>>, cli: CliSettings<P>) -> (res: Self)
        ensures
            res.profile_csv == chosen_opt(
                match file {
                    Some(f) => f.profile_csv,
                    None => None,
                },
                cli.profile_csv,
            ),
            res.output_path == chosen_opt(
                match file {
                    Some(f) => f.output,
                    None => None,
                },
                cli.output,
            ),
            res.degree_of_polynomial == chosen(
                2usize,
                match file {
                    Some(f) => f.degree_of_polynomial,
                    None => None,
                },
                cli.degree,
            ),
            res.command == chosen(Commands::Nop, None, cli.command),
            res.verbose == cli.verbose,
    {
        let (f_csv, f_out, f_degree) = match file {
            Some(f) => (f.profile_csv, f.output, f.degree_of_polynomial),
            None => (None, None, None),
        };
        Config {
            profile_csv: pick_opt(f_csv, cli.profile_csv),
            output_path: pick_opt(f_out, cli.output),
            degree_of_polynomial: pick(2usize, f_degree, cli.degree),
            command: pick(Commands::Nop, None, cli.command),
            verbose: cli.verbose,
        }
    }
}

} // verus!
