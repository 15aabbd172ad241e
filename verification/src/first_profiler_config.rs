//! The first profiler's configuration: node count and polynomial degree from the
//! configuration file's `profiler` table, command and verbosity from the command line.

use vstd::prelude::*;

use crate::profiler_config::Commands;
use crate::settings::{chosen, pick};

verus! {

/// The profiler table of a configuration file.
#[derive(Debug)]
pub struct FileSettings {
    pub number_of_nodes: Option<u32>,
    pub degree_of_polynomial: Option<u8>,
}

/// The settings given on the command line.
#[derive(Debug)]
pub struct CliSettings {
    pub verbose: u8,
    pub command: Option<Commands>,
}

/// The first profiler's configuration.
#[derive(Debug)]
pub struct Config {
    pub application: String,
    pub number_of_nodes: u32,
    pub degree_of_polynomial: u8,
    pub command: Commands,
    pub verbose: u8,
}

impl Config {
    /// The configuration from the defaults (no application, 0 nodes, degree 0, no
    /// command), the file's profiler table if there is one, and the command line: the node
    /// count and the degree come from the file, the command and the verbosity from the
    /// command line; the application stays empty.
    pub fn resolve(file: Option<FileSettings>, cli: CliSettings) -> (res: Self)
        ensures
            res.application@ == Seq::<char>::empty(),
            res.number_of_nodes == chosen(
                0u32,
                match file {
                    Some(f) => f.number_of_nodes,
                    None => None,
                },
                None,
            ),
            res.degree_of_polynomial == chosen(
                0u8,
                match file {
                    Some(f) => f.degree_of_polynomial,
                    None => None,
                },
                None,
            ),
            res.command == chosen(Commands::Nop, None, cli.command),
            res.verbose == cli.verbose,
    {
        let (f_nodes, f_degree) = match file {
            Some(f) => (f.number_of_nodes, f.degree_of_polynomial),
            None => (None, None),
        };
        Config {
            application: String::new(),
            number_of_nodes: pick(0u32, f_nodes, None),
            degree_of_polynomial: pick(0u8, f_degree, None),
            command: pick(Commands::Nop, None, cli.command),
            verbose: cli.verbose,
        }
    }
}

} // verus!
