//! The controller's configuration: defaults, overridden by the configuration file's
//! `controller` table, overridden by the command line.

use vstd::prelude::*;

use crate::settings::{chosen, chosen_opt, pick, pick_opt};

verus! {

/// What the controller is asked to do.
#[derive(Debug, Clone, Copy, PartialEq, Eq)]
pub enum Commands {
    Start,
    Stop,
    Status,
    Nop,
}

/// The controller table of a configuration file. `P` is a path, `F` a share.
#[derive(Debug)]
pub struct FileSettings<P, F> {
    pub ip: Option<String>,
    pub port: Option<u16>,
    pub sensitivity_table: Option<P>,
    pub queue_budget: Option<usize>,
    pub saba_capacity: Option<F>,
    pub max_priority_levels: Option<usize>,
    pub min_share: Option<F>,
}

/// The settings given on the command line.
#[derive(Debug)]
pub struct CliSettings<P, F> {
    pub topology_file: Option<String>,
    pub sensitivity_table: Option<P>,
    pub queue_budget: Option<usize>,
    pub saba_capacity: Option<F>,
    pub max_priority_levels: Option<usize>,
    pub min_share: Option<F>,
    pub verbose: u8,
    pub ip: Option<String>,
    pub port: Option<u16>,
    pub command: Option<Commands>,
}

/// The controller's configuration.
#[derive(Debug)]
pub struct Config<P, F> {
    pub topology_file: String,
    pub ip: String,
    pub port: u16,
    pub command: Commands,
    pub verbose: u8,
    pub sensitivity_table: Option<P>,
    pub queue_budget: usize,
    pub saba_capacity: F,
    pub max_priority_levels: usize,
    pub min_share: F,
}

/// The file's value of a field, when the file has a controller table.
pub open spec fn file_field<P, F, T>(file: Option<FileSettings<P, F>>, f: spec_fn(FileSettings<P, F>) -> Option<T>) -> Option<T> {
    match file {
        Some(s) => f(s),
        None => None,
    }
}

impl<P, F> Config<P, F> {
    /// The configuration from the defaults (the given topology file, address 127.0.0.1,
    /// port 8080, no command, no verbosity, no sensitivity table, 4 queues, the given
    /// capacity, 8 priority levels and the given minimum share), the file's controller
    /// table if there is one, and the command line, each field from the last that gives it.
    pub fn resolve(
        topology_file: String,
        default_capacity: F,
        default_min_share: F,
        file: Option<FileSettings<P, F>>,
        cli: CliSettings<P, F>,
    ) -> (res: Self)
        ensures
            res.topology_file == chosen(topology_file, None, cli.topology_file),
            res.ip@ == match cli.ip {
                Some(c) => c@,
                None => match file_field(file, |s: FileSettings<P, F>| s.ip) {
                    Some(f) => f@,
                    None => "127.0.0.1"@,
                },
            },
            res.port == chosen(8080u16, file_field(file, |s: FileSettings<P, F>| s.port), cli.port),
            res.command == chosen(Commands::Nop, None, cli.command),
            res.verbose == cli.verbose,
            res.sensitivity_table == chosen_opt(
                file_field(file, |s: FileSettings<P, F>| s.sensitivity_table),
                cli.sensitivity_table,
            ),
            res.queue_budget == chosen(4usize, file_field(file, |s: FileSettings<P, F>| s.queue_budget), cli.queue_budget),
            res.saba_capacity == chosen(default_capacity, file_field(file, |s: FileSettings<P, F>| s.saba_capacity), cli.saba_capacity),
            res.max_priority_levels == chosen(8usize, file_field(file, |s: FileSettings<P, F>| s.max_priority_levels), cli.max_priority_levels),
            res.min_share == chosen(default_min_share, file_field(file, |s: FileSettings<P, F>| s.min_share), cli.min_share),
    {
        let (f_ip, f_port, f_table, f_budget, f_capacity, f_levels, f_min) = match file {
            Some(s) => (s.ip, s.port, s.sensitivity_table, s.queue_budget, s.saba_capacity, s.max_priority_levels, s.min_share),
            None => (None, None, None, None, None, None, None),
        };
        let default_ip = "127.0.0.1".to_owned();
        Config {
            topology_file: pick(topology_file, None, cli.topology_file),
            ip: pick(default_ip, f_ip, cli.ip),
            port: pick(8080u16, f_port, cli.port),
            command: pick(Commands::Nop, None, cli.command),
            verbose: cli.verbose,
            sensitivity_table: pick_opt(f_table, cli.sensitivity_table),
            queue_budget: pick(4usize, f_budget, cli.queue_budget),
            saba_capacity: pick(default_capacity, f_capacity, cli.saba_capacity),
            max_priority_levels: pick(8usize, f_levels, cli.max_priority_levels),
            min_share: pick(default_min_share, f_min, cli.min_share),
        }
    }
}

} // verus!
