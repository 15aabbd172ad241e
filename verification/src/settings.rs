//! How a setting is chosen: from the command line if given there, else from the
//! configuration file if given there, else its default.

use vstd::prelude::*;

verus! {

/// The value the command line gives, else the file's, else the default.
pub open spec fn chosen<T>(default: T, file: Option<T>, cli: Option<T>) -> T {
    match cli {
        Some(c) => c,
        None => match file {
            Some(f) => f,
            None => default,
        },
    }
}

/// The value the command line gives, else the file's, else the default.
pub fn pick<T>(default: T, file: Option<T>, cli: Option<T>) -> (res: T)
    ensures
        res == chosen(default, file, cli),
{
    match cli {
        Some(c) => c,
        None => match file {
            Some(f) => f,
            None => default,
        },
    }
}

/// The optional value the command line gives, else the file's.
pub open spec fn chosen_opt<T>(file: Option<T>, cli: Option<T>) -> Option<T> {
    match cli {
        Some(c) => Some(c),
        None => file,
    }
}

/// The optional value the command line gives, else the file's.
pub fn pick_opt<T>(file: Option<T>, cli: Option<T>) -> (res: Option<T>)
    ensures
        res == chosen_opt(file, cli),
{
    match cli {
        Some(c) => Some(c),
        None => file,
    }
}

/// A setting given on the command line is the one that counts.
pub proof fn law_command_line_wins<T>(default: T, file: Option<T>, c: T)
    ensures
        chosen(default, file, Some(c)) == c,
{
}

/// An optional setting given on the command line is the one that counts, whatever the
/// file gives; one given only in the file is taken from the file; one given nowhere stays
/// unset.
pub proof fn law_command_line_wins_opt<T>(file: Option<T>, c: T, f: T)
    ensures
        chosen_opt(file, Some(c)) == Some(c),
        chosen_opt(Some(f), None) == Some(f),
        chosen_opt(None::<T>, None::<T>) == None::<T>,
{
}

/// A setting given only in the file beats the default.
pub proof fn law_file_beats_default<T>(default: T, f: T)
    ensures
        chosen(default, Some(f), None) == f,
{
}

} // verus!
