//! A line-oriented rewriter for declarative build-target files.
//!
//! Driven by a precomputed dependency-usage report, the library removes
//! declared-but-unused dependency entries, inserts used-but-undeclared
//! entries, and canonically sorts dependency/exports blocks, while leaving
//! every line outside an edited block byte-identical to its input.
//!
//! The crate holds the logic only: the address model ([`address`]), the
//! block scanner/rewriter and its transforms ([`scan`], [`blocks`],
//! [`lineset`]), and the report selector ([`report`]). Reading the report
//! file, finding target files and writing them back is left to the binary
//! around the library.

use vstd::prelude::*;

pub mod text;
pub mod address;
pub mod lineset;
pub mod blocks;
pub mod scan;
pub mod report;
pub mod laws;

verus! {

/// Options shared by every operation.
pub struct Config {
    /// Path to the dependency-usage report file, in JSON form.
    pub report_file: String,
    /// Only modules whose label starts with this prefix are touched.
    pub prefix: String,
    /// Lines carrying this marker are never removed.
    pub skip_marker: String,
    /// The requested operation.
    pub cmd: Command,
}

/// The command chosen on the command line.
pub enum Command {
    /// Manage unused but declared dependencies.
    Unused { cmd: UnusedSubCommand },
    /// Manage undeclared but transitively used dependencies.
    Undeclared { cmd: UndeclaredSubCommand },
    /// Sort the dependency and exports blocks of every target file below the prefix.
    Sort {},
}

/// What to do about unused dependencies.
pub enum UnusedSubCommand {
    /// Print them.
    Show,
    /// Remove them from their target files.
    Fix,
}

/// What to do about undeclared dependencies.
pub enum UndeclaredSubCommand {
    /// Print them.
    Show,
    /// Add them to their target files.
    Fix,
}

/// The operation a configuration asks for, with the options it uses.
pub enum Action {
    /// Report the unused dependencies the report file names.
    ShowUnused { report_file: String, prefix: String },
    /// Remove them from their target files.
    FixUnused { report_file: String, prefix: String, skip_marker: String },
    /// Report the undeclared dependencies the report file names.
    ShowUndeclared { report_file: String, prefix: String },
    /// Add them to their target files.
    FixUndeclared { report_file: String, prefix: String, skip_marker: String },
    /// Sort the blocks of every target file below the prefix.
    SortBlocks { prefix: String, skip_marker: String },
}

/// Decides the action a configuration calls for; the binary around the
/// library performs it, file by file, through [`report::select`],
/// [`scan::remove_deps`], [`scan::add_deps`] and [`scan::sort_blocks`].
pub fn perform(config: Config) -> (a: Action)
    ensures
        match config.cmd {
            Command::Unused { cmd: UnusedSubCommand::Show } => a matches Action::ShowUnused {
                report_file,
                prefix,
            } && report_file@ == config.report_file@ && prefix@ == config.prefix@,
            Command::Unused { cmd: UnusedSubCommand::Fix } => a matches Action::FixUnused {
                report_file,
                prefix,
                skip_marker,
            } && report_file@ == config.report_file@ && prefix@ == config.prefix@ && skip_marker@
                == config.skip_marker@,
            Command::Undeclared { cmd: UndeclaredSubCommand::Show } => a
                matches Action::ShowUndeclared { report_file, prefix } && report_file@
                == config.report_file@ && prefix@ == config.prefix@,
            Command::Undeclared { cmd: UndeclaredSubCommand::Fix } => a
                matches Action::FixUndeclared { report_file, prefix, skip_marker } && report_file@
                == config.report_file@ && prefix@ == config.prefix@ && skip_marker@
                == config.skip_marker@,
            Command::Sort {  } => a matches Action::SortBlocks { prefix, skip_marker } && prefix@
                == config.prefix@ && skip_marker@ == config.skip_marker@,
        },
{
    let Config { report_file, prefix, skip_marker, cmd } = config;
    match cmd {
        Command::Unused { cmd: UnusedSubCommand::Show } => Action::ShowUnused {
            report_file,
            prefix,
        },
        Command::Unused { cmd: UnusedSubCommand::Fix } => Action::FixUnused {
            report_file,
            prefix,
            skip_marker,
        },
        Command::Undeclared { cmd: UndeclaredSubCommand::Show } => Action::ShowUndeclared {
            report_file,
            prefix,
        },
        Command::Undeclared { cmd: UndeclaredSubCommand::Fix } => Action::FixUndeclared {
            report_file,
            prefix,
            skip_marker,
        },
        Command::Sort {  } => Action::SortBlocks { prefix, skip_marker },
    }
}

} // verus!
