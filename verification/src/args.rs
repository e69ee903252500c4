//! The settings that a run is started with.

use vstd::prelude::*;

verus! {

/// The settings of one run.
#[derive(Debug, Clone, PartialEq, Eq)]
pub struct Args {
    /// The command that moves a file; each `{}` stands for a path, the
    /// source first.
    pub shell_cmd: String,
    /// The directory that is tidied.
    pub cwd: String,
    /// Whether missing category directories are created.
    pub create_dirs: bool,
}

impl Args {
    /// The command that moves a file where none is given.
    pub fn get_default_shell_cmd() -> (cmd: String)
        ensures
            cmd@ == "mv {} {}"@,
    {
        String::from_str("mv {} {}")
    }

    /// The settings of a run in `cwd` with everything else at its default.
    pub fn with_defaults(cwd: String) -> (args: Args)
        ensures
            args.shell_cmd@ == "mv {} {}"@,
            args.cwd == cwd,
            args.create_dirs,
    {
        Args { shell_cmd: Args::get_default_shell_cmd(), cwd, create_dirs: true }
    }
}

} // verus!
