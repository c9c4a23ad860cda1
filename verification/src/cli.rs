//! Command-line interface for `cargo-gc`.

use vstd::prelude::*;

use crate::sweep::SweepOptions;
use crate::text::same_text;
use crate::timestamp::Timestamp;

verus! {

/// What the command line asks for.
#[derive(Debug)]
pub struct Cli {
    /// Show what would be removed without removing anything.
    pub dry_run: bool,
    /// Override the target directory (default: auto-detect from cwd / config / env).
    pub target_dir: Option<std::path::PathBuf>,
    /// Override the manifest path (default: walk up from cwd to find Cargo.toml).
    pub manifest_path: Option<std::path::PathBuf>,
    /// Shorthand for the manifest path of the project in a dir.
    pub project: Option<std::path::PathBuf>,
    /// Only sweep a single profile (e.g. `debug` or `release`).
    pub profile: Option<String>,
    /// Number of recent rustc incremental sessions to keep per crate.
    pub keep_sessions: usize,
    /// Drop fingerprint dirs whose time of invocation is older than this.
    pub max_age: String,
    /// Wipe an entire profile dir (`target/<NAME>/`) regardless of age.
    pub prune_profile: Vec<String>,
    /// Wipe all artifacts belonging to a workspace bin/lib/example target,
    /// across every profile dir.
    pub prune_target: Vec<String>,
    /// Print every removal as it happens.
    pub verbose: bool,
    /// List workspace targets that `--prune-target` can take, then exit
    /// without sweeping.
    pub list_targets: bool,
    /// List profile dirs that `--prune-profile` can take, then exit
    /// without sweeping.
    pub list_profiles: bool,
    /// Convenience: same as `--list-targets --list-profiles`.
    pub list: bool,
}

/// Whether the first argument is the subcommand name that cargo passes on.
pub open spec fn is_subcommand_call(args: Seq<Option<String>>) -> bool {
    args.len() > 1 && (args[1] matches Some(arg) && arg@ == "gc"@)
}

/// Whether the program was invoked as `cargo gc …`: cargo passes the subcommand
/// name as the argument behind the program. An argument that is no Unicode is
/// `None`.
pub fn has_subcommand(args: &Vec<Option<String>>) -> (r: bool)
    ensures
        r == is_subcommand_call(args@),
{
    if args.len() < 2 {
        return false;
    }
    match &args[1] {
        Some(arg) => same_text(arg.as_str(), "gc"),
        None => false,
    }
}

impl Cli {
    /// True if any of the `--list*` flags are set; the program should print
    /// listings and exit before any sweep happens.
    pub fn any_list(&self) -> (r: bool)
        ensures
            r == (self.list || self.list_targets || self.list_profiles),
    {
        self.list || self.list_targets || self.list_profiles
    }

    /// Whether to list the workspace targets.
    pub fn want_list_targets(&self) -> (r: bool)
        ensures
            r == (self.list || self.list_targets),
    {
        self.list || self.list_targets
    }

    /// Whether to list the profile dirs.
    pub fn want_list_profiles(&self) -> (r: bool)
        ensures
            r == (self.list || self.list_profiles),
    {
        self.list || self.list_profiles
    }

    /// The manifest, or the dir that holds it, if one was asked for. A manifest
    /// path goes before a project.
    pub fn manifest_override(&self) -> (r: Option<&std::path::PathBuf>)
        ensures
            match (self.manifest_path, self.project) {
                (Some(path), _) => r == Some(&path),
                (None, Some(dir)) => r == Some(&dir),
                (None, None) => r is None,
            },
    {
        match &self.manifest_path {
            Some(path) => Some(path),
            None => match &self.project {
                Some(dir) => Some(dir),
                None => None,
            },
        }
    }

    /// How to sweep, given the cutoff that the max age stands for.
    pub fn sweep_options(self, max_age_cutoff: Option<Timestamp>) -> (r: SweepOptions)
        ensures
            r == (SweepOptions {
                dry_run: self.dry_run,
                keep_sessions: self.keep_sessions,
                verbose: self.verbose,
                only_profile: self.profile,
                max_age_cutoff,
                prune_profiles: self.prune_profile,
                prune_targets: self.prune_target,
            }),
    {
        SweepOptions {
            dry_run: self.dry_run,
            keep_sessions: self.keep_sessions,
            verbose: self.verbose,
            only_profile: self.profile,
            max_age_cutoff,
            prune_profiles: self.prune_profile,
            prune_targets: self.prune_target,
        }
    }
}

} // verus!
