//! Options of the release command built on top of the store; the command
//! itself drives publishing and is out of this crate's scope, but the
//! flag handling that derives one option set from the raw flags is plain
//! logic and lives here.

use vstd::prelude::*;

verus! {

/// How a release run behaves.
#[derive(Debug, Clone, Copy, PartialEq, Eq, Structural)]
pub struct Options {
    /// Do not change anything, only pretend to.
    pub dry_run: bool,
    /// Allow a dirty working tree.
    pub allow_dirty: bool,
    /// Go on despite instability markers.
    pub ignore_instability: bool,
    /// Do not publish.
    pub skip_publish: bool,
    /// Pretend to publish even when executing.
    pub dry_run_cargo_publish: bool,
    /// Hand the escape hatch that skips publish checking through unconditionally.
    pub no_checks: bool,
    /// Do not create a tag.
    pub skip_tag: bool,
    /// Publish stable crates without asking.
    pub allow_auto_publish_of_stable_crates: bool,
    /// Refresh the crates index first.
    pub update_crates_index: bool,
    /// Do not bump versions on demand.
    pub no_bump_on_demand: bool,
    /// Say what happens.
    pub verbose: bool,
    /// Do not push.
    pub skip_push: bool,
    /// Leave dependencies alone.
    pub skip_dependencies: bool,
}

impl Options {
    /// Derives the option set from the raw flags: a run that does not
    /// execute is a dry run, and an executing run is always verbose.
    pub fn from_flags(
        execute: bool,
        verbose: bool,
        no_bump_on_demand: bool,
        allow_dirty: bool,
        ignore_instability: bool,
        skip_publish: bool,
        skip_tag: bool,
        skip_push: bool,
        skip_dependencies: bool,
        dry_run_cargo_publish: bool,
        dangerously_pass_no_checks: bool,
        allow_auto_publish_of_stable_crates: bool,
        update_crates_index: bool,
    ) -> (r: Options)
        ensures
            r.dry_run == !execute,
            r.verbose == (execute || verbose),
            r.no_bump_on_demand == no_bump_on_demand,
            r.allow_dirty == allow_dirty,
            r.ignore_instability == ignore_instability,
            r.skip_publish == skip_publish,
            r.skip_tag == skip_tag,
            r.skip_push == skip_push,
            r.skip_dependencies == skip_dependencies,
            r.dry_run_cargo_publish == dry_run_cargo_publish,
            r.no_checks == dangerously_pass_no_checks,
            r.allow_auto_publish_of_stable_crates == allow_auto_publish_of_stable_crates,
            r.update_crates_index == update_crates_index,
    {
        Options {
            dry_run: !execute,
            verbose: execute || verbose,
            no_bump_on_demand,
            allow_dirty,
            ignore_instability,
            skip_publish,
            skip_tag,
            skip_push,
            skip_dependencies,
            dry_run_cargo_publish,
            no_checks: dangerously_pass_no_checks,
            allow_auto_publish_of_stable_crates,
            update_crates_index,
        }
    }
}

} // verus!
