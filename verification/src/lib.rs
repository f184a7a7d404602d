//! A resolution-and-locking engine for a shell plugin manager.
//!
//! The library takes a validated configuration describing shell plugins
//! (git repositories, single remote files, or local directories), plans
//! the deduplicated set of fetches, combines the fetch results into a
//! locked configuration, renders plugin files through a small template
//! language, and assembles the final shell script.  Everything here is
//! pure: the surrounding binary performs the actual network and disk
//! work and hands the results in as plain values.

use vstd::prelude::*;

pub mod encode;
pub mod glob;
pub mod lock;
pub mod model;
pub mod resolve;
pub mod template;
pub mod text;

use crate::lock::LockedConfig;
use crate::model::Config;
use crate::resolve::{FetchOutcome, outcome_views, plan_of, spec_locked};

verus! {

/// The operations the tool offers.  Initializing, editing, adding to
/// and removing from the configuration file are thin interactive
/// file-editing operations handled by the surrounding binary; `Lock`
/// and `Source` are the two operations that reach this engine.
pub enum Command {
    Init,
    Add,
    Edit,
    Remove,
    Lock,
    Source,
}

/// Whether a failure to take the cross-process mutex on the
/// configuration directory must abort the command.  Only `Lock` and
/// `Source` mutate the shared cache and the lock artifact, so only
/// they require exclusive access; the editing commands proceed with a
/// warning.
pub fn mutex_failure_fatal(command: &Command) -> (r: bool)
    ensures
        r == (command is Lock || command is Source),
{
    matches!(command, Command::Lock | Command::Source)
}

/// What one run of a core command produced: the locked configuration,
/// the script to emit (for `Source`), whether the lock artifact may be
/// persisted, and whether the command succeeded as a whole.
pub struct CommandOutcome {
    pub locked: LockedConfig,
    pub script: Option<String>,
    pub persist: bool,
    pub success: bool,
}

/// Runs one core command over the fetch outcomes of a resolution run.
///
/// `Lock` is strict: it never emits a script, it succeeds only when no
/// plugin failed, and only then may the lock artifact be written, so a
/// partial run never clobbers a previously good artifact.  `Source` is
/// best-effort: it always succeeds and emits the script assembled from
/// the plugins that resolved, but it too persists the artifact only
/// when no plugin failed.
pub fn run_command(command: &Command, config: &Config, outcomes: &Vec<FetchOutcome>) -> (r:
    CommandOutcome)
    requires
        command is Lock || command is Source,
        outcomes@.len() == plan_of(config@.plugins).len(),
    ensures
        r.locked@ == spec_locked(config@, outcome_views(outcomes@)),
        r.persist == (r.locked@.errors.len() == 0),
        command is Lock ==> r.script is None && r.success == (r.locked@.errors.len() == 0),
        command is Source ==> r.success && r.script is Some && r.script->0@
            == crate::lock::script_spec(r.locked@),
{
    let locked = resolve::locked(config, outcomes);
    let no_errors = locked.errors.len() == 0;
    match command {
        Command::Lock => CommandOutcome {
            locked,
            script: None,
            persist: no_errors,
            success: no_errors,
        },
        Command::Source => {
            let script = locked.script();
            CommandOutcome { locked, script: Some(script), persist: no_errors, success: true }
        },
        _ => {
            proof {
                assert(false);
            }
            CommandOutcome { locked, script: None, persist: false, success: false }
        },
    }
}

} // verus!
