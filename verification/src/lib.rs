//! Keeps the `additional_dependencies` of Python typing hooks in a
//! pre-commit configuration in step with a project's declared dependencies.

pub mod args;
pub mod assoc;
pub mod deps;
pub mod doc;
pub mod error;
pub mod ini;
pub mod order;
pub mod precommit;
pub mod preserve;
pub mod stability;
pub mod text;
pub mod yaml;

use vstd::prelude::*;

use crate::deps::{collect_deps, project_deps, ProjectSources};
use crate::error::SyncError;
use crate::precommit::{lists_repos, update_config_content, updated_config};
use crate::text::opt_view;
use crate::yaml::yaml_accepts;

verus! {

/// Finds the dependencies that the project's files declare and syncs them
/// into the configuration `config`: the new text of the configuration when
/// it changes, `None` when it stays as it is. It fails with
/// `SyncError::Yaml` exactly when `config` is not YAML, and with
/// `SyncError::Config` exactly when it is YAML that does not map `repos` to
/// a sequence.
pub fn run(sources: &ProjectSources, config: &str) -> (r: Result<Option<String>, SyncError>)
    ensures
        !yaml_accepts(config@) ==> r matches Err(SyncError::Yaml(_)),
        yaml_accepts(config@) && !lists_repos(config@) ==> (r matches Err(
            SyncError::Config(m),
        ) && m@ == "missing 'repos' sequence"@),
        yaml_accepts(config@) && lists_repos(config@) ==> (r matches Ok(o) && opt_view(o)
            == updated_config(config@, project_deps(*sources))),
{
    let deps = collect_deps(sources);
    update_config_content(config, deps.as_slice())
}

} // verus!
