//! The project registry: minting a project.

use crate::database::Database;
use crate::error::AppError;
use crate::models::Project;
use vstd::prelude::*;

verus! {

/// Registers a new project and gives it back. Its identifier was never in
/// use before: it is the smallest one that is not registered.
pub fn create_project(db: &mut Database) -> (r: Result<Project, AppError>)
    requires
        old(db).wf(),
    ensures
        final(db).wf(),
        r matches Ok(project) && old(db)@.is_least_unused(project.id) && final(db)@ == old(
            db,
        )@.with_project(project.id),
{
    let id = db.insert_project();
    Ok(Project { id })
}

} // verus!
