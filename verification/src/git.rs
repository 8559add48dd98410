//! Staging, committing and diff collection against the repository in the
//! working directory.  Every call into the version-control library stands
//! behind a trusted item with a plain-value interface; what is computed from
//! the collected values is verified in `report`.

use vstd::prelude::*;

use crate::report::DiffRec;

verus! {

/// Declares `git2::Repository` so wrappers can pass a repository handle
/// through; the handle is opaque to the proofs.
#[verifier::external_type_specification]
#[verifier::external_body]
pub struct ExRepository(git2::Repository);

/// Declares `git2::Error` so the version-control operations can return it
/// unchanged; the error is opaque to the proofs.
#[verifier::external_type_specification]
#[verifier::external_body]
pub struct ExGitError(git2::Error);

/// Relies on `git2::Repository::open`: opens the repository in the working
/// directory, or reports why it cannot.
#[verifier::external_body]
pub fn repo() -> Result<git2::Repository, git2::Error> {
    git2::Repository::open("./")
}

/// Relies on `git2::Index::add_all`, `Index::update_all` and
/// `Index::write`: stages additions, modifications and deletions matching
/// the given pathspecs in the repository at the working directory.
#[verifier::external_body]
pub fn stage_paths(paths: &Vec<String>) -> Result<(), git2::Error> {
    let repository = repo()?;
    let mut index = repository.index()?;
    index.add_all(paths.iter().map(|s| s.as_str()), git2::IndexAddOption::DEFAULT, None)?;
    index.update_all(paths.iter().map(|s| s.as_str()), None)?;
    index.write()?;
    index.write_tree()?;
    Ok(())
}

/// Relies on git2: stages the given pathspecs, writes the index as a tree,
/// and commits it onto HEAD (with no parent in an unborn repository).
#[verifier::external_body]
pub fn commit_paths(
    repository: &git2::Repository,
    paths: &Vec<String>,
    message: &str,
) -> Result<(), git2::Error> {
    let sig = repository.signature()?;
    let mut index = repository.index()?;
    index.add_all(paths.iter().map(|s| s.as_str()), git2::IndexAddOption::DEFAULT, None)?;
    index.write()?;
    let tree = repository.find_tree(index.write_tree()?)?;
    let head = repository.head().ok().and_then(|h| h.peel_to_commit().ok());
    let parents: Vec<&git2::Commit> = head.iter().collect();
    repository.commit(Some("HEAD"), &sig, &sig, message, &tree, &parents)?;
    Ok(())
}

/// Relies on `git2::Repository::diff_tree_to_workdir`: how many files
/// differ between the last commit's tree and the working directory.
#[verifier::external_body]
fn workdir_delta_count(repository: &git2::Repository) -> Result<usize, git2::Error> {
    let obj = repository.head()?.resolve()?.peel(git2::ObjectType::Commit)?;
    let commit = obj.into_commit().map_err(|_| git2::Error::from_str("no commit at HEAD"))?;
    Ok(repository.diff_tree_to_workdir(Some(&commit.tree()?), None)?.deltas().len())
}

/// Relies on git2: the object id of the commit at HEAD, as its raw bytes.
#[verifier::external_body]
fn head_commit_id(repository: &git2::Repository) -> Result<Vec<u8>, git2::Error> {
    let obj = repository.head()?.resolve()?.peel(git2::ObjectType::Commit)?;
    let commit = obj.into_commit().map_err(|_| git2::Error::from_str("no commit at HEAD"))?;
    Ok(commit.id().as_bytes().to_vec())
}

/// Relies on git2: the object id of the last commit of a branch.
#[verifier::external_body]
fn branch_commit_id(repository: &git2::Repository, branch: &str) -> Result<Vec<u8>, git2::Error> {
    let obj = repository.revparse_single(&format!("refs/heads/{}", branch))?;
    Ok(obj.peel_to_commit()?.id().as_bytes().to_vec())
}

/// Relies on `git2::Repository::merge_base`: the id of the nearest common
/// ancestor of two commits.
#[verifier::external_body]
fn merge_base_id(
    repository: &git2::Repository,
    a: &Vec<u8>,
    b: &Vec<u8>,
) -> Result<Vec<u8>, git2::Error> {
    let base = repository.merge_base(git2::Oid::from_bytes(a)?, git2::Oid::from_bytes(b)?)?;
    Ok(base.as_bytes().to_vec())
}

/// Relies on `git2::Diff::print` over a patience diff of the given commit's
/// tree against the working directory (index included): hands every printed
/// line out as a plain record.
#[verifier::external_body]
pub(crate) fn diff_lines_vs_commit(
    repository: &git2::Repository,
    commit_id: &Vec<u8>,
) -> Result<Vec<DiffRec>, git2::Error> {
    let commit = repository.find_commit(git2::Oid::from_bytes(commit_id)?)?;
    let tree = commit.tree()?;
    let diff = repository.diff_tree_to_workdir_with_index(
        Some(&tree),
        Some(git2::DiffOptions::new().patience(true)),
    )?;
    let mut out: Vec<DiffRec> = Vec::new();
    diff.print(git2::DiffFormat::Patch, |d, _h, l| {
        let path = d.new_file().path().map(|p| p.to_string_lossy().into_owned());
        out.push(DiffRec::new(path.unwrap_or_default(), d.old_file().id().to_string(),
            d.new_file().id().to_string(), l.origin(),
            String::from_utf8_lossy(l.content()).into_owned()));
        true
    })?;
    Ok(out)
}

/// Stages everything under the repository root.
pub fn stage_all() -> Result<(), git2::Error> {
    let mut paths: Vec<String> = Vec::new();
    paths.push(String::from_str("*"));
    stage_paths(&paths)
}

/// Commits everything, with "." standing in when no message is given.
pub fn commit_all(message: Option<&str>) -> Result<(), git2::Error> {
    let msg = match message {
        Some(m) => m,
        None => ".",
    };
    let repository = repo()?;
    let mut paths: Vec<String> = Vec::new();
    paths.push(String::from_str("*"));
    commit_paths(&repository, &paths, msg)
}

/// Commits everything, but only when the working directory differs from the
/// last commit.
pub fn commit_any(message: Option<&str>) -> Result<(), git2::Error> {
    let repository = repo()?;
    let changed = workdir_delta_count(&repository)?;
    if changed != 0 {
        commit_all(message)
    } else {
        Ok(())
    }
}

/// Whether the working directory differs from the last commit.
pub fn repo_is_modified() -> Result<bool, git2::Error> {
    let repository = repo()?;
    let changed = workdir_delta_count(&repository)?;
    Ok(changed != 0)
}

/// The id of the nearest common ancestor of HEAD and the main branch.
fn ancestor_with_main_id(repository: &git2::Repository) -> Result<Vec<u8>, git2::Error> {
    let head = head_commit_id(repository)?;
    let main = branch_commit_id(repository, "main")?;
    merge_base_id(repository, &head, &main)
}

/// The diff lines of the working directory against the ancestor shared with
/// the main branch.
pub fn diff_lines_vs_main(repository: &git2::Repository) -> Result<Vec<DiffRec>, git2::Error> {
    let ancestor = ancestor_with_main_id(repository)?;
    diff_lines_vs_commit(repository, &ancestor)
}

/// The diff lines of the working directory against the last commit.
pub fn diff_lines_vs_last_commit(repository: &git2::Repository) -> Result<
    Vec<DiffRec>,
    git2::Error,
> {
    let head = head_commit_id(repository)?;
    diff_lines_vs_commit(repository, &head)
}

} // verus!
