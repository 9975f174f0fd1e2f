//! Planning the mirroring of a static-assets directory. The filesystem walk
//! itself is not part of the library: callers list a directory tree as
//! relative entries in depth-first order (each directory before its
//! contents) and receive the actions to perform, in order.

use vstd::prelude::*;

verus! {

/// One entry of a recursive directory listing, by its path relative to the
/// root that is being copied.
pub struct DirEntry {
    pub rel_path: String,
    pub is_dir: bool,
}

/// One filesystem action of a copy plan.
pub enum FsAction {
    CreateDir { path: String },
    CopyFile { from: String, to: String },
}

/// A path under a directory.
pub open spec fn spec_join(dir: Seq<char>, rel: Seq<char>) -> Seq<char> {
    dir + "/"@ + rel
}

/// Join a relative path onto a directory.
pub fn join_path(dir: &str, rel: &str) -> (r: String)
    ensures
        r@ == spec_join(dir@, rel@),
{
    let mut s = String::from_str(dir);
    s.append("/");
    s.append(rel);
    s
}

/// The action a single entry contributes to the plan for copying `from`
/// into `to`.
pub open spec fn action_for(a: FsAction, e: DirEntry, from: Seq<char>, to: Seq<char>) -> bool {
    if e.is_dir {
        match a {
            FsAction::CreateDir { path } => path@ == spec_join(to, e.rel_path@),
            _ => false,
        }
    } else {
        match a {
            FsAction::CopyFile { from: f, to: t } =>
                f@ == spec_join(from, e.rel_path@) && t@ == spec_join(to, e.rel_path@),
            _ => false,
        }
    }
}

/// Plan the verbatim mirroring of a directory: create the destination, then
/// for every listed entry, in order, create the mirrored directory or copy
/// the file.
pub fn copy_dir(from: &str, to: &str, entries: &Vec<DirEntry>) -> (r: Vec<FsAction>)
    ensures
        r@.len() == 1 + entries@.len(),
        match r@[0] {
            FsAction::CreateDir { path } => path@ == to@,
            _ => false,
        },
        forall|i: int| 0 <= i < entries@.len()
            ==> action_for(#[trigger] r@[i + 1], entries@[i], from@, to@),
{
    let mut plan: Vec<FsAction> = Vec::new();
    plan.push(FsAction::CreateDir { path: String::from_str(to) });
    let n = entries.len();
    let mut i: usize = 0;
    while i < n
        invariant
            n == entries@.len(),
            0 <= i <= n,
            plan@.len() == 1 + i,
            match plan@[0] {
                FsAction::CreateDir { path } => path@ == to@,
                _ => false,
            },
            forall|k: int| 0 <= k < i
                ==> action_for(#[trigger] plan@[k + 1], entries@[k], from@, to@),
        decreases n - i,
    {
        let e = &entries[i];
        if e.is_dir {
            plan.push(FsAction::CreateDir { path: join_path(to, e.rel_path.as_str()) });
        } else {
            plan.push(FsAction::CopyFile {
                from: join_path(from, e.rel_path.as_str()),
                to: join_path(to, e.rel_path.as_str()),
            });
        }
        i += 1;
    }
    plan
}

} // verus!
