use vstd::prelude::*;
use crate::error::{ScaffoldError, ScaffoldResult};
use crate::file_tree::{
    fentries_view, flat, flatten_file_tree, unflat, unflatten_file_tree, wf, FileTree, TreeV,
};

verus! {

/// The merged form of two trees: both flattened, the rendered side listed
/// after the existing one so that it wins on any shared path, and the union
/// rebuilt; `None` exactly when the union conflicts.
pub open spec fn merge_model(existing: TreeV, rendered: TreeV) -> Option<TreeV> {
    unflat(flat(existing) + flat(rendered))
}

/// Right-biased union of a freshly rendered tree with a pre-existing tree:
/// on any path present in both, the rendered side wins; paths present in
/// only one side pass through unchanged.
pub fn merge_file_trees(existing: &FileTree, rendered: &FileTree) -> (res: ScaffoldResult<
    FileTree,
>)
    ensures
        match res {
            Ok(m) => merge_model(existing.view(), rendered.view()) == Some(m.view()) && wf(
                m.view(),
            ),
            Err(e) => merge_model(existing.view(), rendered.view()) is None && e is TreeConflict,
        },
{
    let mut all = flatten_file_tree(existing);
    let mut from_rendered = flatten_file_tree(rendered);
    let ghost fe = fentries_view(all@);
    let ghost fr = fentries_view(from_rendered@);
    all.append(&mut from_rendered);
    proof {
        assert(fentries_view(all@) =~= fe + fr);
    }
    unflatten_file_tree(&all)
}

} // verus!
