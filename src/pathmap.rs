//! The mirror of a plain list of files.
use vstd::prelude::*;

use crate::node::{Node, on_some_path};
use crate::treemap::Treemap;

verus! {

/// The mirrors of `files`: one tree holding them all, or none where there are
/// no files.
pub fn path_map(files: Vec<Vec<String>>) -> (r: Vec<Treemap>)
    ensures
        files@.len() == 0 <==> r@.len() == 0,
        r@.len() <= 1,
        r@.len() == 1 ==> {
            &&& r@[0].wf()
            &&& r@[0].is_root()
            &&& forall|q: Seq<Seq<char>>| #[trigger] r@[0].has_node(q) <==> on_some_path(
                files@.map_values(|p: Vec<String>| p@),
                q,
            )
        },
{
    let mut r: Vec<Treemap> = Vec::new();
    match Node::build_tree(&files) {
        Ok(t) => {
            r.push(t);
        },
        Err(_) => {},
    }
    r
}

} // verus!
