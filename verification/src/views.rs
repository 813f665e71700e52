//! Small ambient facts about deep views of vectors.

use vstd::prelude::*;

verus! {

/// A vector's deep view has one element per vector element.
pub broadcast proof fn lemma_vec_deep_view_len<T: DeepView>(v: Vec<T>)
    ensures
        (#[trigger] v.deep_view().len()) == v@.len(),
{
}

/// Indexing a vector's deep view is the element's deep view.
pub broadcast proof fn lemma_vec_deep_view_index<T: DeepView>(v: Vec<T>, i: int)
    requires
        (0 <= i && i < v@.len()),
    ensures
        (#[trigger] v.deep_view()[i]) == v@[i].deep_view(),
{
}

} // verus!
