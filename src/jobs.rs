use vstd::prelude::*;

verus! {

/// Notice that a listener job sends back once its socket is bound.
#[derive(Debug)]
pub struct ApiServerJobStarted();

} // verus!
