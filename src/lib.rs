//! The front end of a small document renderer: an HTML parser, a CSS parser, the
//! cascade that styles each element, and the box tree built from the styled tree.
use vstd::prelude::*;

pub mod css;
pub mod dom;
pub mod html;
pub mod layout;
pub mod scan;
pub mod style;

verus! {

} // verus!
