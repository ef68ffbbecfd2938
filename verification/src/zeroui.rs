//! Remote UI blueprints: the layout direction of a container, and the
//! title of the splash screen a node serves.

use vstd::prelude::*;
use crate::text::{decimal, push_decimal};

verus! {

/// How a container lays out its children.
#[derive(Clone, Copy, Debug, PartialEq, Eq)]
pub enum Direction {
    Horizontal,
    Vertical,
}

/// The splash screen's title for a node listening on `port`.
pub open spec fn splash_title_spec(port: u16) -> Seq<char> {
    "Project Zero (Port: "@ + decimal(port as nat) + ")"@
}

/// The splash screen's title.
pub fn splash_title(local_port: u16) -> (r: String)
    ensures
        r@ == splash_title_spec(local_port),
{
    let mut r = String::from_str("Project Zero (Port: ");
    push_decimal(&mut r, local_port as u64);
    r.append(")");
    r
}

} // verus!
