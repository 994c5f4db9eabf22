//! The output format of the `cfg` and `pdg` commands.

use vstd::prelude::*;
use crate::text::str_eq;

verus! {

/// How a graph is printed.
#[derive(Debug, Clone, Copy, PartialEq, Eq, Structural)]
pub enum GraphFormat {
    Dot,
    Json,
}

/// The message for a format that is neither `dot` nor `json`.
pub open spec fn unsupported_format(f: Seq<char>) -> Seq<char> {
    "Unsupported format: "@ + f + ". Use 'dot' or 'json'."@
}

/// The format asked for: `dot` when none is given.
pub fn graph_format(format: Option<&str>) -> (r: Result<GraphFormat, String>)
    ensures
        match format {
            None => r == Ok::<GraphFormat, String>(GraphFormat::Dot),
            Some(f) => if f@ == "dot"@ {
                r == Ok::<GraphFormat, String>(GraphFormat::Dot)
            } else if f@ == "json"@ {
                r == Ok::<GraphFormat, String>(GraphFormat::Json)
            } else {
                r matches Err(m) && m@ == unsupported_format(f@)
            },
        },
{
    match format {
        None => Ok(GraphFormat::Dot),
        Some(f) => {
            if str_eq(f, "dot") {
                Ok(GraphFormat::Dot)
            } else if str_eq(f, "json") {
                Ok(GraphFormat::Json)
            } else {
                let mut m = String::from_str("Unsupported format: ");
                m.append(f);
                m.append(". Use 'dot' or 'json'.");
                Err(m)
            }
        },
    }
}

} // verus!
