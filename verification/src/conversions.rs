//! From what the analysis knows of a name to a place in the source.

use crate::goto::Region;
use vstd::prelude::*;

verus! {

/// The number of a node of the syntax tree.
pub type NodeId = u32;

/// The number of the crate under analysis.
pub const LOCAL_CRATE: u32 = 0;

/// What identifies a definition across crates.
#[derive(Clone, Copy, Debug, PartialEq, Eq, Structural)]
pub struct DefId {
    /// The crate that holds the definition.
    pub krate: u32,
    /// The node of the definition within its crate.
    pub node: NodeId,
}

/// The kind of thing a path resolves to, as far as it matters here.
#[derive(Clone, Copy, Debug, PartialEq, Eq, Structural)]
pub enum Def {
    /// A primitive type.
    PrimTy,
    /// The type `Self`.
    SelfTy,
    /// Anything that is defined somewhere.
    Other,
}

/// What a path resolves to.
#[derive(Clone, Copy, Debug, PartialEq, Eq, Structural)]
pub struct PathResolution {
    pub base_def: Def,
    pub def_id: DefId,
}

/// A stretch of one file: the half-open range `lo..hi` of character offsets.
#[derive(Debug)]
pub struct Span {
    pub filename: String,
    pub lo: usize,
    pub hi: usize,
    /// Whether this is the span given to what has no place in the source.
    pub dummy: bool,
}

/// The region that a span covers; none for the dummy span.
pub fn span_to_region(span: Span) -> (region: Option<Region>)
    requires
        span.dummy || span.hi >= 1,
    ensures
        span.dummy <==> region is None,
        region matches Some(r) ==> r.filename == span.filename && r.start == span.lo && r.end
            == span.hi - 1,
{
    if span.dummy {
        return None;
    }
    Some(Region { start: span.lo, end: span.hi - 1, filename: span.filename })
}

/// The definition that a path resolves to; none for a primitive type and
/// for `Self`.
pub fn path_resolution_to_def_id(path: &PathResolution) -> (def_id: Option<DefId>)
    ensures
        def_id == (match path.base_def {
            Def::PrimTy | Def::SelfTy => None,
            Def::Other => Some(path.def_id),
        }),
{
    match path.base_def {
        Def::PrimTy | Def::SelfTy => None,
        _ => Some(path.def_id),
    }
}

/// The node of a definition; none for a definition in another crate.
pub fn def_id_to_node_id(def_id: DefId) -> (node: Option<NodeId>)
    ensures
        node == (if def_id.krate == LOCAL_CRATE {
            Some(def_id.node)
        } else {
            None
        }),
{
    if def_id.krate == LOCAL_CRATE {
        Some(def_id.node)
    } else {
        None
    }
}

/// The node that a path resolves to, where it resolves to a definition of the
/// crate under analysis.
pub fn path_resolution_to_node_id(path: &PathResolution) -> (node: Option<NodeId>)
    ensures
        node == (match path.base_def {
            Def::PrimTy | Def::SelfTy => None,
            Def::Other => if path.def_id.krate == LOCAL_CRATE {
                Some(path.def_id.node)
            } else {
                None
            },
        }),
{
    match path_resolution_to_def_id(path) {
        Some(def_id) => def_id_to_node_id(def_id),
        None => None,
    }
}

} // verus!
