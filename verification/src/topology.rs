//! The closed set of supported network topologies, and the mapping from a
//! topology's name to its kind.

use vstd::prelude::*;
use vstd::string::StrSliceExecFns;

use crate::ConstructionError;

verus! {

/// The different network topologies we support.
#[derive(Clone, Copy, Debug, PartialEq, Eq, Structural)]
pub enum Topology {
    /// A bidirectional cycle.
    Ring,
    /// A unidirectional cycle.
    OnewayRing,
    /// One hub connected to `n - 1` leaves.
    Star,
    /// A path of nodes `0 .. n`.
    Line,
}

/// Character-wise equality of two string slices.
fn str_eq(a: &str, b: &str) -> (r: bool)
    ensures
        r == (a@ == b@),
{
    let la = a.unicode_len();
    let lb = b.unicode_len();
    if la != lb {
        proof {
            assert(a@.len() != b@.len());
        }
        return false;
    }
    let mut i: usize = 0;
    while i < la
        invariant
            i <= la,
            la == a@.len(),
            la == b@.len(),
            forall|j: int| 0 <= j < i ==> a@[j] == b@[j],
        decreases la - i,
    {
        if a.get_char(i) != b.get_char(i) {
            return false;
        }
        i = i + 1;
    }
    proof {
        assert(a@ =~= b@);
    }
    true
}

impl Topology {
    /// Select the topology kind named by `name`: one of `ring`,
    /// `oneway_ring`, `star` and `line`. Any other name is rejected.
    pub fn from_name(name: &str) -> (r: Result<Topology, ConstructionError>)
        ensures
            r == if name@ == "ring"@ {
                Ok::<Topology, ConstructionError>(Topology::Ring)
            } else if name@ == "oneway_ring"@ {
                Ok::<Topology, ConstructionError>(Topology::OnewayRing)
            } else if name@ == "star"@ {
                Ok::<Topology, ConstructionError>(Topology::Star)
            } else if name@ == "line"@ {
                Ok::<Topology, ConstructionError>(Topology::Line)
            } else {
                Err::<Topology, ConstructionError>(ConstructionError::UnknownTopology)
            },
    {
        if str_eq(name, "ring") {
            Ok(Topology::Ring)
        } else if str_eq(name, "oneway_ring") {
            Ok(Topology::OnewayRing)
        } else if str_eq(name, "star") {
            Ok(Topology::Star)
        } else if str_eq(name, "line") {
            Ok(Topology::Line)
        } else {
            Err(ConstructionError::UnknownTopology)
        }
    }
}

} // verus!
