//! Backend selection for coarse density and velocity fields.
//!
//! Asking for a backend is not the same as getting it: an unimplemented
//! backend degrades to the CPU reference with a recorded reason.

use vstd::prelude::*;
use crate::text::{join2, join3, str_eq};

verus! {

#[derive(Clone, Copy, Debug, PartialEq, Eq, Structural)]
pub enum FieldBackend {
    CpuReference,
    Metal,
    Cuda,
    Vulkan,
}

/// What a caller actually got, and why.
#[derive(Clone, Debug, PartialEq)]
pub struct BackendSelection {
    pub requested: FieldBackend,
    pub active: FieldBackend,
    pub fell_back: bool,
    /// Present only on a fallback.
    pub reason: Option<String>,
}

pub open spec fn backend_name(b: FieldBackend) -> Seq<char> {
    match b {
        FieldBackend::CpuReference => "cpu_reference"@,
        FieldBackend::Metal => "metal"@,
        FieldBackend::Cuda => "cuda"@,
        FieldBackend::Vulkan => "vulkan"@,
    }
}

impl FieldBackend {
    pub fn parse(name: &str) -> (r: Result<Self, String>)
        ensures
            name@ == "cpu_reference"@ ==> r == Ok::<FieldBackend, String>(FieldBackend::CpuReference),
            name@ == "metal"@ ==> r == Ok::<FieldBackend, String>(FieldBackend::Metal),
            name@ == "cuda"@ ==> r == Ok::<FieldBackend, String>(FieldBackend::Cuda),
            name@ == "vulkan"@ ==> r == Ok::<FieldBackend, String>(FieldBackend::Vulkan),
            r matches Ok(b) ==> backend_name(b) == name@,
            r matches Err(e) ==> e@ == "unknown field backend: "@ + name@
                + "; known backends: cpu_reference, metal, cuda, vulkan"@,
    {
        proof {
            reveal_strlit("cpu_reference");
            reveal_strlit("metal");
            reveal_strlit("cuda");
            reveal_strlit("vulkan");
            assert("cpu_reference"@.len() == 13);
            assert("metal"@.len() == 5);
            assert("cuda"@.len() == 4);
            assert("vulkan"@.len() == 6);
        }
        if str_eq(name, "cpu_reference") {
            Ok(FieldBackend::CpuReference)
        } else if str_eq(name, "metal") {
            Ok(FieldBackend::Metal)
        } else if str_eq(name, "cuda") {
            Ok(FieldBackend::Cuda)
        } else if str_eq(name, "vulkan") {
            Ok(FieldBackend::Vulkan)
        } else {
            Err(join3(
                "unknown field backend: ",
                name,
                "; known backends: cpu_reference, metal, cuda, vulkan",
            ))
        }
    }

    pub fn name(self) -> (r: &'static str)
        ensures
            r@ == backend_name(self),
    {
        match self {
            FieldBackend::CpuReference => "cpu_reference",
            FieldBackend::Metal => "metal",
            FieldBackend::Cuda => "cuda",
            FieldBackend::Vulkan => "vulkan",
        }
    }

    /// Whether an implementation exists and is tested: only the CPU reference.
    pub fn is_implemented(self) -> (r: bool)
        ensures
            r == (self == FieldBackend::CpuReference),
    {
        match self {
            FieldBackend::CpuReference => true,
            _ => false,
        }
    }
}

/// The backend that serves a request: the request itself when implemented,
/// the CPU reference otherwise.
pub open spec fn active_backend(requested: FieldBackend) -> FieldBackend {
    if requested == FieldBackend::CpuReference {
        requested
    } else {
        FieldBackend::CpuReference
    }
}

/// Resolve a requested backend to one that exists, recording whether and why
/// it fell back.
pub fn backend_selection(requested: FieldBackend) -> (s: BackendSelection)
    ensures
        s.requested == requested,
        s.active == active_backend(requested),
        s.fell_back == (active_backend(requested) != requested),
        s.fell_back ==> (s.reason matches Some(r) && r@ == backend_name(requested)
            + " is not implemented in this build; see docs/backend-support-matrix.md"@),
        !s.fell_back ==> s.reason is None,
{
    let active = if requested.is_implemented() {
        requested
    } else {
        FieldBackend::CpuReference
    };
    let fell_back = active != requested;
    let reason = if fell_back {
        Some(join2(requested.name(), " is not implemented in this build; see docs/backend-support-matrix.md"))
    } else {
        None
    };
    BackendSelection { requested, active, fell_back, reason }
}

} // verus!
