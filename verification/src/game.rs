//! Plain data that the application hands to the renderer.

use vstd::prelude::*;

verus! {

/// Which profiling the renderer does.
#[derive(Debug, Clone)]
pub struct ProfilerSettings {
    /// Whether GPU timer queries are enabled.
    pub gpu: bool,
}

impl Default for ProfilerSettings {
    fn default() -> (r: Self)
        ensures
            !r.gpu,
    {
        ProfilerSettings { gpu: false }
    }
}

/// The name under which a shader is registered.
#[derive(Debug, Clone, Hash, PartialEq, Eq)]
pub struct ShaderId(pub String);

/// A user shader: its label and its WGSL code.
#[derive(Clone)]
pub struct ShaderInfo {
    pub label: String,
    pub code: String,
}

} // verus!
