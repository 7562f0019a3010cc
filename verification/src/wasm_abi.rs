//! The data exchanged with the web front end.

use vstd::prelude::*;

verus! {

/// A shader sent by the web front end.
pub struct WasmShaderInfo {
    pub id: String,
    pub label: String,
    pub code: String,
}

/// A message from compiling a shader.
pub struct WasmCompilationMessage {
    pub message: String,
    pub message_type: WasmCompilationMessageType,
    pub location: Option<WasmSourceLocation>,
}

/// How serious a compilation message is.
#[derive(Debug, Clone, Copy, PartialEq, Eq, Structural)]
pub enum WasmCompilationMessageType {
    Error,
    Warning,
    Info,
}

/// Where in the shader source a compilation message points.
#[derive(Debug, Clone, Copy, PartialEq, Eq, Structural)]
pub struct WasmSourceLocation {
    /// 1-based line number.
    pub line_number: u32,
    /// 1-based column in code units (bytes) of the start of the span.
    pub line_position: u32,
    /// 0-based offset in code units (bytes) of the start of the span.
    pub offset: u32,
    /// Length in code units (bytes) of the span.
    pub length: u32,
}

/// An RGBA texture sent by the web front end.
pub struct WasmTexture {
    pub id: String,
    pub width: u32,
    /// RGBA
    pub data: Vec<u8>,
}

/// Whether any of the messages is an error: a shader whose compilation gave
/// an error is not installed.
pub fn has_error(messages: &Vec<WasmCompilationMessageType>) -> (b: bool)
    ensures
        b == exists|i: int|
            0 <= i < messages.len() && messages@[i] == WasmCompilationMessageType::Error,
{
    let mut k: usize = 0;
    while k < messages.len()
        invariant
            k <= messages.len(),
            forall|i: int| 0 <= i < k ==> messages@[i] != WasmCompilationMessageType::Error,
        decreases messages.len() - k,
    {
        if messages[k] == WasmCompilationMessageType::Error {
            return true;
        }
        k = k + 1;
    }
    false
}

/// The byte range `offset .. offset + length` that a source location covers.
pub fn location_span(location: WasmSourceLocation) -> (r: (usize, usize))
    requires
        location.offset + location.length <= u32::MAX,
    ensures
        r.0 == location.offset,
        r.1 == location.offset + location.length,
{
    (location.offset as usize, (location.offset + location.length) as usize)
}

} // verus!
