//! MCP protocol descriptor categories of the pinned schema snapshot.

use vstd::prelude::*;
use vstd::string::*;

verus! {

/// Closed protocol descriptor categories, distinct from application value types.
#[derive(Clone, Copy, Debug, PartialEq, Eq, Structural)]
pub enum McpDescriptorKind {
    /// Tool descriptor.
    Tool,
    /// Fixed resource descriptor.
    Resource,
    /// Resource template descriptor.
    ResourceTemplate,
    /// Prompt descriptor.
    Prompt,
}

/// The protocol schema definition that validates a descriptor kind.
pub open spec fn spec_descriptor_root(kind: McpDescriptorKind) -> Seq<char> {
    match kind {
        McpDescriptorKind::Tool => "Tool"@,
        McpDescriptorKind::Resource => "Resource"@,
        McpDescriptorKind::ResourceTemplate => "ResourceTemplate"@,
        McpDescriptorKind::Prompt => "Prompt"@,
    }
}

impl McpDescriptorKind {
    /// The schema definition name for this descriptor kind.
    pub fn root(self) -> (res: &'static str)
        ensures
            res@ == spec_descriptor_root(self),
    {
        match self {
            McpDescriptorKind::Tool => "Tool",
            McpDescriptorKind::Resource => "Resource",
            McpDescriptorKind::ResourceTemplate => "ResourceTemplate",
            McpDescriptorKind::Prompt => "Prompt",
        }
    }
}

} // verus!
