use vstd::prelude::*;

verus! {

/// The parts of the engine whose state can be dumped for debugging.
#[derive(Debug, Clone, Copy, PartialEq, Eq, Hash, Structural)]
pub enum DebugDumpTargets {
    EntityManager,
    ComponentTypeManager,
    ArchetypeManager,
    Plugins,
    Events,
    Resources,
}

/// How severe a debug message is.
#[derive(Debug, Clone, Copy, PartialEq, Eq, Structural)]
pub enum DebugMessageLevel {
    Error,
    Internal,
}

/// The name of a message level.
pub open spec fn level_name(level: DebugMessageLevel) -> Seq<char> {
    match level {
        DebugMessageLevel::Error => "Error"@,
        DebugMessageLevel::Internal => "Internal"@,
    }
}

impl DebugMessageLevel {
    /// The name of the level, as messages print it.
    pub fn to_string(&self) -> (r: String)
        ensures
            r@ == level_name(*self),
    {
        match self {
            DebugMessageLevel::Error => "Error".to_owned(),
            DebugMessageLevel::Internal => "Internal".to_owned(),
        }
    }
}

/// A message for the debug log hooks: where it was raised, what it says,
/// which dumps explain it, and how severe it is.
#[derive(Debug)]
pub struct DebugMessage {
    pub line: u32,
    pub file: String,
    pub msg: String,
    pub dumps: Vec<DebugDumpTargets>,
    pub level: DebugMessageLevel,
}

} // verus!
