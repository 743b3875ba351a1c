//! Resolution of keyboard hardware descriptions into validated component graphs.
pub mod compile;
pub mod graph;
pub mod model;
pub mod resolve;

pub use compile::{CompileError, ResolvedKeyboard, compile, split_document};
pub use graph::{BuildError, ComponentGraph, Node, Violation, build_graph, validate};
pub use model::{
    Component, ComponentKind, Definition, Definitions, InlineDefinition, Input, InputKind, Keyboard,
    KeyboardSpec, Location, Output, RemoteDefinition, RemoteKey, ShapeError,
};
pub use resolve::{RemoteDocument, Resolution, ResolveError, resolve_definitions};
