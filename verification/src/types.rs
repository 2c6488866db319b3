//! Value types for source positions, symbol outlines and call-hierarchy
//! queries, together with the ordering specification on positions.

use vstd::prelude::*;

verus! {

/// A zero-based source position, totally ordered by `(line, character)`.
#[derive(Clone, Copy, PartialEq, Eq, Structural, Debug, Hash)]
pub struct Position {
    pub line: u32,
    pub character: u32,
}

/// Strict `(line, character)` order on positions.
pub open spec fn pos_lt(a: Position, b: Position) -> bool {
    a.line < b.line || (a.line == b.line && a.character < b.character)
}

impl Position {
    /// Decides the strict `(line, character)` order.
    pub fn lt(&self, other: &Position) -> (r: bool)
        ensures
            r == pos_lt(*self, *other),
    {
        self.line < other.line || (self.line == other.line && self.character < other.character)
    }
}

/// A source span; `end` is never before `start`.
#[derive(Clone, Copy, PartialEq, Eq, Structural, Debug, Hash)]
pub struct Range {
    pub start: Position,
    pub end: Position,
}

/// The closed taxonomy of symbol-outline kinds. Kinds that the graph rules
/// never single out are mapped to `Other` by the embedding layer.
#[derive(Clone, Copy, PartialEq, Eq, Structural, Debug, Hash)]
pub enum SymbolKind {
    File,
    Module,
    Namespace,
    Package,
    Class,
    Method,
    Property,
    Field,
    Constructor,
    Enum,
    Interface,
    Function,
    Variable,
    Constant,
    EnumMember,
    Struct,
    Event,
    Operator,
    TypeParameter,
    Other,
}

/// One node of a file's symbol outline as handed in by the analysis backend.
/// `selection_range` is the name-token span used as the symbol's identity;
/// `range` is the enclosing body span.
#[derive(Debug)]
pub struct DocumentSymbol {
    pub name: String,
    pub detail: Option<String>,
    pub kind: SymbolKind,
    pub range: Range,
    pub selection_range: Range,
    pub children: Vec<DocumentSymbol>,
}

/// A file locator as the analysis backend reports it.
#[derive(Debug)]
pub struct Uri {
    pub path: String,
}

/// A position inside a named file.
#[derive(Debug)]
pub struct Location {
    pub uri: Uri,
    pub range: Range,
}

/// One endpoint of a call-hierarchy relation. `range` spans the whole body,
/// `selection_range` the name token that identifies the symbol.
#[derive(Debug)]
pub struct CallHierarchyItem {
    pub name: String,
    pub kind: SymbolKind,
    pub uri: Uri,
    pub range: Range,
    pub selection_range: Range,
}

/// One caller of the queried symbol.
#[derive(Debug)]
pub struct CallHierarchyIncomingCall {
    pub from: CallHierarchyItem,
    pub from_ranges: Vec<Range>,
}

/// One callee of the queried symbol.
#[derive(Debug)]
pub struct CallHierarchyOutgoingCall {
    pub to: CallHierarchyItem,
    pub from_ranges: Vec<Range>,
}

/// A position within a file that is still identified by its path.
#[derive(Debug)]
pub struct SymbolLocation {
    pub path: String,
    pub position: Position,
}

impl SymbolLocation {
    pub fn new(path: String, position: Position) -> (r: SymbolLocation)
        ensures
            r.path == path,
            r.position == position,
    {
        SymbolLocation { path, position }
    }
}

/// The globally unique address of a retained symbol occurrence: the id of
/// its file and the start of its selection range.
#[derive(Clone, Copy, PartialEq, Eq, Structural, Debug, Hash)]
pub struct GlobalPosition {
    pub file_id: u32,
    pub line: u32,
    pub character: u32,
}

impl GlobalPosition {
    pub fn new(file_id: u32, position: Position) -> (r: GlobalPosition)
        ensures
            r == (GlobalPosition { file_id, line: position.line, character: position.character }),
    {
        GlobalPosition { file_id, line: position.line, character: position.character }
    }

    /// The position part of the address.
    pub open spec fn spec_position(self) -> Position {
        Position { line: self.line, character: self.character }
    }
}

} // verus!
