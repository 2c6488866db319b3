//! The graph value that resolution produces: registered files with their
//! retained symbol trees, edges between global addresses, and the directory
//! groups used by renderers. Also the mathematical model of symbol trees and
//! the sortedness invariant every stored tree keeps.

use vstd::prelude::*;

use crate::types::{pos_lt, GlobalPosition, Position, Range, SymbolKind};

verus! {

/// A retained symbol occurrence. `range` is the selection range whose start
/// is the symbol's identity inside its file; `full_range` is the body span,
/// used only for containment tests. Children are kept strictly ascending by
/// selection-range start.
#[derive(Debug)]
pub struct Symbol {
    pub name: String,
    pub kind: SymbolKind,
    pub range: Range,
    pub full_range: Range,
    pub children: Vec<Symbol>,
}

/// A registered file: its stable id, its path and its retained symbol tree.
#[derive(Debug)]
pub struct File {
    pub id: u32,
    pub path: String,
    pub symbols: Vec<Symbol>,
}

/// What an edge records beside its endpoints.
#[derive(Clone, Copy, PartialEq, Eq, Structural, Debug)]
pub enum RelationKind {
    Call,
    Impl,
    Inherit,
}

/// A directed edge between two global symbol addresses. Edge identity for
/// deduplication is `(from, to)` alone; the kind is not part of it.
#[derive(Clone, Copy, Debug)]
pub struct Relation {
    pub from: GlobalPosition,
    pub to: GlobalPosition,
    pub kind: RelationKind,
}

/// The result of resolution: the registered files (after any nested-symbol
/// recovery) and the deduplicated edge set.
#[derive(Debug)]
pub struct Graph {
    pub files: Vec<File>,
    pub relations: Vec<Relation>,
}

/// A directory group for rendering: one path segment, the ids of the files
/// lying directly in that directory, and the nested groups below it.
#[derive(Debug)]
pub struct Subgraph {
    pub title: String,
    pub nodes: Vec<u32>,
    pub subgraphs: Vec<Subgraph>,
}

/// How a renderer should draw a symbol of some kind.
#[derive(Debug, Clone, Copy, PartialEq, Eq, Structural)]
pub struct Style {
    pub rounded: bool,
    pub border: Option<u8>,
    pub icon: Option<char>,
}

/// The classes a renderer may attach to an edge.
#[derive(Clone, Copy, PartialEq, Eq, Structural, Debug)]
pub enum EdgeCssClass {
    Impl,
}

impl EdgeCssClass {
    /// The class name as it appears in rendered output.
    pub fn to_str(&self) -> (r: &'static str)
        ensures
            r@ == "impl"@,
    {
        match self {
            EdgeCssClass::Impl => "impl",
        }
    }
}

/// What one character contributes to HTML-escaped text.
pub open spec fn escape_char(c: char) -> Seq<char> {
    if c == '&' {
        "&amp;"@
    } else if c == '"' {
        "&quot;"@
    } else if c == '<' {
        "&lt;"@
    } else if c == '>' {
        "&gt;"@
    } else {
        seq![c]
    }
}

/// Text with every markup-significant character replaced by its entity.
pub open spec fn escape_seq(s: Seq<char>) -> Seq<char>
    decreases s.len(),
{
    if s.len() == 0 {
        Seq::empty()
    } else {
        escape_seq(s.drop_last()) + escape_char(s.last())
    }
}

/// Escapes text for embedding in rendered markup, exactly as `escape_seq`
/// states.
#[verifier::loop_isolation(false)]
pub fn escape_html(s: &str) -> (r: String)
    ensures
        r@ == escape_seq(s@),
{
    let n = s.unicode_len();
    let mut out = String::new();
    proof {
        assert(s@.take(0) =~= Seq::<char>::empty());
        assert(out@ =~= escape_seq(s@.take(0)));
    }
    for i in 0..n
        invariant
            n == s@.len(),
            out@ == escape_seq(s@.take(i as int)),
    {
        let ghost before = out@;
        let c = s.get_char(i);
        if c == '&' {
            out.append("&amp;");
        } else if c == '"' {
            out.append("&quot;");
        } else if c == '<' {
            out.append("&lt;");
        } else if c == '>' {
            out.append("&gt;");
        } else {
            let piece = s.substring_char(i, i + 1);
            proof {
                assert(piece@ =~= seq![s@[i as int]]);
            }
            out.append(piece);
        }
        proof {
            assert(s@.take(i as int + 1).drop_last() =~= s@.take(i as int));
            assert(s@.take(i as int + 1).last() == s@[i as int]);
            assert(out@ == before + escape_char(s@[i as int]));
        }
    }
    proof {
        assert(s@.take(n as int) =~= s@);
    }
    out
}

/// The mathematical model of a retained symbol: the same shape as `Symbol`,
/// with sequences in place of vectors.
#[verifier::ext_equal]
pub ghost struct SymModel {
    pub name: Seq<char>,
    pub kind: SymbolKind,
    pub range: Range,
    pub full_range: Range,
    pub children: Seq<SymModel>,
}

/// The model of one symbol node and, below, of a whole sibling list.
pub open spec fn sym_model(s: Symbol) -> SymModel
    decreases s,
{
    SymModel {
        name: s.name@,
        kind: s.kind,
        range: s.range,
        full_range: s.full_range,
        children: list_model(s.children@),
    }
}

pub open spec fn list_model(l: Seq<Symbol>) -> Seq<SymModel>
    decreases l,
{
    if l.len() == 0 {
        Seq::empty()
    } else {
        list_model(l.drop_last()).push(sym_model(l.last()))
    }
}

/// `list_model` keeps the length of the list it models ...
pub broadcast proof fn lemma_list_model_len(l: Seq<Symbol>)
    ensures
        (#[trigger] list_model(l)).len() == l.len(),
    decreases l,
{
    if l.len() > 0 {
        lemma_list_model_len(l.drop_last());
    }
}

/// ... and maps `sym_model` over it, element by element.
pub broadcast proof fn lemma_list_model_index(l: Seq<Symbol>, i: int)
    requires
        0 <= i < l.len(),
    ensures
        #[trigger] list_model(l)[i] == sym_model(l[i]),
    decreases l,
{
    lemma_list_model_len(l);
    if l.len() > 0 && i < l.len() - 1 {
        lemma_list_model_index(l.drop_last(), i);
    }
}

/// Both facts about `list_model` at once.
pub broadcast group group_list_model {
    lemma_list_model_len,
    lemma_list_model_index,
}

/// The model of a one-element list.
pub proof fn lemma_list_model_singleton(s: Symbol)
    ensures
        list_model(seq![s]) =~= seq![sym_model(s)],
{
    reveal_with_fuel(list_model, 2);
    assert(seq![s].len() == 1);
    assert(seq![s].drop_last() =~= Seq::<Symbol>::empty());
    assert(list_model(Seq::<Symbol>::empty()) =~= Seq::<SymModel>::empty());
    assert(seq![s].last() == s);
    assert(list_model(seq![s]) =~= list_model(Seq::<Symbol>::empty()).push(sym_model(s)));
}

/// A sibling list is strictly ascending by selection-range start.
pub open spec fn siblings_sorted(l: Seq<SymModel>) -> bool {
    forall|i: int, j: int|
        0 <= i < j < l.len() ==> pos_lt(l[i].range.start, l[j].range.start)
}

/// The sortedness invariant, at every level of a tree.
pub open spec fn sym_wf(s: SymModel) -> bool
    decreases s,
{
    list_wf(s.children)
}

pub open spec fn list_wf(l: Seq<SymModel>) -> bool
    decreases l,
{
    siblings_sorted(l) && forall|i: int| 0 <= i < l.len() ==> sym_wf(#[trigger] l[i])
}

/// Whether some node of the tree has `p` as its selection-range start.
pub open spec fn sym_has_start(s: SymModel, p: Position) -> bool
    decreases s,
{
    s.range.start == p || list_has_start(s.children, p)
}

pub open spec fn list_has_start(l: Seq<SymModel>, p: Position) -> bool
    decreases l,
{
    exists|i: int| 0 <= i < l.len() && sym_has_start(#[trigger] l[i], p)
}

/// The model of a registered file.
#[verifier::ext_equal]
pub ghost struct FileModel {
    pub id: u32,
    pub path: Seq<char>,
    pub symbols: Seq<SymModel>,
}

pub open spec fn file_model(f: File) -> FileModel {
    FileModel { id: f.id, path: f.path@, symbols: list_model(f.symbols@) }
}

pub open spec fn files_model(fs: Seq<File>) -> Seq<FileModel> {
    Seq::new(fs.len(), |i: int| file_model(fs[i]))
}

/// Membership of a global address in the registered trees: some file has the
/// address's id and a node starting at its position.
pub open spec fn files_have_addr(fs: Seq<FileModel>, a: GlobalPosition) -> bool {
    exists|k: int|
        0 <= k < fs.len() && (#[trigger] fs[k]).id == a.file_id
            && list_has_start(fs[k].symbols, a.spec_position())
}

} // verus!
