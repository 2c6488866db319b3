//! The language policy: a closed set of per-language filtering rules picked
//! by a language tag, plus the style classification renderers use. The
//! policy decides which files are excluded outright and which outline
//! symbols are retained during registration.

use vstd::prelude::*;

use crate::graph::{list_model, SymModel, Style, Symbol};
use crate::types::{DocumentSymbol, SymbolKind};

verus! {

/// The language-independent filtering rules, used on their own for unknown
/// language tags and as the fallback of every specific language.
pub struct DefaultLang;

/// One of the known language rule sets.
#[derive(Clone, Copy, PartialEq, Eq, Structural, Debug)]
pub enum LanguagePolicy {
    Default,
    Go,
    Rust,
    JsTs,
}

/// Whether a whole file is excluded by policy. No current rule set excludes
/// any file; the predicate is the policy surface callers must consult.
pub open spec fn spec_excludes_file(lang: LanguagePolicy, path: Seq<char>) -> bool {
    false
}

/// The language-independent keep/drop rule: plain data symbols are dropped,
/// except fields and properties directly under an interface.
pub open spec fn spec_default_keep(kind: SymbolKind, parent_kind: Option<SymbolKind>) -> bool {
    match kind {
        SymbolKind::Constant => false,
        SymbolKind::Variable => false,
        SymbolKind::EnumMember => false,
        SymbolKind::Field => parent_kind == Option::Some(SymbolKind::Interface),
        SymbolKind::Property => parent_kind == Option::Some(SymbolKind::Interface),
        _ => true,
    }
}

/// `s` ends with `suffix`.
pub open spec fn spec_ends_with(s: Seq<char>, suffix: Seq<char>) -> bool {
    s.len() >= suffix.len() && s.skip(s.len() - suffix.len()) == suffix
}

/// The keep/drop rule of each language. Rust drops constants, fields, enum
/// members and `tests` modules; JavaScript/TypeScript drops callback
/// pseudo-functions; everything else falls back to the default rule.
pub open spec fn spec_keep_symbol(
    lang: LanguagePolicy,
    kind: SymbolKind,
    name: Seq<char>,
    parent_kind: Option<SymbolKind>,
) -> bool {
    match lang {
        LanguagePolicy::Rust => match kind {
            SymbolKind::Constant => false,
            SymbolKind::Field => false,
            SymbolKind::EnumMember => false,
            SymbolKind::Module => name != "tests"@ && spec_default_keep(kind, parent_kind),
            _ => spec_default_keep(kind, parent_kind),
        },
        LanguagePolicy::JsTs => match kind {
            SymbolKind::Function => !spec_ends_with(name, " callback"@),
            _ => spec_default_keep(kind, parent_kind),
        },
        _ => spec_default_keep(kind, parent_kind),
    }
}

/// Which rule set a language tag selects.
pub open spec fn spec_language_for(tag: Seq<char>) -> LanguagePolicy {
    if tag == "Go"@ {
        LanguagePolicy::Go
    } else if tag == "Rust"@ {
        LanguagePolicy::Rust
    } else if tag == "JavaScript"@ || tag == "TypeScript"@ || tag == "JavaScript JSX"@ || tag
        == "TypeScript JSX"@ {
        LanguagePolicy::JsTs
    } else {
        LanguagePolicy::Default
    }
}

/// Decides `a@ == b@` by comparing characters.
pub fn str_eq(a: &str, b: &str) -> (r: bool)
    ensures
        r == (a@ == b@),
{
    let an = a.unicode_len();
    let bn = b.unicode_len();
    if an != bn {
        return false;
    }
    for i in 0..an
        invariant
            an == a@.len(),
            an == b@.len(),
            forall|j: int| 0 <= j < i ==> a@[j] == b@[j],
    {
        if a.get_char(i) != b.get_char(i) {
            return false;
        }
    }
    proof {
        assert(a@ =~= b@);
    }
    true
}

/// Decides `spec_ends_with(s@, suffix@)` by comparing characters.
fn str_ends_with(s: &str, suffix: &str) -> (r: bool)
    ensures
        r == spec_ends_with(s@, suffix@),
{
    let n = s.unicode_len();
    let m = suffix.unicode_len();
    if n < m {
        return false;
    }
    for i in 0..m
        invariant
            n == s@.len(),
            m == suffix@.len(),
            m <= n,
            forall|j: int| 0 <= j < i ==> s@[n - m + j] == suffix@[j],
    {
        if s.get_char(n - m + i) != suffix.get_char(i) {
            return false;
        }
    }
    proof {
        assert(s@.skip(n - m) =~= suffix@);
    }
    true
}

impl DefaultLang {
    /// The language-independent rule, as executable code.
    pub fn filter_symbol(kind: SymbolKind, parent_kind: Option<SymbolKind>) -> (r: bool)
        ensures
            r == spec_default_keep(kind, parent_kind),
    {
        match kind {
            SymbolKind::Constant => false,
            SymbolKind::Variable => false,
            SymbolKind::EnumMember => false,
            SymbolKind::Field => parent_kind == Option::Some(SymbolKind::Interface),
            SymbolKind::Property => parent_kind == Option::Some(SymbolKind::Interface),
            _ => true,
        }
    }
}

impl LanguagePolicy {
    /// Whether the policy excludes the whole file at `path`.
    pub fn should_filter_out_file(&self, path: &str) -> (r: bool)
        ensures
            r == spec_excludes_file(*self, path@),
    {
        false
    }

    /// Whether the outline symbol is retained, given its parent's kind.
    pub fn filter_symbol(&self, symbol: &DocumentSymbol, parent_kind: Option<SymbolKind>) -> (r:
        bool)
        ensures
            r == spec_keep_symbol(*self, symbol.kind, symbol.name@, parent_kind),
    {
        match self {
            LanguagePolicy::Rust => match symbol.kind {
                SymbolKind::Constant => false,
                SymbolKind::Field => false,
                SymbolKind::EnumMember => false,
                SymbolKind::Module => !str_eq(symbol.name.as_str(), "tests")
                    && DefaultLang::filter_symbol(symbol.kind, parent_kind),
                _ => DefaultLang::filter_symbol(symbol.kind, parent_kind),
            },
            LanguagePolicy::JsTs => match symbol.kind {
                SymbolKind::Function => !str_ends_with(symbol.name.as_str(), " callback"),
                _ => DefaultLang::filter_symbol(symbol.kind, parent_kind),
            },
            _ => DefaultLang::filter_symbol(symbol.kind, parent_kind),
        }
    }

    /// How a renderer should draw symbols of `kind`.
    pub fn symbol_style(&self, kind: &SymbolKind) -> (r: Style)
        ensures
            r == spec_symbol_style(*kind),
    {
        match kind {
            SymbolKind::Interface => Style { rounded: true, border: Option::Some(0u8), icon: Option::None },
            SymbolKind::Enum => Style { rounded: false, border: Option::None, icon: Option::Some('E') },
            SymbolKind::Struct => Style { rounded: false, border: Option::None, icon: Option::Some('S') },
            SymbolKind::Class => Style { rounded: false, border: Option::None, icon: Option::Some('C') },
            SymbolKind::TypeParameter => Style { rounded: false, border: Option::None, icon: Option::Some('T') },
            SymbolKind::Field => Style { rounded: false, border: Option::None, icon: Option::Some('f') },
            SymbolKind::Property => Style { rounded: false, border: Option::None, icon: Option::Some('p') },
            _ => Style { rounded: true, border: Option::None, icon: Option::None },
        }
    }
}

/// The style table: interfaces are borderless and rounded, type-like kinds
/// carry a letter icon, data members a lowercase one, everything else is a
/// plain rounded box.
pub open spec fn spec_symbol_style(kind: SymbolKind) -> Style {
    match kind {
        SymbolKind::Interface => Style { rounded: true, border: Option::Some(0u8), icon: Option::None },
        SymbolKind::Enum => Style { rounded: false, border: Option::None, icon: Option::Some('E') },
        SymbolKind::Struct => Style { rounded: false, border: Option::None, icon: Option::Some('S') },
        SymbolKind::Class => Style { rounded: false, border: Option::None, icon: Option::Some('C') },
        SymbolKind::TypeParameter => Style { rounded: false, border: Option::None, icon: Option::Some('T') },
        SymbolKind::Field => Style { rounded: false, border: Option::None, icon: Option::Some('f') },
        SymbolKind::Property => Style { rounded: false, border: Option::None, icon: Option::Some('p') },
        _ => Style { rounded: true, border: Option::None, icon: Option::None },
    }
}

/// Selects the rule set for a language tag.
pub fn language_handler(lang: &str) -> (r: LanguagePolicy)
    ensures
        r == spec_language_for(lang@),
{
    if str_eq(lang, "Go") {
        LanguagePolicy::Go
    } else if str_eq(lang, "Rust") {
        LanguagePolicy::Rust
    } else if str_eq(lang, "JavaScript") || str_eq(lang, "TypeScript") || str_eq(
        lang,
        "JavaScript JSX",
    ) || str_eq(lang, "TypeScript JSX") {
        LanguagePolicy::JsTs
    } else {
        LanguagePolicy::Default
    }
}

/// What registration keeps of an outline, under policy `lang` with symbol
/// filtering switched by `filter`: dropped nodes take their subtrees with
/// them, and a kept node's children are filtered against its kind.
pub open spec fn spec_filter_outline(
    l: Seq<SymModel>,
    lang: LanguagePolicy,
    filter: bool,
    parent_kind: Option<SymbolKind>,
) -> Seq<SymModel>
    decreases l,
{
    if l.len() == 0 {
        Seq::empty()
    } else {
        let hd = l[0];
        let tl = spec_filter_outline(l.drop_first(), lang, filter, parent_kind);
        if !filter || spec_keep_symbol(lang, hd.kind, hd.name, parent_kind) {
            seq![
                SymModel {
                    children: spec_filter_outline(
                        hd.children,
                        lang,
                        filter,
                        Option::Some(hd.kind),
                    ),
                    ..hd
                },
            ] + tl
        } else {
            tl
        }
    }
}

/// The model of an outline node handed in by the backend, in the same shape
/// as a retained symbol: selection range as identity, body range beside it.
pub open spec fn doc_model(d: DocumentSymbol) -> SymModel
    decreases d,
{
    SymModel {
        name: d.name@,
        kind: d.kind,
        range: d.selection_range,
        full_range: d.range,
        children: doc_list_model(d.children@),
    }
}

pub open spec fn doc_list_model(l: Seq<DocumentSymbol>) -> Seq<SymModel>
    decreases l,
{
    if l.len() == 0 {
        Seq::empty()
    } else {
        doc_list_model(l.drop_last()).push(doc_model(l.last()))
    }
}

pub broadcast proof fn lemma_doc_list_model_len(l: Seq<DocumentSymbol>)
    ensures
        (#[trigger] doc_list_model(l)).len() == l.len(),
    decreases l,
{
    if l.len() > 0 {
        lemma_doc_list_model_len(l.drop_last());
    }
}

pub broadcast proof fn lemma_doc_list_model_index(l: Seq<DocumentSymbol>, i: int)
    requires
        0 <= i < l.len(),
    ensures
        #[trigger] doc_list_model(l)[i] == doc_model(l[i]),
    decreases l,
{
    lemma_doc_list_model_len(l);
    if l.len() > 0 && i < l.len() - 1 {
        lemma_doc_list_model_index(l.drop_last(), i);
    }
}

pub broadcast group group_doc_list_model {
    lemma_doc_list_model_len,
    lemma_doc_list_model_index,
}

/// Filters and converts a raw outline level into retained symbols, exactly
/// as `spec_filter_outline` states.
pub fn convert_symbols(
    list: &Vec<DocumentSymbol>,
    lang: &LanguagePolicy,
    filter: bool,
    parent_kind: Option<SymbolKind>,
) -> (out: Vec<Symbol>)
    ensures
        list_model(out@) == spec_filter_outline(doc_list_model(list@), *lang, filter, parent_kind),
    decreases list@,
{
    broadcast use group_doc_list_model;
    broadcast use crate::graph::group_list_model;

    let mut out: Vec<Symbol> = Vec::new();
    let n = list.len();
    for i in 0..n
        invariant
            n == list@.len(),
            list_model(out@) =~= spec_filter_outline(
                doc_list_model(list@.take(i as int)),
                *lang,
                filter,
                parent_kind,
            ),
    {
        broadcast use group_doc_list_model;
        broadcast use crate::graph::group_list_model;

        let d = &list[i];
        let keep = !filter || lang.filter_symbol(d, parent_kind);
        if keep {
            proof {
                broadcast use vstd::seq::axiom_seq_index_decreases;
            }
            let children = convert_symbols(&d.children, lang, filter, Option::Some(d.kind));
            let s = Symbol {
                name: d.name.clone(),
                kind: d.kind,
                range: d.selection_range,
                full_range: d.range,
                children,
            };
            out.push(s);
        }
        proof {
            lemma_filter_outline_take_step(doc_list_model(list@), *lang, filter, parent_kind, i as int);
            assert(doc_list_model(list@.take(i as int)) =~= doc_list_model(list@).take(i as int));
            assert(doc_list_model(list@.take(i + 1)) =~= doc_list_model(list@).take(i + 1));
            assert(list_model(out@) =~= spec_filter_outline(
                doc_list_model(list@.take(i + 1)),
                *lang,
                filter,
                parent_kind,
            ));
        }
    }
    proof {
        assert(list@.take(n as int) =~= list@);
    }
    out
}

/// Filtering one more element at the end of a level appends either the
/// filtered element or nothing.
proof fn lemma_filter_outline_take_step(
    l: Seq<SymModel>,
    lang: LanguagePolicy,
    filter: bool,
    parent_kind: Option<SymbolKind>,
    i: int,
)
    requires
        0 <= i < l.len(),
    ensures
        spec_filter_outline(l.take(i + 1), lang, filter, parent_kind) == if !filter
            || spec_keep_symbol(lang, l[i].kind, l[i].name, parent_kind) {
            spec_filter_outline(l.take(i), lang, filter, parent_kind).push(
                SymModel {
                    children: spec_filter_outline(l[i].children, lang, filter, Option::Some(l[i].kind)),
                    ..l[i]
                },
            )
        } else {
            spec_filter_outline(l.take(i), lang, filter, parent_kind)
        },
    decreases i,
{
    if i == 0 {
        assert(l.take(1) =~= seq![l[0]]);
        assert(l.take(1).drop_first() =~= Seq::<SymModel>::empty());
        assert(l.take(0) =~= Seq::<SymModel>::empty());
        assert(spec_filter_outline(l.take(1), lang, filter, parent_kind) =~= if !filter
            || spec_keep_symbol(lang, l[0].kind, l[0].name, parent_kind) {
            spec_filter_outline(l.take(0), lang, filter, parent_kind).push(
                SymModel {
                    children: spec_filter_outline(l[0].children, lang, filter, Option::Some(l[0].kind)),
                    ..l[0]
                },
            )
        } else {
            spec_filter_outline(l.take(0), lang, filter, parent_kind)
        });
    } else {
        lemma_filter_outline_take_step(l.drop_first(), lang, filter, parent_kind, i - 1);
        assert(l.take(i + 1).drop_first() =~= l.drop_first().take(i));
        assert(l.take(i).drop_first() =~= l.drop_first().take(i - 1));
        assert(l.drop_first()[i - 1] == l[i]);
        assert(l.take(i + 1)[0] == l[0]);
        assert(l.take(i)[0] == l[0]);
    }
}

} // verus!
