//! The generator: owns the registered files with their retained symbol
//! trees, assigns file ids, buffers raw call-hierarchy and implementation
//! queries, and resolves everything into one deduplicated graph.

use vstd::prelude::*;

use crate::graph::{
    file_model, files_have_addr, files_model, group_list_model, list_has_start, list_model,
    list_wf, sym_model, File, FileModel, Graph, Relation, RelationKind, SymModel, Symbol,
};
use crate::lang::{
    convert_symbols, doc_list_model, language_handler, spec_excludes_file, spec_filter_outline,
    spec_language_for, LanguagePolicy,
};
use crate::types::{
    pos_lt, CallHierarchyIncomingCall, CallHierarchyItem, CallHierarchyOutgoingCall,
    DocumentSymbol, GlobalPosition, Location, Position,
};

verus! {

/// The first index in `paths` whose view is `p`; the length if none is.
pub open spec fn path_index_of(paths: Seq<String>, p: Seq<char>) -> int
    decreases paths,
{
    if paths.len() == 0 {
        0
    } else if paths[0]@ == p {
        0
    } else {
        1 + path_index_of(paths.drop_first(), p)
    }
}

pub open spec fn has_path(paths: Seq<String>, p: Seq<char>) -> bool {
    path_index_of(paths, p) < paths.len()
}

pub proof fn lemma_path_index_of(paths: Seq<String>, p: Seq<char>)
    ensures
        0 <= path_index_of(paths, p) <= paths.len(),
        forall|j: int| 0 <= j < path_index_of(paths, p) ==> (#[trigger] paths[j])@ != p,
        path_index_of(paths, p) < paths.len() ==> paths[path_index_of(paths, p)]@ == p,
    decreases paths,
{
    if paths.len() > 0 && paths[0]@ != p {
        let df = paths.drop_first();
        lemma_path_index_of(df, p);
        assert forall|j: int| 0 <= j < path_index_of(paths, p) implies (#[trigger] paths[j])@
            != p by {
            if j > 0 {
                assert(paths[j] == df[j - 1]);
            }
        }
        if path_index_of(paths, p) < paths.len() {
            assert(paths[path_index_of(paths, p)] == df[path_index_of(df, p)]);
        }
    }
}

/// The id a path gets, or already has: its index plus one. `None` only when
/// the path is new and the id space is exhausted.
pub open spec fn spec_alloc_id(paths: Seq<String>, p: Seq<char>) -> Option<u32> {
    if has_path(paths, p) {
        Option::Some((path_index_of(paths, p) + 1) as u32)
    } else if paths.len() < u32::MAX as int {
        Option::Some((paths.len() + 1) as u32)
    } else {
        Option::None
    }
}

/// The id a path already has, if any.
pub open spec fn spec_lookup_id(paths: Seq<String>, p: Seq<char>) -> Option<u32> {
    if has_path(paths, p) {
        Option::Some((path_index_of(paths, p) + 1) as u32)
    } else {
        Option::None
    }
}

/// The path table after an allocation attempt for `path`.
pub open spec fn spec_alloc_path(paths: Seq<String>, path: String) -> Seq<String> {
    if has_path(paths, path@) || paths.len() >= u32::MAX as int {
        paths
    } else {
        paths.push(path)
    }
}

/// The first index in an association list holding key `k`; the length if none.
pub open spec fn key_index<V>(entries: Seq<(GlobalPosition, V)>, k: GlobalPosition) -> int
    decreases entries,
{
    if entries.len() == 0 {
        0
    } else if entries[0].0 == k {
        0
    } else {
        1 + key_index(entries.drop_first(), k)
    }
}

pub open spec fn has_key<V>(entries: Seq<(GlobalPosition, V)>, k: GlobalPosition) -> bool {
    key_index(entries, k) < entries.len()
}

pub proof fn lemma_key_index<V>(entries: Seq<(GlobalPosition, V)>, k: GlobalPosition)
    ensures
        0 <= key_index(entries, k) <= entries.len(),
        forall|j: int| 0 <= j < key_index(entries, k) ==> (#[trigger] entries[j]).0 != k,
        key_index(entries, k) < entries.len() ==> entries[key_index(entries, k)].0 == k,
    decreases entries,
{
    if entries.len() > 0 && entries[0].0 != k {
        let df = entries.drop_first();
        lemma_key_index(df, k);
        assert forall|j: int| 0 <= j < key_index(entries, k) implies (#[trigger] entries[j]).0
            != k by {
            if j > 0 {
                assert(entries[j] == df[j - 1]);
            }
        }
        if key_index(entries, k) < entries.len() {
            assert(entries[key_index(entries, k)] == df[key_index(df, k)]);
        }
    }
}

/// Replaces the entry keyed `k`, or appends one: the map-like update the
/// query buffers use.
pub open spec fn spec_upsert<V>(
    entries: Seq<(GlobalPosition, V)>,
    k: GlobalPosition,
    v: V,
) -> Seq<(GlobalPosition, V)> {
    if has_key(entries, k) {
        entries.update(key_index(entries, k), (k, v))
    } else {
        entries.push((k, v))
    }
}

pub open spec fn paths_distinct(paths: Seq<String>) -> bool {
    forall|i: int, j: int|
        0 <= i < j < paths.len() ==> (#[trigger] paths[i])@ != (#[trigger] paths[j])@
}

pub open spec fn keys_distinct<V>(entries: Seq<(GlobalPosition, V)>) -> bool {
    forall|i: int, j: int|
        0 <= i < j < entries.len() ==> (#[trigger] entries[i]).0 != (#[trigger] entries[j]).0
}

/// Whether some registered file has this path.
pub open spec fn registered(files: Seq<File>, p: Seq<char>) -> bool {
    exists|k: int| 0 <= k < files.len() && (#[trigger] files[k]).path@ == p
}

/// One generator instance: one snapshot's registry and query buffers.
pub struct GraphGenerator {
    /// The workspace root that directory grouping strips.
    pub root: String,
    /// The rule set resolved from the language tag at construction.
    pub lang: LanguagePolicy,
    /// Whether outline symbols are filtered at registration.
    pub filter: bool,
    /// Every path ever seen; the path at index `i` has file id `i + 1`.
    pub paths: Vec<String>,
    /// The registered files, in registration order.
    pub files: Vec<File>,
    /// Buffered incoming-call queries, keyed by the callee's address.
    pub incoming_calls: Vec<(GlobalPosition, Vec<CallHierarchyIncomingCall>)>,
    /// Buffered outgoing-call queries, keyed by the caller's address.
    pub outgoing_calls: Vec<(GlobalPosition, Vec<CallHierarchyOutgoingCall>)>,
    /// Buffered implementation queries, keyed by the interface's address.
    pub interfaces: Vec<(GlobalPosition, Vec<GlobalPosition>)>,
    /// Positions to highlight, per file id.
    pub highlights: Vec<(u32, Vec<Position>)>,
}

impl GraphGenerator {
    /// The registry invariant: distinct paths, every file tied to its path's
    /// id, distinct files, sorted trees, and map-like query buffers.
    pub open spec fn wf(&self) -> bool {
        &&& paths_distinct(self.paths@)
        &&& self.paths@.len() <= u32::MAX as int
        &&& forall|k: int|
            0 <= k < self.files@.len() ==> {
                let f = (#[trigger] self.files@[k]);
                &&& 1 <= f.id <= self.paths@.len()
                &&& self.paths@[f.id - 1]@ == f.path@
                &&& list_wf(list_model(f.symbols@))
            }
        &&& forall|k1: int, k2: int|
            0 <= k1 < k2 < self.files@.len() ==> (#[trigger] self.files@[k1]).id != (
            #[trigger] self.files@[k2]).id
        &&& keys_distinct(self.incoming_calls@)
        &&& keys_distinct(self.outgoing_calls@)
        &&& keys_distinct(self.interfaces@)
    }

    /// A fresh generator for one snapshot: root and language fixed, nothing
    /// registered, nothing buffered.
    pub fn new(root: String, lang: &str, filter: bool) -> (r: GraphGenerator)
        ensures
            r.wf(),
            r.root == root,
            r.lang == spec_language_for(lang@),
            r.filter == filter,
            r.paths@.len() == 0,
            r.files@.len() == 0,
            r.incoming_calls@.len() == 0,
            r.outgoing_calls@.len() == 0,
            r.interfaces@.len() == 0,
            r.highlights@.len() == 0,
    {
        GraphGenerator {
            root,
            lang: language_handler(lang),
            filter,
            paths: Vec::new(),
            files: Vec::new(),
            incoming_calls: Vec::new(),
            outgoing_calls: Vec::new(),
            interfaces: Vec::new(),
            highlights: Vec::new(),
        }
    }

    /// Looks the path up in the table; `None` if it was never seen.
    fn lookup_path_id(&self, path: &String) -> (r: Option<u32>)
        requires
            self.wf(),
        ensures
            r == spec_lookup_id(self.paths@, path@),
    {
        proof {
            lemma_path_index_of(self.paths@, path@);
        }
        let n = self.paths.len();
        for i in 0..n
            invariant
                n == self.paths@.len(),
                n <= u32::MAX as int,
                forall|j: int| 0 <= j < i ==> (#[trigger] self.paths@[j])@ != path@,
        {
            if self.paths[i] == *path {
                proof {
                    lemma_path_index_of(self.paths@, path@);
                    let idx = path_index_of(self.paths@, path@);
                    if idx < i {
                        assert(self.paths@[idx]@ != path@);
                    }
                    if idx > i as int {
                        assert(self.paths@[i as int]@ != path@);
                    }
                }
                return Option::Some((i as u32) + 1);
            }
        }
        proof {
            lemma_path_index_of(self.paths@, path@);
            if has_path(self.paths@, path@) {
                assert(self.paths@[path_index_of(self.paths@, path@)]@ != path@);
            }
        }
        Option::None
    }

    /// Gives the path its id, assigning the next one on first sight. `None`
    /// only when the path is new and every id is taken.
    fn alloc_file_id(&mut self, path: &String) -> (r: Option<u32>)
        requires
            old(self).wf(),
        ensures
            final(self).wf(),
            r == spec_alloc_id(old(self).paths@, path@),
            final(self).paths@ == spec_alloc_path(old(self).paths@, *path),
            (has_path(old(self).paths@, path@) || r is None) ==> final(self).paths == old(
                self,
            ).paths,
            final(self).files == old(self).files,
            final(self).incoming_calls == old(self).incoming_calls,
            final(self).outgoing_calls == old(self).outgoing_calls,
            final(self).interfaces == old(self).interfaces,
            final(self).highlights == old(self).highlights,
            final(self).root == old(self).root,
            final(self).lang == old(self).lang,
            final(self).filter == old(self).filter,
    {
        let existing = self.lookup_path_id(path);
        match existing {
            Option::Some(id) => Option::Some(id),
            Option::None => {
                proof {
                    lemma_path_index_of(self.paths@, path@);
                }
                if self.paths.len() < (u32::MAX - 1) as usize + 1 {
                    let id = (self.paths.len() as u32) + 1;
                    self.paths.push(path.clone());
                    proof {
                        let new_paths = self.paths@;
                        let old_paths = old(self).paths@;
                        assert forall|i: int, j: int| 0 <= i < j < new_paths.len() implies (
                        #[trigger] new_paths[i])@ != (#[trigger] new_paths[j])@ by {
                            if j < old_paths.len() {
                                assert(old_paths[i]@ != old_paths[j]@);
                            } else {
                                assert(new_paths[j]@ == path@);
                                assert(!has_path(old_paths, path@));
                                if old_paths[i]@ == path@ {
                                    lemma_path_index_of(old_paths, path@);
                                    let idx = path_index_of(old_paths, path@);
                                    assert(idx < old_paths.len() ==> old_paths[idx]@ == path@);
                                    assert(forall|m: int|
                                        0 <= m < idx ==> (#[trigger] old_paths[m])@ != path@);
                                    assert(idx > i ==> old_paths[i]@ != path@);
                                    assert(false);
                                }
                            }
                        }
                    }
                    Option::Some(id)
                } else {
                    Option::None
                }
            },
        }
    }

    /// Whether the policy would exclude the file; meant to be consulted
    /// before an outline is even fetched.
    pub fn should_filter_out_file(&self, path: &str) -> (r: bool)
        ensures
            r == spec_excludes_file(self.lang, path@),
    {
        self.lang.should_filter_out_file(path)
    }

    /// The id the path was assigned, if it was ever seen.
    pub fn lookup(&self, path: &String) -> (r: Option<u32>)
        requires
            self.wf(),
        ensures
            r == spec_lookup_id(self.paths@, path@),
    {
        self.lookup_path_id(path)
    }

    /// The global address of a position inside the file at `path`; `None`
    /// when the path was never seen.
    pub fn lookup_address(&self, path: &String, position: Position) -> (r: Option<GlobalPosition>)
        requires
            self.wf(),
        ensures
            match spec_lookup_id(self.paths@, path@) {
                Option::None => r is None,
                Option::Some(id) => r == Option::Some(
                    GlobalPosition {
                        file_id: id,
                        line: position.line,
                        character: position.character,
                    },
                ),
            },
    {
        match self.lookup_path_id(path) {
            Option::None => Option::None,
            Option::Some(id) => Option::Some(GlobalPosition::new(id, position)),
        }
    }

    /// The flattened set of every retained symbol's address, across all
    /// registered files: the membership oracle of resolution.
    pub fn all_addresses(&self) -> (out: Vec<GlobalPosition>)
        ensures
            forall|gp: GlobalPosition|
                out@.contains(gp) <==> files_have_addr(files_model(self.files@), gp),
    {
        collect_addresses(&self.files)
    }

    /// Runs nested-symbol recovery for `item` against the file registered at
    /// `path`, mutating its tree in place exactly as `spec_insert` states;
    /// an unknown path changes nothing and fails.
    pub fn insert_recovered(&mut self, path: &String, item: &CallHierarchyItem) -> (r: bool)
        requires
            old(self).wf(),
        ensures
            final(self).wf(),
            final(self).paths == old(self).paths,
            final(self).incoming_calls == old(self).incoming_calls,
            final(self).outgoing_calls == old(self).outgoing_calls,
            final(self).interfaces == old(self).interfaces,
            final(self).highlights == old(self).highlights,
            final(self).root == old(self).root,
            final(self).lang == old(self).lang,
            final(self).filter == old(self).filter,
            !registered(old(self).files@, path@) ==> !r && *final(self) == *old(self),
            registered(old(self).files@, path@) ==> exists|k: int|
                {
                    let ins = crate::recovery::spec_insert(
                        list_model(old(self).files@[k].symbols@),
                        crate::recovery::item_model(*item),
                        false,
                    );
                    &&& 0 <= k < old(self).files@.len()
                    &&& (#[trigger] old(self).files@[k]).path@ == path@
                    &&& r == (ins is Some)
                    &&& final(self).files@.len() == old(self).files@.len()
                    &&& forall|j: int|
                        0 <= j < old(self).files@.len() && j != k ==> final(self).files@[j]
                            == old(self).files@[j]
                    &&& final(self).files@[k].id == old(self).files@[k].id
                    &&& final(self).files@[k].path@ == old(self).files@[k].path@
                    &&& list_model(final(self).files@[k].symbols@) == (match ins {
                        Option::Some(m) => m,
                        Option::None => list_model(old(self).files@[k].symbols@),
                    })
                },
    {
        let fk_opt = self.find_file_by_path(path);
        match fk_opt {
            Option::None => false,
            Option::Some(fk) => {
                let fileref = &mut self.files[fk];
                let rr = crate::recovery::try_insert_symbol(&mut fileref.symbols, item);
                proof {
                    assert forall|k1: int, k2: int|
                        0 <= k1 < k2 < self.files@.len() implies (#[trigger] self.files@[k1]).id
                        != (#[trigger] self.files@[k2]).id by {
                        assert(old(self).files@[k1].id != old(self).files@[k2].id);
                    }
                }
                rr
            },
        }
    }

    /// Registers a file's outline. Fails without any change when the policy
    /// excludes the path, when the path is already registered, when the
    /// filtered outline is not strictly sorted at some level, or when the id
    /// space is exhausted; otherwise stores the filtered tree under the
    /// path's id and succeeds.
    pub fn add_file(&mut self, path: String, symbols: Vec<DocumentSymbol>) -> (r: bool)
        requires
            old(self).wf(),
        ensures
            final(self).wf(),
            ({
                let filtered = spec_filter_outline(
                    doc_list_model(symbols@),
                    old(self).lang,
                    old(self).filter,
                    Option::None,
                );
                if spec_excludes_file(old(self).lang, path@) || registered(old(self).files@, path@)
                    || !list_wf(filtered) || spec_alloc_id(old(self).paths@, path@) is None {
                    !r && *final(self) == *old(self)
                } else {
                    &&& r
                    &&& final(self).paths@ == spec_alloc_path(old(self).paths@, path)
                    &&& final(self).files@.len() == old(self).files@.len() + 1
                    &&& forall|k: int|
                        0 <= k < old(self).files@.len() ==> final(self).files@[k] == old(self).files@[k]
                    &&& file_model(final(self).files@.last()) == (FileModel {
                        id: spec_alloc_id(old(self).paths@, path@)->Some_0,
                        path: path@,
                        symbols: filtered,
                    })
                    &&& final(self).incoming_calls == old(self).incoming_calls
                    &&& final(self).outgoing_calls == old(self).outgoing_calls
                    &&& final(self).interfaces == old(self).interfaces
                    &&& final(self).highlights == old(self).highlights
                    &&& final(self).root == old(self).root
                    &&& final(self).lang == old(self).lang
                    &&& final(self).filter == old(self).filter
                }
            }),
    {
        if self.lang.should_filter_out_file(path.as_str()) {
            return false;
        }
        if self.find_file_by_path(&path).is_some() {
            return false;
        }
        let cells = convert_symbols(&symbols, &self.lang, self.filter, Option::None);
        if !check_list_wf(&cells) {
            return false;
        }
        let id_opt = self.alloc_file_id(&path);
        match id_opt {
            Option::None => false,
            Option::Some(id) => {
                let f = File { id, path, symbols: cells };
                self.files.push(f);
                proof {
                    lemma_path_index_of(old(self).paths@, self.files@.last().path@);
                    let fs = self.files@;
                    assert forall|k1: int, k2: int| 0 <= k1 < k2 < fs.len() implies (
                    #[trigger] fs[k1]).id != (#[trigger] fs[k2]).id by {
                        if k2 == fs.len() - 1 {
                            assert(self.paths@[fs[k1].id - 1]@ == fs[k1].path@);
                            assert(self.paths@[fs[k2].id - 1]@ == fs[k2].path@);
                            if fs[k1].id == fs[k2].id {
                                assert(fs[k1].path@ == fs[k2].path@);
                                assert(registered(old(self).files@, fs[k1].path@));
                            }
                        }
                    }
                }
                true
            },
        }
    }

    /// The registered file holding `path`, by index.
    fn find_file_by_path(&self, path: &String) -> (r: Option<usize>)
        ensures
            match r {
                Option::Some(k) => 0 <= k < self.files@.len() && self.files@[k as int].path@
                    == path@,
                Option::None => !registered(self.files@, path@),
            },
    {
        let n = self.files.len();
        for k in 0..n
            invariant
                n == self.files@.len(),
                forall|j: int| 0 <= j < k ==> (#[trigger] self.files@[j]).path@ != path@,
        {
            if self.files[k].path == *path {
                return Option::Some(k);
            }
        }
        Option::None
    }

    /// Buffers an incoming-call query for the symbol at `path:position`,
    /// replacing any earlier buffer for the same address. A path that cannot
    /// be allocated an id leaves the generator unchanged.
    pub fn add_incoming_calls(
        &mut self,
        path: String,
        position: Position,
        calls: Vec<CallHierarchyIncomingCall>,
    )
        requires
            old(self).wf(),
        ensures
            final(self).wf(),
            match spec_alloc_id(old(self).paths@, path@) {
                Option::None => *final(self) == *old(self),
                Option::Some(id) => {
                    &&& final(self).paths@ == spec_alloc_path(old(self).paths@, path)
                    &&& final(self).incoming_calls@ == spec_upsert(
                        old(self).incoming_calls@,
                        GlobalPosition { file_id: id, line: position.line, character: position.character },
                        calls,
                    )
                    &&& final(self).files == old(self).files
                    &&& final(self).outgoing_calls == old(self).outgoing_calls
                    &&& final(self).interfaces == old(self).interfaces
                    &&& final(self).highlights == old(self).highlights
                    &&& final(self).root == old(self).root
                    &&& final(self).lang == old(self).lang
                    &&& final(self).filter == old(self).filter
                },
            },
    {
        let id_opt = self.alloc_file_id(&path);
        match id_opt {
            Option::None => {},
            Option::Some(id) => {
                let key = GlobalPosition::new(id, position);
                upsert_incoming(&mut self.incoming_calls, key, calls);
            },
        }
    }

    /// Buffers an outgoing-call query for the symbol at `path:position`,
    /// replacing any earlier buffer for the same address.
    pub fn add_outgoing_calls(
        &mut self,
        path: String,
        position: Position,
        calls: Vec<CallHierarchyOutgoingCall>,
    )
        requires
            old(self).wf(),
        ensures
            final(self).wf(),
            match spec_alloc_id(old(self).paths@, path@) {
                Option::None => *final(self) == *old(self),
                Option::Some(id) => {
                    &&& final(self).paths@ == spec_alloc_path(old(self).paths@, path)
                    &&& final(self).outgoing_calls@ == spec_upsert(
                        old(self).outgoing_calls@,
                        GlobalPosition { file_id: id, line: position.line, character: position.character },
                        calls,
                    )
                    &&& final(self).files == old(self).files
                    &&& final(self).incoming_calls == old(self).incoming_calls
                    &&& final(self).interfaces == old(self).interfaces
                    &&& final(self).highlights == old(self).highlights
                    &&& final(self).root == old(self).root
                    &&& final(self).lang == old(self).lang
                    &&& final(self).filter == old(self).filter
                },
            },
    {
        let id_opt = self.alloc_file_id(&path);
        match id_opt {
            Option::None => {},
            Option::Some(id) => {
                let key = GlobalPosition::new(id, position);
                upsert_outgoing(&mut self.outgoing_calls, key, calls);
            },
        }
    }

    /// Resolves every buffered query against the registered symbols into a
    /// deduplicated edge set, exactly as `spec_generate` states: the
    /// incoming pass may permanently recover nested symbols into the
    /// registered trees, the outgoing and implementation passes only read.
    /// Every edge's target was retained before the pass began, every
    /// edge's source is retained once the pass is over, and no two edges
    /// share their endpoint pair; where differently-kinded edges collide on
    /// the same pair, the first buffered one survives.
    #[verifier::loop_isolation(false)]
    #[verifier::rlimit(60)]
    pub fn gen_graph(&mut self) -> (g: Graph)
        requires
            old(self).wf(),
        ensures
            final(self).wf(),
            final(self).paths == old(self).paths,
            final(self).incoming_calls == old(self).incoming_calls,
            final(self).outgoing_calls == old(self).outgoing_calls,
            final(self).interfaces == old(self).interfaces,
            final(self).highlights == old(self).highlights,
            final(self).root == old(self).root,
            final(self).lang == old(self).lang,
            final(self).filter == old(self).filter,
            final(self).files@.len() == old(self).files@.len(),
            forall|k: int|
                0 <= k < old(self).files@.len() ==> (#[trigger] final(self).files@[k]).id == old(
                    self,
                ).files@[k].id && final(self).files@[k].path@ == old(self).files@[k].path@,
            ({
                let res = spec_generate(
                    files_model(old(self).files@),
                    old(self).paths@,
                    old(self).incoming_calls@,
                    old(self).outgoing_calls@,
                    old(self).interfaces@,
                );
                &&& files_model(final(self).files@) == res.0
                &&& files_model(g.files@) == res.0
                &&& g.relations@ == res.1
                &&& nodup_pairs(g.relations@)
                &&& forall|e: int|
                    0 <= e < g.relations@.len() ==> files_have_addr(
                        files_model(old(self).files@),
                        (#[trigger] g.relations@[e]).to,
                    )
                &&& forall|e: int|
                    0 <= e < g.relations@.len() ==> files_have_addr(
                        res.0,
                        (#[trigger] g.relations@[e]).from,
                    )
            }),
    {
        let ghost files0 = files_model(old(self).files@);
        let ghost paths0 = old(self).paths@;
        let addrs = collect_addresses(&self.files);
        let mut edges: Vec<Relation> = Vec::new();
        let mut recovered: Vec<GlobalPosition> = Vec::new();
        let ghost st0 = (files0, Seq::<GlobalPosition>::empty(), Seq::<Relation>::empty());
        let ghost total_in = fold_incoming(files0, paths0, old(self).incoming_calls@, st0);

        proof {
            assert(old(self).incoming_calls@.skip(0) =~= old(self).incoming_calls@);
        }
        let nq = self.incoming_calls.len();
        for qi in 0..nq
            invariant
                self.wf(),
                nq == self.incoming_calls@.len(),
                self.paths == old(self).paths,
                self.incoming_calls == old(self).incoming_calls,
                self.outgoing_calls == old(self).outgoing_calls,
                self.interfaces == old(self).interfaces,
                self.highlights == old(self).highlights,
                self.root == old(self).root,
                self.lang == old(self).lang,
                self.filter == old(self).filter,
                self.files@.len() == old(self).files@.len(),
                forall|k: int|
                    0 <= k < old(self).files@.len() ==> (#[trigger] self.files@[k]).id == old(
                        self,
                    ).files@[k].id && self.files@[k].path@ == old(self).files@[k].path@,
                fold_incoming(
                    files0,
                    paths0,
                    old(self).incoming_calls@.skip(qi as int),
                    (files_model(self.files@), recovered@, edges@),
                ) == total_in,
                nodup_pairs(edges@),
                forall|e: int|
                    0 <= e < edges@.len() ==> files_have_addr(
                        files0,
                        (#[trigger] edges@[e]).to,
                    ),
                forall|gp: GlobalPosition|
                    files_have_addr(files0, gp) ==> files_have_addr(
                        files_model(self.files@),
                        gp,
                    ),
                forall|a: int|
                    0 <= a < recovered@.len() ==> files_have_addr(
                        files_model(self.files@),
                        #[trigger] recovered@[a],
                    ),
                forall|e: int|
                    0 <= e < edges@.len() ==> (files_have_addr(
                        files0,
                        (#[trigger] edges@[e]).from,
                    ) || recovered@.contains(edges@[e].from)),
        {
            let ghost rem = old(self).incoming_calls@.skip(qi as int);
            proof {
                assert(rem[0] == old(self).incoming_calls@[qi as int]);
                assert(rem.drop_first() =~= old(self).incoming_calls@.skip(qi as int + 1));
            }
            let to = self.incoming_calls[qi].0;
            let to_known = contains_gp(&addrs, &to);
            if to_known {
                let ghost st_q = (files_model(self.files@), recovered@, edges@);
                let ghost calls_seq = old(self).incoming_calls@[qi as int].1@;
                let ghost total_q = fold_incoming_calls(files0, paths0, to, calls_seq, st_q);
                proof {
                    assert(calls_seq.skip(0) =~= calls_seq);
                }
                let nc = self.incoming_calls[qi].1.len();
                for ci in 0..nc
                    invariant
                        self.wf(),
                        qi < self.incoming_calls@.len(),
                        nc == calls_seq.len(),
                        self.paths == old(self).paths,
                        self.incoming_calls == old(self).incoming_calls,
                        self.outgoing_calls == old(self).outgoing_calls,
                        self.interfaces == old(self).interfaces,
                        self.highlights == old(self).highlights,
                        self.root == old(self).root,
                        self.lang == old(self).lang,
                        self.filter == old(self).filter,
                        self.files@.len() == old(self).files@.len(),
                        forall|k: int|
                            0 <= k < old(self).files@.len() ==> (#[trigger] self.files@[k]).id
                                == old(self).files@[k].id && self.files@[k].path@ == old(
                                self,
                            ).files@[k].path@,
                        fold_incoming_calls(
                            files0,
                            paths0,
                            to,
                            calls_seq.skip(ci as int),
                            (files_model(self.files@), recovered@, edges@),
                        ) == total_q,
                        nodup_pairs(edges@),
                        forall|e: int|
                            0 <= e < edges@.len() ==> files_have_addr(
                                files0,
                                (#[trigger] edges@[e]).to,
                            ),
                        forall|gp: GlobalPosition|
                            files_have_addr(files0, gp) ==> files_have_addr(
                                files_model(self.files@),
                                gp,
                            ),
                        forall|a: int|
                            0 <= a < recovered@.len() ==> files_have_addr(
                                files_model(self.files@),
                                #[trigger] recovered@[a],
                            ),
                        forall|e: int|
                            0 <= e < edges@.len() ==> (files_have_addr(
                                files0,
                                (#[trigger] edges@[e]).from,
                            ) || recovered@.contains(edges@[e].from)),
                {
                    let ghost crem = calls_seq.skip(ci as int);
                    let ghost st_c = (files_model(self.files@), recovered@, edges@);
                    proof {
                        assert(crem[0] == calls_seq[ci as int]);
                        assert(crem.drop_first() =~= calls_seq.skip(ci as int + 1));
                    }
                    let call = &self.incoming_calls[qi].1[ci];
                    let from_id_opt = lookup_id_in(&self.paths, &call.from.uri.path);
                    match from_id_opt {
                        Option::None => {
                            proof {
                                assert(step_incoming_call(files0, paths0, to, crem[0], st_c)
                                    == st_c);
                            }
                        },
                        Option::Some(id) => {
                            let from = GlobalPosition::new(id, call.from.selection_range.start);
                            let known = contains_gp(&addrs, &from) || contains_gp(
                                &recovered,
                                &from,
                            );
                            if known {
                                push_dedup(
                                    &mut edges,
                                    Relation { from, to, kind: RelationKind::Call },
                                );
                                proof {
                                    assert(step_incoming_call(files0, paths0, to, crem[0], st_c)
                                        == (st_c.0, st_c.1, edges@));
                                    assert forall|e: int| 0 <= e < edges@.len() implies (
                                    files_have_addr(files0, (#[trigger] edges@[e]).from)
                                        || recovered@.contains(edges@[e].from)) by {
                                        if e < st_c.2.len() {
                                            assert(edges@[e] == st_c.2[e]);
                                        } else {
                                            assert(edges@[e].from == from);
                                        }
                                    }
                                }
                            } else {
                                let k_opt = find_file_index_by_id(&self.files, id);
                                match k_opt {
                                    Option::None => {
                                        proof {
                                            assert(step_incoming_call(
                                                files0,
                                                paths0,
                                                to,
                                                crem[0],
                                                st_c,
                                            ) == st_c);
                                        }
                                    },
                                    Option::Some(k) => {
                                        proof {
                                            assert(st_c.0[k as int] == file_model(
                                                self.files@[k as int],
                                            ));
                                        }
                                        let fileref = &mut self.files[k];
                                        let ok = crate::recovery::try_insert_symbol(
                                            &mut fileref.symbols,
                                            &call.from,
                                        );
                                        proof {
                                            let ins = crate::recovery::spec_insert(
                                                st_c.0[k as int].symbols,
                                                crate::recovery::item_model(call.from),
                                                false,
                                            );
                                            if ins is Some {
                                                assert(files_model(self.files@) =~= st_c.0.update(
                                                    k as int,
                                                    FileModel {
                                                        symbols: ins->Some_0,
                                                        ..st_c.0[k as int]
                                                    },
                                                ));
                                            } else {
                                                assert(files_model(self.files@) =~= st_c.0);
                                            }
                                        }
                                        proof {
                                            let ins = crate::recovery::spec_insert(
                                                st_c.0[k as int].symbols,
                                                crate::recovery::item_model(call.from),
                                                false,
                                            );
                                            if ins is Some {
                                                crate::recovery::lemma_spec_insert_addrs(
                                                    st_c.0[k as int].symbols,
                                                    crate::recovery::item_model(call.from),
                                                    false,
                                                );
                                                let cur = files_model(self.files@);
                                                assert forall|gp: GlobalPosition|
                                                    files_have_addr(st_c.0, gp) implies
                                                    files_have_addr(cur, gp) by {
                                                    let k2 = choose|k2: int|
                                                        0 <= k2 < st_c.0.len() && (
                                                        #[trigger] st_c.0[k2]).id == gp.file_id
                                                            && list_has_start(
                                                            st_c.0[k2].symbols,
                                                            gp.spec_position(),
                                                        );
                                                    assert(cur[k2].id == gp.file_id);
                                                    assert(list_has_start(
                                                        cur[k2].symbols,
                                                        gp.spec_position(),
                                                    ));
                                                }
                                                lemma_file_index_by_id(st_c.0, from.file_id);
                                                assert(st_c.0[k as int].id == from.file_id);
                                                assert(from.spec_position()
                                                    == crate::recovery::item_model(
                                                    call.from,
                                                ).range.start);
                                                assert(cur[k as int].id == from.file_id);
                                                assert(list_has_start(
                                                    cur[k as int].symbols,
                                                    from.spec_position(),
                                                ));
                                                assert(files_have_addr(cur, from));
                                            }
                                        }
                                        if ok {
                                            recovered.push(from);
                                            push_dedup(
                                                &mut edges,
                                                Relation { from, to, kind: RelationKind::Call },
                                            );
                                            proof {
                                                assert(recovered@ == st_c.1.push(from));
                                                assert(recovered@.last() == from);
                                                assert(recovered@.contains(from));
                                                assert forall|e: int|
                                                    0 <= e < edges@.len() implies (
                                                files_have_addr(
                                                    files0,
                                                    (#[trigger] edges@[e]).from,
                                                ) || recovered@.contains(edges@[e].from)) by {
                                                    if e < st_c.2.len() {
                                                        assert(edges@[e] == st_c.2[e]);
                                                        if !files_have_addr(
                                                            files0,
                                                            st_c.2[e].from,
                                                        ) {
                                                            let a = choose|a: int|
                                                                0 <= a < st_c.1.len()
                                                                    && st_c.1[a] == st_c.2[e].from;
                                                            assert(recovered@[a]
                                                                == edges@[e].from);
                                                        }
                                                    } else {
                                                        assert(edges@[e].from == from);
                                                    }
                                                }
                                                assert forall|a: int|
                                                    0 <= a < recovered@.len() implies
                                                    files_have_addr(
                                                    files_model(self.files@),
                                                    #[trigger] recovered@[a],
                                                ) by {
                                                    if a < st_c.1.len() {
                                                        assert(recovered@[a] == st_c.1[a]);
                                                        assert(files_have_addr(
                                                            st_c.0,
                                                            st_c.1[a],
                                                        ));
                                                    } else {
                                                        assert(recovered@[a] == from);
                                                    }
                                                }
                                            }
                                        }
                                        proof {
                                            assert(step_incoming_call(
                                                files0,
                                                paths0,
                                                to,
                                                crem[0],
                                                st_c,
                                            ) == (files_model(self.files@), recovered@, edges@));
                                            assert forall|k2: int|
                                                0 <= k2 < old(self).files@.len() implies (
                                            #[trigger] self.files@[k2]).id == old(
                                                self,
                                            ).files@[k2].id && self.files@[k2].path@ == old(
                                                self,
                                            ).files@[k2].path@ by {}
                                        }
                                    },
                                }
                            }
                        },
                    }
                }
                proof {
                    assert(calls_seq.skip(nc as int) =~= Seq::<CallHierarchyIncomingCall>::empty());
                    assert((files_model(self.files@), recovered@, edges@) == total_q);
                    assert(files_have_addr(files0, rem[0].0));
                    assert(rem[0].1@ == calls_seq);
                }
            } else {
                proof {
                    assert(!files_have_addr(files0, rem[0].0));
                }
            }
        }
        proof {
            assert(old(self).incoming_calls@.skip(nq as int) =~= Seq::<(
                GlobalPosition,
                Vec<CallHierarchyIncomingCall>,
            )>::empty());
            assert((files_model(self.files@), recovered@, edges@) == total_in);
        }

        let ghost total_out = fold_outgoing(files0, paths0, old(self).outgoing_calls@, total_in.2);
        proof {
            assert(old(self).outgoing_calls@.skip(0) =~= old(self).outgoing_calls@);
        }
        let no = self.outgoing_calls.len();
        for qi in 0..no
            invariant
                no == self.outgoing_calls@.len(),
                fold_outgoing(
                    files0,
                    paths0,
                    old(self).outgoing_calls@.skip(qi as int),
                    edges@,
                ) == total_out,
                forall|e: int|
                    0 <= e < edges@.len() ==> (files_have_addr(
                        files0,
                        (#[trigger] edges@[e]).from,
                    ) || recovered@.contains(edges@[e].from)),
                nodup_pairs(edges@),
                forall|e: int|
                    0 <= e < edges@.len() ==> files_have_addr(
                        files0,
                        (#[trigger] edges@[e]).to,
                    ),
        {
            let ghost rem = old(self).outgoing_calls@.skip(qi as int);
            proof {
                assert(rem[0] == old(self).outgoing_calls@[qi as int]);
                assert(rem.drop_first() =~= old(self).outgoing_calls@.skip(qi as int + 1));
            }
            let from = self.outgoing_calls[qi].0;
            let from_known = contains_gp(&addrs, &from);
            if from_known {
                let ghost calls_seq = old(self).outgoing_calls@[qi as int].1@;
                let ghost total_q = fold_outgoing_calls(files0, paths0, from, calls_seq, edges@);
                proof {
                    assert(calls_seq.skip(0) =~= calls_seq);
                }
                let nc = self.outgoing_calls[qi].1.len();
                for ci in 0..nc
                    invariant
                        qi < self.outgoing_calls@.len(),
                        nc == calls_seq.len(),
                        fold_outgoing_calls(
                            files0,
                            paths0,
                            from,
                            calls_seq.skip(ci as int),
                            edges@,
                        ) == total_q,
                forall|e: int|
                    0 <= e < edges@.len() ==> (files_have_addr(
                        files0,
                        (#[trigger] edges@[e]).from,
                    ) || recovered@.contains(edges@[e].from)),
                        nodup_pairs(edges@),
                        forall|e: int|
                            0 <= e < edges@.len() ==> files_have_addr(
                                files0,
                                (#[trigger] edges@[e]).to,
                            ),
                {
                    let ghost crem = calls_seq.skip(ci as int);
                    proof {
                        assert(crem[0] == calls_seq[ci as int]);
                        assert(crem.drop_first() =~= calls_seq.skip(ci as int + 1));
                    }
                    let call = &self.outgoing_calls[qi].1[ci];
                    let to_id_opt = lookup_id_in(&self.paths, &call.to.uri.path);
                    match to_id_opt {
                        Option::None => {},
                        Option::Some(id) => {
                            let to = GlobalPosition::new(id, call.to.selection_range.start);
                            if contains_gp(&addrs, &to) {
                                push_dedup(
                                    &mut edges,
                                    Relation { from, to, kind: RelationKind::Call },
                                );
                            }
                        },
                    }
                }
                proof {
                    assert(calls_seq.skip(nc as int) =~= Seq::<CallHierarchyOutgoingCall>::empty());
                    assert(rem[0].1@ == calls_seq);
                }
            }
        }
        proof {
            assert(old(self).outgoing_calls@.skip(no as int) =~= Seq::<(
                GlobalPosition,
                Vec<CallHierarchyOutgoingCall>,
            )>::empty());
            assert(edges@ == total_out);
        }

        let ghost total_imp = fold_impls(files0, old(self).interfaces@, total_out);
        proof {
            assert(old(self).interfaces@.skip(0) =~= old(self).interfaces@);
        }
        let ni = self.interfaces.len();
        for qi in 0..ni
            invariant
                ni == self.interfaces@.len(),
                fold_impls(files0, old(self).interfaces@.skip(qi as int), edges@) == total_imp,
                forall|e: int|
                    0 <= e < edges@.len() ==> (files_have_addr(
                        files0,
                        (#[trigger] edges@[e]).from,
                    ) || recovered@.contains(edges@[e].from)),
                nodup_pairs(edges@),
                forall|e: int|
                    0 <= e < edges@.len() ==> files_have_addr(
                        files0,
                        (#[trigger] edges@[e]).to,
                    ),
        {
            let ghost rem = old(self).interfaces@.skip(qi as int);
            proof {
                assert(rem[0] == old(self).interfaces@[qi as int]);
                assert(rem.drop_first() =~= old(self).interfaces@.skip(qi as int + 1));
            }
            let to = self.interfaces[qi].0;
            if contains_gp(&addrs, &to) {
                let ghost locs_seq = old(self).interfaces@[qi as int].1@;
                let ghost total_q = fold_impl_locs(files0, to, locs_seq, edges@);
                proof {
                    assert(locs_seq.skip(0) =~= locs_seq);
                }
                let nc = self.interfaces[qi].1.len();
                for ci in 0..nc
                    invariant
                        qi < self.interfaces@.len(),
                        nc == locs_seq.len(),
                        fold_impl_locs(files0, to, locs_seq.skip(ci as int), edges@) == total_q,
                forall|e: int|
                    0 <= e < edges@.len() ==> (files_have_addr(
                        files0,
                        (#[trigger] edges@[e]).from,
                    ) || recovered@.contains(edges@[e].from)),
                        nodup_pairs(edges@),
                        forall|e: int|
                            0 <= e < edges@.len() ==> files_have_addr(
                                files0,
                                (#[trigger] edges@[e]).to,
                            ),
                {
                    let ghost crem = locs_seq.skip(ci as int);
                    proof {
                        assert(crem[0] == locs_seq[ci as int]);
                        assert(crem.drop_first() =~= locs_seq.skip(ci as int + 1));
                    }
                    let b = self.interfaces[qi].1[ci];
                    if contains_gp(&addrs, &b) {
                        push_dedup(
                            &mut edges,
                            Relation { from: b, to, kind: RelationKind::Impl },
                        );
                    }
                }
                proof {
                    assert(locs_seq.skip(nc as int) =~= Seq::<GlobalPosition>::empty());
                    assert(rem[0].1@ == locs_seq);
                }
            }
        }
        proof {
            assert(old(self).interfaces@.skip(ni as int) =~= Seq::<(
                GlobalPosition,
                Vec<GlobalPosition>,
            )>::empty());
            assert(edges@ == total_imp);
        }

        proof {
            assert forall|e: int| 0 <= e < edges@.len() implies files_have_addr(
                files_model(self.files@),
                (#[trigger] edges@[e]).from,
            ) by {
                if !files_have_addr(files0, edges@[e].from) {
                    assert(recovered@.contains(edges@[e].from));
                    let a = choose|a: int|
                        0 <= a < recovered@.len() && recovered@[a] == edges@[e].from;
                    assert(files_have_addr(files_model(self.files@), recovered@[a]));
                }
            }
        }
        let out_files = clone_files(&self.files);
        Graph { files: out_files, relations: edges }
    }

    /// Buffers an implementation query for the interface at `path:position`,
    /// resolving each implementor location to an address (paths are given
    /// ids on first sight) and replacing any earlier buffer for the same
    /// interface address.
    #[verifier::loop_isolation(false)]
    pub fn add_interface_implementations(
        &mut self,
        path: String,
        position: Position,
        locations: Vec<Location>,
    )
        requires
            old(self).wf(),
        ensures
            final(self).wf(),
            match spec_alloc_id(old(self).paths@, path@) {
                Option::None => *final(self) == *old(self),
                Option::Some(id) => {
                    let p1 = spec_alloc_path(old(self).paths@, path);
                    let resolved = spec_resolve_locs(p1, locations@);
                    &&& final(self).paths@ == resolved.0
                    &&& exists|v: Vec<GlobalPosition>|
                        (#[trigger] v@) == resolved.1 && final(self).interfaces@ == spec_upsert(
                            old(self).interfaces@,
                            GlobalPosition { file_id: id, line: position.line, character: position.character },
                            v,
                        )
                    &&& final(self).files == old(self).files
                    &&& final(self).incoming_calls == old(self).incoming_calls
                    &&& final(self).outgoing_calls == old(self).outgoing_calls
                    &&& final(self).highlights == old(self).highlights
                    &&& final(self).root == old(self).root
                    &&& final(self).lang == old(self).lang
                    &&& final(self).filter == old(self).filter
                },
            },
    {
        let id_opt = self.alloc_file_id(&path);
        match id_opt {
            Option::None => {},
            Option::Some(id) => {
                let key = GlobalPosition::new(id, position);
                let ghost p1 = self.paths@;
                let ghost target = spec_resolve_locs(p1, locations@);
                let mut gps: Vec<GlobalPosition> = Vec::new();
                proof {
                    assert(locations@.skip(0) =~= locations@);
                    assert(gps@ + target.1 =~= target.1);
                }
                let nl = locations.len();
                for li in 0..nl
                    invariant
                        nl == locations@.len(),
                        self.wf(),
                        self.files == old(self).files,
                        self.incoming_calls == old(self).incoming_calls,
                        self.outgoing_calls == old(self).outgoing_calls,
                        self.interfaces == old(self).interfaces,
                        self.highlights == old(self).highlights,
                        self.root == old(self).root,
                        self.lang == old(self).lang,
                        self.filter == old(self).filter,
                        ({
                            let rest = spec_resolve_locs(self.paths@, locations@.skip(li as int));
                            target.0 == rest.0 && target.1 == gps@ + rest.1
                        }),
                {
                    let ghost paths_before = self.paths@;
                    let ghost rem = locations@.skip(li as int);
                    proof {
                        assert(rem[0] == locations@[li as int]);
                        assert(rem.drop_first() =~= locations@.skip(li as int + 1));
                    }
                    let lid_opt = self.alloc_file_id(&locations[li].uri.path);
                    match lid_opt {
                        Option::None => {},
                        Option::Some(lid) => {
                            let gp = GlobalPosition::new(lid, locations[li].range.start);
                            gps.push(gp);
                            proof {
                                let rest = spec_resolve_locs(
                                    paths_before,
                                    locations@.skip(li as int),
                                );
                                let restn = spec_resolve_locs(
                                    self.paths@,
                                    locations@.skip(li as int + 1),
                                );
                                assert(rest.1 == seq![gp] + restn.1);
                                assert(gps@ + restn.1 =~= gps@.drop_last() + rest.1);
                            }
                        },
                    }
                }
                proof {
                    assert(locations@.skip(nl as int) =~= Seq::<Location>::empty());
                    assert(gps@ + Seq::<GlobalPosition>::empty() =~= gps@);
                }
                upsert_interfaces(&mut self.interfaces, key, gps);
            },
        }
    }

    /// Marks a position in an already registered file for highlighting;
    /// unknown paths are ignored. The position joins the file's highlight
    /// set, which never holds a position twice.
    pub fn highlight(&mut self, file_path: String, position: Position)
        requires
            old(self).wf(),
        ensures
            final(self).wf(),
            final(self).files == old(self).files,
            final(self).paths == old(self).paths,
            final(self).incoming_calls == old(self).incoming_calls,
            final(self).outgoing_calls == old(self).outgoing_calls,
            final(self).interfaces == old(self).interfaces,
            final(self).root == old(self).root,
            final(self).lang == old(self).lang,
            final(self).filter == old(self).filter,
            !registered(old(self).files@, file_path@) ==> *final(self) == *old(self),
            registered(old(self).files@, file_path@) ==> exists|k: int|
                0 <= k < old(self).files@.len() && (#[trigger] old(self).files@[k]).path@
                    == file_path@ && spec_highlighted(
                    final(self).highlights@,
                    old(self).files@[k].id,
                    position,
                ),
    {
        let idx_opt = self.find_file_by_path(&file_path);
        match idx_opt {
            Option::None => {},
            Option::Some(fk) => {
                let id = self.files[fk].id;
                let hl_opt = find_hl(&self.highlights, id);
                match hl_opt {
                    Option::None => {
                        let mut v: Vec<Position> = Vec::new();
                        v.push(position);
                        self.highlights.push((id, v));
                        proof {
                            let hs = self.highlights@;
                            assert(hs[hs.len() - 1].0 == id);
                            assert(hs[hs.len() - 1].1@[0] == position);
                            assert(hs[hs.len() - 1].1@.contains(position));
                            assert(spec_highlighted(hs, id, position));
                        }
                    },
                    Option::Some(i) => {
                        let already = contains_pos(&self.highlights[i].1, &position);
                        if !already {
                            let entry = &mut self.highlights[i];
                            entry.1.push(position);
                            proof {
                                let v = self.highlights@[i as int].1@;
                                assert(v[v.len() - 1] == position);
                                assert(v.contains(position));
                            }
                        }
                        proof {
                            assert(self.highlights@[i as int].0 == id);
                            assert(self.highlights@[i as int].1@.contains(position));
                            assert(spec_highlighted(self.highlights@, id, position));
                        }
                    },
                }
            },
        }
    }
}

/// The first highlight entry for this file id, if one exists.
fn find_hl(entries: &Vec<(u32, Vec<Position>)>, id: u32) -> (r: Option<usize>)
    ensures
        match r {
            Option::Some(i) => 0 <= i < entries@.len() && entries@[i as int].0 == id,
            Option::None => true,
        },
{
    let n = entries.len();
    for i in 0..n
        invariant
            n == entries@.len(),
    {
        if entries[i].0 == id {
            return Option::Some(i);
        }
    }
    Option::None
}

/// Decides membership of a position in a highlight set.
fn contains_pos(v: &Vec<Position>, p: &Position) -> (r: bool)
    ensures
        r == v@.contains(*p),
{
    let n = v.len();
    for i in 0..n
        invariant
            n == v@.len(),
            forall|j: int| 0 <= j < i ==> v@[j] != *p,
    {
        if v[i] == *p {
            return true;
        }
    }
    proof {
        if v@.contains(*p) {
            let j = choose|j: int| 0 <= j < v@.len() && v@[j] == *p;
            assert(v@[j] != *p);
        }
    }
    false
}

/// Some highlight entry for this file id holds the position.
pub open spec fn spec_highlighted(
    entries: Seq<(u32, Vec<Position>)>,
    id: u32,
    position: Position,
) -> bool {
    exists|i: int|
        0 <= i < entries.len() && (#[trigger] entries[i]).0 == id && entries[i].1@.contains(
            position,
        )
}

/// Replaces or appends the entry for `k`, keeping keys distinct.
#[verifier::loop_isolation(false)]
fn upsert_incoming(
    entries: &mut Vec<(GlobalPosition, Vec<CallHierarchyIncomingCall>)>,
    k: GlobalPosition,
    v: Vec<CallHierarchyIncomingCall>,
)
    requires
        keys_distinct(old(entries)@),
    ensures
        final(entries)@ == spec_upsert(old(entries)@, k, v),
        keys_distinct(final(entries)@),
{
    proof {
        lemma_key_index(old(entries)@, k);
    }
    let n = entries.len();
    for i in 0..n
        invariant
            n == entries@.len(),
            entries@ == old(entries)@,
            forall|j: int| 0 <= j < i ==> (#[trigger] entries@[j]).0 != k,
    {
        if entries[i].0 == k {
            proof {
                lemma_key_index(entries@, k);
                let idx = key_index(entries@, k);
                if idx < i {
                    assert(entries@[idx].0 != k);
                }
                if idx > i as int {
                    assert(entries@[i as int].0 != k);
                }
            }
            entries[i] = (k, v);
            proof {
                assert forall|a: int, b: int| 0 <= a < b < entries@.len() implies (
                #[trigger] entries@[a]).0 != (#[trigger] entries@[b]).0 by {
                    assert(old(entries)@[a].0 != old(entries)@[b].0);
                }
            }
            return ;
        }
    }
    proof {
        lemma_key_index(entries@, k);
        if has_key(entries@, k) {
            assert(entries@[key_index(entries@, k)].0 != k);
        }
    }
    entries.push((k, v));
    proof {
        assert forall|a: int, b: int| 0 <= a < b < entries@.len() implies (
        #[trigger] entries@[a]).0 != (#[trigger] entries@[b]).0 by {
            if b < entries@.len() - 1 {
                assert(old(entries)@[a].0 != old(entries)@[b].0);
            } else {
                assert(entries@[a].0 != k);
            }
        }
    }
}

/// Replaces or appends the entry for `k`, keeping keys distinct.
#[verifier::loop_isolation(false)]
fn upsert_outgoing(
    entries: &mut Vec<(GlobalPosition, Vec<CallHierarchyOutgoingCall>)>,
    k: GlobalPosition,
    v: Vec<CallHierarchyOutgoingCall>,
)
    requires
        keys_distinct(old(entries)@),
    ensures
        final(entries)@ == spec_upsert(old(entries)@, k, v),
        keys_distinct(final(entries)@),
{
    proof {
        lemma_key_index(old(entries)@, k);
    }
    let n = entries.len();
    for i in 0..n
        invariant
            n == entries@.len(),
            entries@ == old(entries)@,
            forall|j: int| 0 <= j < i ==> (#[trigger] entries@[j]).0 != k,
    {
        if entries[i].0 == k {
            proof {
                lemma_key_index(entries@, k);
                let idx = key_index(entries@, k);
                if idx < i {
                    assert(entries@[idx].0 != k);
                }
                if idx > i as int {
                    assert(entries@[i as int].0 != k);
                }
            }
            entries[i] = (k, v);
            proof {
                assert forall|a: int, b: int| 0 <= a < b < entries@.len() implies (
                #[trigger] entries@[a]).0 != (#[trigger] entries@[b]).0 by {
                    assert(old(entries)@[a].0 != old(entries)@[b].0);
                }
            }
            return ;
        }
    }
    proof {
        lemma_key_index(entries@, k);
        if has_key(entries@, k) {
            assert(entries@[key_index(entries@, k)].0 != k);
        }
    }
    entries.push((k, v));
    proof {
        assert forall|a: int, b: int| 0 <= a < b < entries@.len() implies (
        #[trigger] entries@[a]).0 != (#[trigger] entries@[b]).0 by {
            if b < entries@.len() - 1 {
                assert(old(entries)@[a].0 != old(entries)@[b].0);
            } else {
                assert(entries@[a].0 != k);
            }
        }
    }
}

/// Decides the sortedness invariant over a stored tree.
#[verifier::loop_isolation(false)]
pub fn check_list_wf(list: &Vec<Symbol>) -> (r: bool)
    ensures
        r == list_wf(list_model(list@)),
    decreases list@,
{
    broadcast use group_list_model;

    let ghost l = list_model(list@);
    let n = list.len();
    let mut i: usize = 1;
    while 1 <= i && i < n
        invariant
            1 <= i,
            n > 0 ==> i <= n,
            n > 0 ==> crate::graph::siblings_sorted(l.take(i as int)),
        decreases n - i,
    {
        if !list[i - 1].range.start.lt(&list[i].range.start) {
            proof {
                assert(!pos_lt(l[i as int - 1].range.start, l[i as int].range.start));
                assert(!crate::graph::siblings_sorted(l));
            }
            return false;
        }
        proof {
            let t = l.take(i as int + 1);
            assert forall|a: int, b: int| 0 <= a < b < t.len() implies pos_lt(
                t[a].range.start,
                t[b].range.start,
            ) by {
                if b < i {
                    assert(l.take(i as int)[a] == l[a]);
                    assert(l.take(i as int)[b] == l[b]);
                } else {
                    assert(b == i);
                    if a < i - 1 {
                        assert(l.take(i as int)[a] == l[a]);
                        assert(l.take(i as int)[i - 1] == l[i - 1]);
                        assert(pos_lt(l[a].range.start, l[i as int - 1].range.start));
                    }
                    assert(pos_lt(l[i as int - 1].range.start, l[i as int].range.start));
                }
            }
        }
        i = i + 1;
    }
    proof {
        assert(l.take(l.len() as int) =~= l);
        if n == 0 {
            assert(crate::graph::siblings_sorted(l));
        }
    }
    let mut k: usize = 0;
    while k < n
        invariant
            n == list@.len(),
            crate::graph::siblings_sorted(l),
            forall|j: int| 0 <= j < k ==> crate::graph::sym_wf(#[trigger] l[j]),
        decreases n - k,
    {
        let ok = check_list_wf(&list[k].children);
        if !ok {
            proof {
                assert(!crate::graph::sym_wf(l[k as int]));
            }
            return false;
        }
        k = k + 1;
    }
    true
}



/// Replaces or appends the entry for `k`, keeping keys distinct.
fn upsert_interfaces(
    entries: &mut Vec<(GlobalPosition, Vec<GlobalPosition>)>,
    k: GlobalPosition,
    v: Vec<GlobalPosition>,
)
    requires
        keys_distinct(old(entries)@),
    ensures
        final(entries)@ == spec_upsert(old(entries)@, k, v),
        keys_distinct(final(entries)@),
{
    proof {
        lemma_key_index(old(entries)@, k);
    }
    let n = entries.len();
    for i in 0..n
        invariant
            n == entries@.len(),
            entries@ == old(entries)@,
            keys_distinct(entries@),
            forall|j: int| 0 <= j < i ==> (#[trigger] entries@[j]).0 != k,
    {
        if entries[i].0 == k {
            proof {
                lemma_key_index(entries@, k);
                let idx = key_index(entries@, k);
                if idx < i {
                    assert(entries@[idx].0 != k);
                }
                if idx > i as int {
                    assert(entries@[i as int].0 != k);
                }
            }
            entries[i] = (k, v);
            proof {
                assert forall|a: int, b: int| 0 <= a < b < entries@.len() implies (
                #[trigger] entries@[a]).0 != (#[trigger] entries@[b]).0 by {
                    assert(old(entries)@[a].0 != old(entries)@[b].0);
                }
            }
            return ;
        }
    }
    proof {
        lemma_key_index(entries@, k);
        if has_key(entries@, k) {
            assert(entries@[key_index(entries@, k)].0 != k);
        }
    }
    entries.push((k, v));
    proof {
        assert forall|a: int, b: int| 0 <= a < b < entries@.len() implies (
        #[trigger] entries@[a]).0 != (#[trigger] entries@[b]).0 by {
            if b < entries@.len() - 1 {
                assert(old(entries)@[a].0 != old(entries)@[b].0);
            } else {
                assert(entries@[a].0 != k);
            }
        }
    }
}

/// What resolving a list of implementor locations does: each location's path
/// is given an id (assigned on first sight), its range start becomes the
/// address; a location whose path cannot be allocated is skipped.
pub open spec fn spec_resolve_locs(paths: Seq<String>, locs: Seq<Location>) -> (
    Seq<String>,
    Seq<GlobalPosition>,
)
    decreases locs,
{
    if locs.len() == 0 {
        (paths, Seq::empty())
    } else {
        match spec_alloc_id(paths, locs[0].uri.path@) {
            Option::None => spec_resolve_locs(paths, locs.drop_first()),
            Option::Some(id) => {
                let p1 = spec_alloc_path(paths, locs[0].uri.path);
                let rest = spec_resolve_locs(p1, locs.drop_first());
                (
                    rest.0,
                    seq![
                        GlobalPosition {
                            file_id: id,
                            line: locs[0].range.start.line,
                            character: locs[0].range.start.character,
                        },
                    ] + rest.1,
                )
            },
        }
    }
}


/// Looks the path up in the table; `None` if it was never seen.
fn lookup_id_in(paths: &Vec<String>, path: &String) -> (r: Option<u32>)
    requires
        paths_distinct(paths@),
        paths@.len() <= u32::MAX as int,
    ensures
        r == spec_lookup_id(paths@, path@),
{
    proof {
        lemma_path_index_of(paths@, path@);
    }
    let n = paths.len();
    for i in 0..n
        invariant
            n == paths@.len(),
            n <= u32::MAX as int,
            forall|j: int| 0 <= j < i ==> (#[trigger] paths@[j])@ != path@,
    {
        if paths[i] == *path {
            proof {
                lemma_path_index_of(paths@, path@);
                let idx = path_index_of(paths@, path@);
                if idx < i {
                    assert(paths@[idx]@ != path@);
                }
                if idx > i as int {
                    assert(paths@[i as int]@ != path@);
                }
            }
            return Option::Some((i as u32) + 1);
        }
    }
    proof {
        lemma_path_index_of(paths@, path@);
        if has_path(paths@, path@) {
            assert(paths@[path_index_of(paths@, path@)]@ != path@);
        }
    }
    Option::None
}

/// No two edges share their endpoint pair.
pub open spec fn nodup_pairs(edges: Seq<Relation>) -> bool {
    forall|a: int, b: int|
        0 <= a < b < edges.len() ==> ((#[trigger] edges[a]).from != (#[trigger] edges[b]).from
            || edges[a].to != edges[b].to)
}

/// Whether an edge with these endpoints is present, whatever its kind.
pub open spec fn pair_in(edges: Seq<Relation>, from: GlobalPosition, to: GlobalPosition) -> bool {
    exists|e: int|
        0 <= e < edges.len() && (#[trigger] edges[e]).from == from && edges[e].to == to
}

/// Appends an edge unless one with the same endpoints is already there: the
/// deduplication rule, blind to the edge's kind.
pub open spec fn spec_push_dedup(edges: Seq<Relation>, r: Relation) -> Seq<Relation> {
    if pair_in(edges, r.from, r.to) {
        edges
    } else {
        edges.push(r)
    }
}

/// The first file holding this id; the length if none does.
pub open spec fn file_index_by_id(files: Seq<FileModel>, id: u32) -> int
    decreases files,
{
    if files.len() == 0 {
        0
    } else if files[0].id == id {
        0
    } else {
        1 + file_index_by_id(files.drop_first(), id)
    }
}

pub open spec fn has_file_id(files: Seq<FileModel>, id: u32) -> bool {
    file_index_by_id(files, id) < files.len()
}

pub proof fn lemma_file_index_by_id(files: Seq<FileModel>, id: u32)
    ensures
        0 <= file_index_by_id(files, id) <= files.len(),
        forall|j: int| 0 <= j < file_index_by_id(files, id) ==> (#[trigger] files[j]).id != id,
        file_index_by_id(files, id) < files.len() ==> files[file_index_by_id(files, id)].id == id,
    decreases files,
{
    if files.len() > 0 && files[0].id != id {
        let df = files.drop_first();
        lemma_file_index_by_id(df, id);
        assert forall|j: int| 0 <= j < file_index_by_id(files, id) implies (
        #[trigger] files[j]).id != id by {
            if j > 0 {
                assert(files[j] == df[j - 1]);
            }
        }
        if file_index_by_id(files, id) < files.len() {
            assert(files[file_index_by_id(files, id)] == df[file_index_by_id(df, id)]);
        }
    }
}

/// The address a call-hierarchy endpoint resolves to under a path table.
pub open spec fn spec_item_addr(paths: Seq<String>, it: CallHierarchyItem) -> Option<
    GlobalPosition,
> {
    match spec_lookup_id(paths, it.uri.path@) {
        Option::None => Option::None,
        Option::Some(id) => Option::Some(
            GlobalPosition {
                file_id: id,
                line: it.selection_range.start.line,
                character: it.selection_range.start.character,
            },
        ),
    }
}

/// What one caller relation of an incoming query does to the pass state
/// `(trees, recovered, edges)`: resolve the caller, emit the edge if the
/// caller is known or already recovered, otherwise attempt recovery in the
/// caller's file and emit only on success; membership is judged against the
/// trees as they stood when the pass began (`files0`).
pub open spec fn step_incoming_call(
    files0: Seq<FileModel>,
    paths: Seq<String>,
    to: GlobalPosition,
    call: CallHierarchyIncomingCall,
    st: (Seq<FileModel>, Seq<GlobalPosition>, Seq<Relation>),
) -> (Seq<FileModel>, Seq<GlobalPosition>, Seq<Relation>) {
    match spec_item_addr(paths, call.from) {
        Option::None => st,
        Option::Some(from) => {
            let edge = Relation { from, to, kind: RelationKind::Call };
            if files_have_addr(files0, from) || st.1.contains(from) {
                (st.0, st.1, spec_push_dedup(st.2, edge))
            } else if !has_file_id(st.0, from.file_id) {
                st
            } else {
                let k = file_index_by_id(st.0, from.file_id);
                match crate::recovery::spec_insert(
                    st.0[k].symbols,
                    crate::recovery::item_model(call.from),
                    false,
                ) {
                    Option::None => st,
                    Option::Some(m) => (
                        st.0.update(k, FileModel { symbols: m, ..st.0[k] }),
                        st.1.push(from),
                        spec_push_dedup(st.2, edge),
                    ),
                }
            }
        },
    }
}

pub open spec fn fold_incoming_calls(
    files0: Seq<FileModel>,
    paths: Seq<String>,
    to: GlobalPosition,
    calls: Seq<CallHierarchyIncomingCall>,
    st: (Seq<FileModel>, Seq<GlobalPosition>, Seq<Relation>),
) -> (Seq<FileModel>, Seq<GlobalPosition>, Seq<Relation>)
    decreases calls,
{
    if calls.len() == 0 {
        st
    } else {
        fold_incoming_calls(
            files0,
            paths,
            to,
            calls.drop_first(),
            step_incoming_call(files0, paths, to, calls[0], st),
        )
    }
}

/// The incoming pass over all buffered queries, in buffer order; a query
/// whose callee is unknown is dropped wholesale.
pub open spec fn fold_incoming(
    files0: Seq<FileModel>,
    paths: Seq<String>,
    entries: Seq<(GlobalPosition, Vec<CallHierarchyIncomingCall>)>,
    st: (Seq<FileModel>, Seq<GlobalPosition>, Seq<Relation>),
) -> (Seq<FileModel>, Seq<GlobalPosition>, Seq<Relation>)
    decreases entries,
{
    if entries.len() == 0 {
        st
    } else {
        let st1 = if files_have_addr(files0, entries[0].0) {
            fold_incoming_calls(files0, paths, entries[0].0, entries[0].1@, st)
        } else {
            st
        };
        fold_incoming(files0, paths, entries.drop_first(), st1)
    }
}

/// One callee relation of an outgoing query: the edge is emitted only when
/// the callee was already known before the pass; no recovery on this side.
pub open spec fn step_outgoing_call(
    files0: Seq<FileModel>,
    paths: Seq<String>,
    from: GlobalPosition,
    call: CallHierarchyOutgoingCall,
    edges: Seq<Relation>,
) -> Seq<Relation> {
    match spec_item_addr(paths, call.to) {
        Option::None => edges,
        Option::Some(to) => {
            if files_have_addr(files0, to) {
                spec_push_dedup(edges, Relation { from, to, kind: RelationKind::Call })
            } else {
                edges
            }
        },
    }
}

pub open spec fn fold_outgoing_calls(
    files0: Seq<FileModel>,
    paths: Seq<String>,
    from: GlobalPosition,
    calls: Seq<CallHierarchyOutgoingCall>,
    edges: Seq<Relation>,
) -> Seq<Relation>
    decreases calls,
{
    if calls.len() == 0 {
        edges
    } else {
        fold_outgoing_calls(
            files0,
            paths,
            from,
            calls.drop_first(),
            step_outgoing_call(files0, paths, from, calls[0], edges),
        )
    }
}

pub open spec fn fold_outgoing(
    files0: Seq<FileModel>,
    paths: Seq<String>,
    entries: Seq<(GlobalPosition, Vec<CallHierarchyOutgoingCall>)>,
    edges: Seq<Relation>,
) -> Seq<Relation>
    decreases entries,
{
    if entries.len() == 0 {
        edges
    } else {
        let e1 = if files_have_addr(files0, entries[0].0) {
            fold_outgoing_calls(files0, paths, entries[0].0, entries[0].1@, edges)
        } else {
            edges
        };
        fold_outgoing(files0, paths, entries.drop_first(), e1)
    }
}

pub open spec fn fold_impl_locs(
    files0: Seq<FileModel>,
    to: GlobalPosition,
    impls: Seq<GlobalPosition>,
    edges: Seq<Relation>,
) -> Seq<Relation>
    decreases impls,
{
    if impls.len() == 0 {
        edges
    } else {
        let e1 = if files_have_addr(files0, impls[0]) {
            spec_push_dedup(edges, Relation { from: impls[0], to, kind: RelationKind::Impl })
        } else {
            edges
        };
        fold_impl_locs(files0, to, impls.drop_first(), e1)
    }
}

pub open spec fn fold_impls(
    files0: Seq<FileModel>,
    entries: Seq<(GlobalPosition, Vec<GlobalPosition>)>,
    edges: Seq<Relation>,
) -> Seq<Relation>
    decreases entries,
{
    if entries.len() == 0 {
        edges
    } else {
        let e1 = if files_have_addr(files0, entries[0].0) {
            fold_impl_locs(files0, entries[0].0, entries[0].1@, edges)
        } else {
            edges
        };
        fold_impls(files0, entries.drop_first(), e1)
    }
}

/// The whole resolution: the incoming pass (which may grow trees through
/// recovery), then the outgoing pass, then the implementation pass, all
/// deduplicating into one edge sequence. Returns the trees after recovery
/// and the final edges.
pub open spec fn spec_generate(
    files0: Seq<FileModel>,
    paths: Seq<String>,
    incoming: Seq<(GlobalPosition, Vec<CallHierarchyIncomingCall>)>,
    outgoing: Seq<(GlobalPosition, Vec<CallHierarchyOutgoingCall>)>,
    interfaces: Seq<(GlobalPosition, Vec<GlobalPosition>)>,
) -> (Seq<FileModel>, Seq<Relation>) {
    let st = fold_incoming(files0, paths, incoming, (files0, Seq::empty(), Seq::empty()));
    let e1 = fold_outgoing(files0, paths, outgoing, st.2);
    let e2 = fold_impls(files0, interfaces, e1);
    (st.0, e2)
}

/// Some node in the first `n` trees of `l` starts at `p`.
pub open spec fn prefix_has_start(l: Seq<SymModel>, n: int, p: Position) -> bool {
    exists|j: int| 0 <= j < n && crate::graph::sym_has_start(#[trigger] l[j], p)
}

/// Some file among the first `n` holds the address.
pub open spec fn prefix_have_addr(fs: Seq<FileModel>, n: int, a: GlobalPosition) -> bool {
    exists|k: int|
        0 <= k < n && (#[trigger] fs[k]).id == a.file_id && list_has_start(
            fs[k].symbols,
            a.spec_position(),
        )
}

/// Collects the address of every node of one tree level and below.
#[verifier::loop_isolation(false)]
fn collect_sym_addrs(file_id: u32, list: &Vec<Symbol>, out: &mut Vec<GlobalPosition>)
    ensures
        forall|gp: GlobalPosition|
            final(out)@.contains(gp) <==> (old(out)@.contains(gp) || (gp.file_id == file_id
                && list_has_start(list_model(list@), gp.spec_position()))),
    decreases list@,
{
    broadcast use group_list_model;

    let ghost l = list_model(list@);
    let n = list.len();
    for i in 0..n
        invariant
            forall|gp: GlobalPosition|
                out@.contains(gp) <==> (old(out)@.contains(gp) || (gp.file_id == file_id
                    && prefix_has_start(l, i as int, gp.spec_position()))),
    {
        let ghost before = out@;
        let gp = GlobalPosition::new(file_id, list[i].range.start);
        out.push(gp);
        proof {
            assert forall|q: GlobalPosition| out@.contains(q) <==> (before.contains(q) || q
                == gp) by {
                if out@.contains(q) {
                    let e = choose|e: int| 0 <= e < out@.len() && out@[e] == q;
                    if e < out@.len() - 1 {
                        assert(before.contains(q));
                    }
                } else {
                }
                if before.contains(q) {
                    let e = choose|e: int| 0 <= e < before.len() && before[e] == q;
                    assert(out@[e] == q);
                }
                if q == gp {
                    assert(out@[out@.len() - 1] == q);
                }
            }
        }
        let ghost mid = out@;
        collect_sym_addrs(file_id, &list[i].children, out);
        proof {
            assert(l[i as int] == sym_model(list@[i as int]));
            assert(l[i as int].children == list_model(list@[i as int].children@));
            assert forall|q: GlobalPosition| out@.contains(q) <==> (old(out)@.contains(q) || (
            q.file_id == file_id && prefix_has_start(l, i as int + 1, q.spec_position()))) by {
                if out@.contains(q) {
                    if mid.contains(q) {
                        if before.contains(q) {
                            if !old(out)@.contains(q) {
                                assert(q.file_id == file_id && prefix_has_start(
                                    l,
                                    i as int,
                                    q.spec_position(),
                                ));
                                let j = choose|j: int|
                                    0 <= j < i && crate::graph::sym_has_start(
                                        #[trigger] l[j],
                                        q.spec_position(),
                                    );
                                assert(prefix_has_start(l, i as int + 1, q.spec_position()));
                            }
                        } else {
                            assert(q == gp);
                            assert(crate::graph::sym_has_start(l[i as int], q.spec_position()));
                            assert(prefix_has_start(l, i as int + 1, q.spec_position()));
                        }
                    } else {
                        assert(q.file_id == file_id && list_has_start(
                            l[i as int].children,
                            q.spec_position(),
                        ));
                        assert(crate::graph::sym_has_start(l[i as int], q.spec_position()));
                        assert(prefix_has_start(l, i as int + 1, q.spec_position()));
                    }
                }
                if old(out)@.contains(q) {
                    assert(before.contains(q));
                    assert(mid.contains(q));
                    assert(out@.contains(q));
                }
                if q.file_id == file_id && prefix_has_start(l, i as int + 1, q.spec_position()) {
                    let j = choose|j: int|
                        0 <= j <= i && crate::graph::sym_has_start(
                            #[trigger] l[j],
                            q.spec_position(),
                        );
                    if j < i {
                        assert(prefix_has_start(l, i as int, q.spec_position()));
                        assert(before.contains(q));
                        assert(mid.contains(q));
                        assert(out@.contains(q));
                    } else {
                        if l[j].range.start == q.spec_position() {
                            assert(q == gp);
                            assert(mid.contains(q));
                            assert(out@.contains(q));
                        } else {
                            assert(list_has_start(l[i as int].children, q.spec_position()));
                            assert(out@.contains(q));
                        }
                    }
                }
            }
        }
    }
    proof {
        assert forall|gp: GlobalPosition|
            prefix_has_start(l, l.len() as int, gp.spec_position()) == list_has_start(
                l,
                gp.spec_position(),
            ) by {}
    }
}

/// The membership oracle of the resolution pass: every retained address.
fn collect_addresses(files: &Vec<File>) -> (out: Vec<GlobalPosition>)
    ensures
        forall|gp: GlobalPosition|
            out@.contains(gp) <==> files_have_addr(files_model(files@), gp),
{
    let ghost fs = files_model(files@);
    let mut out: Vec<GlobalPosition> = Vec::new();
    let n = files.len();
    for k in 0..n
        invariant
            n == files@.len(),
            fs == files_model(files@),
            forall|gp: GlobalPosition|
                out@.contains(gp) <==> prefix_have_addr(fs, k as int, gp),
    {
        let ghost before = out@;
        collect_sym_addrs(files[k].id, &files[k].symbols, &mut out);
        proof {
            assert(fs[k as int] == file_model(files@[k as int]));
            assert forall|gp: GlobalPosition| out@.contains(gp) <==> prefix_have_addr(
                fs,
                k as int + 1,
                gp,
            ) by {
                if out@.contains(gp) {
                    if before.contains(gp) {
                        let j = choose|j: int|
                            0 <= j < k && (#[trigger] fs[j]).id == gp.file_id && list_has_start(
                                fs[j].symbols,
                                gp.spec_position(),
                            );
                        assert(prefix_have_addr(fs, k as int + 1, gp));
                    } else {
                        assert(fs[k as int].id == gp.file_id && list_has_start(
                            fs[k as int].symbols,
                            gp.spec_position(),
                        ));
                        assert(prefix_have_addr(fs, k as int + 1, gp));
                    }
                }
                if prefix_have_addr(fs, k as int + 1, gp) {
                    let j = choose|j: int|
                        0 <= j <= k && (#[trigger] fs[j]).id == gp.file_id && list_has_start(
                            fs[j].symbols,
                            gp.spec_position(),
                        );
                    if j < k {
                        assert(prefix_have_addr(fs, k as int, gp));
                        assert(before.contains(gp));
                    }
                    assert(out@.contains(gp));
                }
            }
        }
    }
    proof {
        assert forall|gp: GlobalPosition|
            prefix_have_addr(fs, fs.len() as int, gp) == files_have_addr(fs, gp) by {}
    }
    out
}

/// Decides membership in the collected address list.
fn contains_gp(v: &Vec<GlobalPosition>, gp: &GlobalPosition) -> (r: bool)
    ensures
        r == v@.contains(*gp),
{
    let n = v.len();
    for i in 0..n
        invariant
            n == v@.len(),
            forall|j: int| 0 <= j < i ==> v@[j] != *gp,
    {
        if v[i] == *gp {
            return true;
        }
    }
    proof {
        if v@.contains(*gp) {
            let j = choose|j: int| 0 <= j < v@.len() && v@[j] == *gp;
            assert(v@[j] != *gp);
        }
    }
    false
}

/// Appends the edge unless its endpoint pair is already present.
fn push_dedup(edges: &mut Vec<Relation>, r: Relation)
    ensures
        final(edges)@ == spec_push_dedup(old(edges)@, r),
        nodup_pairs(old(edges)@) ==> nodup_pairs(final(edges)@),
{
    let n = edges.len();
    for i in 0..n
        invariant
            n == edges@.len(),
            edges@ == old(edges)@,
            forall|j: int|
                0 <= j < i ==> ((#[trigger] edges@[j]).from != r.from || edges@[j].to != r.to),
    {
        if edges[i].from == r.from && edges[i].to == r.to {
            proof {
                assert(pair_in(edges@, r.from, r.to));
            }
            return ;
        }
    }
    proof {
        if pair_in(edges@, r.from, r.to) {
            let e = choose|e: int|
                0 <= e < edges@.len() && (#[trigger] edges@[e]).from == r.from && edges@[e].to
                    == r.to;
            assert(edges@[e].from != r.from || edges@[e].to != r.to);
        }
    }
    edges.push(r);
    proof {
        if nodup_pairs(old(edges)@) {
            assert forall|a: int, b: int| 0 <= a < b < edges@.len() implies ((
            #[trigger] edges@[a]).from != (#[trigger] edges@[b]).from || edges@[a].to
                != edges@[b].to) by {
                if b == edges@.len() - 1 {
                    assert(!pair_in(old(edges)@, r.from, r.to));
                    if edges@[a].from == r.from && edges@[a].to == r.to {
                        assert(pair_in(old(edges)@, r.from, r.to));
                    }
                } else {
                    assert(old(edges)@[a].from != old(edges)@[b].from || old(edges)@[a].to != old(
                        edges,
                    )@[b].to);
                }
            }
        }
    }
}

/// The index of the registered file with this id, if one has it.
fn find_file_index_by_id(files: &Vec<File>, id: u32) -> (r: Option<usize>)
    ensures
        ({
            let fs = files_model(files@);
            match r {
                Option::Some(k) => has_file_id(fs, id) && k == file_index_by_id(fs, id),
                Option::None => !has_file_id(fs, id),
            }
        }),
{
    let ghost fs = files_model(files@);
    proof {
        lemma_file_index_by_id(fs, id);
    }
    let n = files.len();
    for k in 0..n
        invariant
            n == files@.len(),
            fs == files_model(files@),
            forall|j: int| 0 <= j < k ==> (#[trigger] fs[j]).id != id,
    {
        if files[k].id == id {
            proof {
                lemma_file_index_by_id(fs, id);
                let idx = file_index_by_id(fs, id);
                if idx < k {
                    assert(fs[idx].id != id);
                }
                if idx > k as int {
                    assert(fs[k as int].id != id);
                }
            }
            return Option::Some(k);
        }
    }
    proof {
        lemma_file_index_by_id(fs, id);
        if has_file_id(fs, id) {
            assert(fs[file_index_by_id(fs, id)].id != id);
        }
    }
    Option::None
}

/// A deep copy of one symbol, equal at the model level.
fn clone_symbol(s: &Symbol) -> (r: Symbol)
    ensures
        sym_model(r) == sym_model(*s),
    decreases *s,
{
    Symbol {
        name: s.name.clone(),
        kind: s.kind,
        range: s.range,
        full_range: s.full_range,
        children: clone_symbols(&s.children),
    }
}

/// A deep copy of a sibling list, equal at the model level.
fn clone_symbols(list: &Vec<Symbol>) -> (r: Vec<Symbol>)
    ensures
        list_model(r@) == list_model(list@),
    decreases list@,
{
    broadcast use group_list_model;

    let mut out: Vec<Symbol> = Vec::new();
    let n = list.len();
    for i in 0..n
        invariant
            n == list@.len(),
            out@.len() == i,
            forall|j: int| 0 <= j < i ==> sym_model(#[trigger] out@[j]) == sym_model(list@[j]),
    {
        broadcast use group_list_model;

        let c = clone_symbol(&list[i]);
        out.push(c);
    }
    proof {
        assert(list_model(out@) =~= list_model(list@));
    }
    out
}

/// A deep copy of the registered files, equal at the model level.
fn clone_files(files: &Vec<File>) -> (r: Vec<File>)
    ensures
        files_model(r@) == files_model(files@),
{
    let mut out: Vec<File> = Vec::new();
    let n = files.len();
    for k in 0..n
        invariant
            n == files@.len(),
            out@.len() == k,
            forall|j: int|
                0 <= j < k ==> file_model(#[trigger] out@[j]) == file_model(files@[j]),
    {
        let f = &files[k];
        let c = File { id: f.id, path: f.path.clone(), symbols: clone_symbols(&f.symbols) };
        out.push(c);
    }
    proof {
        assert(files_model(out@) =~= files_model(files@));
    }
    out
}


/// An address that was never retained — for instance a callee whose symbol
/// the policy filtered out at registration — is the target of no resolved
/// edge, whatever caller data the queries hold: every edge's target was a
/// member of the registered trees before resolution began.
pub proof fn lemma_unretained_target_no_edges(
    files0: Seq<FileModel>,
    relations: Seq<Relation>,
    c: GlobalPosition,
)
    requires
        forall|e: int|
            0 <= e < relations.len() ==> files_have_addr(
                files0,
                (#[trigger] relations[e]).to,
            ),
        !files_have_addr(files0, c),
    ensures
        forall|e: int| 0 <= e < relations.len() ==> (#[trigger] relations[e]).to != c,
{
}

} // verus!
