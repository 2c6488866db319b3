//! Nested-symbol recovery: when a call-hierarchy result names a symbol that a
//! file's outline never listed (commonly a function nested inside another
//! function), the missing node is synthesized at the right place in the
//! stored tree instead of the edge being dropped.
//!
//! `spec_insert` is the mathematical statement of the procedure; the
//! executable `try_insert_symbol` is proved to return exactly its result.

use vstd::prelude::*;

use crate::graph::{
    group_list_model, lemma_list_model_singleton, list_has_start, list_model, list_wf,
    siblings_sorted, sym_has_start, sym_model, sym_wf, SymModel, Symbol,
};
use crate::types::{pos_lt, CallHierarchyItem, Position, SymbolKind};

verus! {

/// Only executable containers may host recovered symbols.
pub open spec fn is_host_kind(k: SymbolKind) -> bool {
    k == SymbolKind::Function || k == SymbolKind::Method
}

/// The node a recovered item would become: selection range as identity,
/// body range for containment, no children yet.
pub open spec fn item_model(it: CallHierarchyItem) -> SymModel {
    SymModel {
        name: it.name@,
        kind: it.kind,
        range: it.selection_range,
        full_range: it.range,
        children: Seq::empty(),
    }
}

/// The index where a node starting at `p` belongs in the sibling list `l`:
/// the first index whose selection start is not below `p`.
pub open spec fn insertion_index(l: Seq<SymModel>, p: Position) -> int
    decreases l,
{
    if l.len() == 0 {
        0
    } else if pos_lt(l[0].range.start, p) {
        1 + insertion_index(l.drop_first(), p)
    } else {
        0
    }
}

/// What recovery does to a sibling list, or `None` where it refuses.
///
/// At each level: an existing sibling with the item's selection start means
/// the node is already known (success without change). Otherwise, if the
/// preceding sibling's body encloses the item, that sibling must be a
/// Function or Method and the item descends into its children. When no
/// enclosing host remains, the item is inserted only if some host was
/// entered (`nested`); a following sibling strictly inside the item's body
/// is detached and becomes the new node's only child.
pub open spec fn spec_insert(l: Seq<SymModel>, item: SymModel, nested: bool) -> Option<
    Seq<SymModel>,
>
    decreases l via spec_insert_decreases
{
    let p = item.range.start;
    let i = insertion_index(l, p);
    if i < l.len() && l[i].range.start == p {
        Option::Some(l)
    } else if i > 0 && pos_lt(item.range.end, l[i - 1].full_range.end) {
        if !is_host_kind(l[i - 1].kind) {
            Option::None
        } else {
            match spec_insert(l[i - 1].children, item, true) {
                Option::None => Option::None,
                Option::Some(ch) => Option::Some(
                    l.update(i - 1, SymModel { children: ch, ..l[i - 1] }),
                ),
            }
        }
    } else if !nested {
        Option::None
    } else if i < l.len() && pos_lt(p, l[i].range.start) && pos_lt(
        l[i].full_range.end,
        item.full_range.end,
    ) {
        Option::Some(
            l.take(i) + seq![SymModel { children: seq![l[i]], ..item }] + l.skip(i + 1),
        )
    } else {
        Option::Some(l.take(i) + seq![SymModel { children: Seq::empty(), ..item }] + l.skip(i))
    }
}

#[via_fn]
proof fn spec_insert_decreases(l: Seq<SymModel>, item: SymModel, nested: bool) {
    broadcast use vstd::seq::axiom_seq_index_decreases;

    lemma_insertion_index_props(l, item.range.start);
}

/// Basic bounds of `insertion_index`: everything before it starts below `p`,
/// and the element at it (if any) does not.
pub proof fn lemma_insertion_index_props(l: Seq<SymModel>, p: Position)
    ensures
        0 <= insertion_index(l, p) <= l.len(),
        forall|j: int| 0 <= j < insertion_index(l, p) ==> pos_lt(l[j].range.start, p),
        insertion_index(l, p) < l.len() ==> !pos_lt(l[insertion_index(l, p)].range.start, p),
    decreases l,
{
    if l.len() > 0 && pos_lt(l[0].range.start, p) {
        let df = l.drop_first();
        lemma_insertion_index_props(df, p);
        assert forall|j: int| 0 <= j < insertion_index(l, p) implies pos_lt(
            l[j].range.start,
            p,
        ) by {
            if j > 0 {
                assert(l[j] == df[j - 1]);
            }
        }
        if insertion_index(l, p) < l.len() {
            assert(l[insertion_index(l, p)] == df[insertion_index(df, p)]);
        }
    }
}

/// On a sorted list, nothing at or after the insertion index starts below `p`.
pub proof fn lemma_insertion_index_sorted(l: Seq<SymModel>, p: Position)
    requires
        siblings_sorted(l),
    ensures
        forall|j: int| insertion_index(l, p) <= j < l.len() ==> !pos_lt(l[j].range.start, p),
{
    lemma_insertion_index_props(l, p);
    let i = insertion_index(l, p);
    assert forall|j: int| i <= j < l.len() implies !pos_lt(l[j].range.start, p) by {
        if j > i {
            assert(pos_lt(l[i].range.start, l[j].range.start));
        }
    }
}

/// Recovery preserves the sortedness invariant at every level.
pub proof fn lemma_spec_insert_wf(l: Seq<SymModel>, item: SymModel, nested: bool)
    requires
        list_wf(l),
        spec_insert(l, item, nested) is Some,
    ensures
        list_wf(spec_insert(l, item, nested)->Some_0),
    decreases l,
{
    let p = item.range.start;
    let i = insertion_index(l, p);
    lemma_insertion_index_props(l, p);
    lemma_insertion_index_sorted(l, p);
    let m = spec_insert(l, item, nested)->Some_0;
    if i < l.len() && l[i].range.start == p {
    } else if i > 0 && pos_lt(item.range.end, l[i - 1].full_range.end) {
        let ch = spec_insert(l[i - 1].children, item, true)->Some_0;
        assert(sym_wf(l[i - 1]));
        lemma_spec_insert_wf(l[i - 1].children, item, true);
        assert(siblings_sorted(m));
        assert(sym_wf(m[i - 1]));
        assert(forall|j: int| 0 <= j < m.len() && j != i - 1 ==> m[j] == l[j]);
    } else {
        // insertion at i: everything before starts below p, everything at or
        // after starts above p (not below, and not equal since no exact match)
        assert forall|j: int| i <= j < l.len() implies pos_lt(
            p,
            #[trigger] l[j].range.start,
        ) by {
            if j > i {
                assert(pos_lt(l[i].range.start, l[j].range.start));
            }
        }
        if i < l.len() && pos_lt(p, l[i].range.start) && pos_lt(
            l[i].full_range.end,
            item.full_range.end,
        ) {
            let node = SymModel { children: seq![l[i]], ..item };
            assert(sym_wf(node)) by {
                assert(node.children[0] == l[i]);
                assert(sym_wf(l[i]));
            }
            assert(m.len() == l.len());
            assert(forall|j: int| 0 <= j < i ==> m[j] == l[j]);
            assert(m[i] == node);
            assert(forall|j: int| i < j < m.len() ==> m[j] == l[j]);
            assert forall|a: int, b: int| 0 <= a < b < m.len() implies pos_lt(
                m[a].range.start,
                m[b].range.start,
            ) by {
                if a < i && b == i {
                } else if a == i && b > i {
                } else if a < i && b > i {
                    assert(pos_lt(l[a].range.start, p));
                    assert(pos_lt(p, l[b].range.start));
                }
            }
            assert(forall|j: int| 0 <= j < m.len() ==> sym_wf(#[trigger] m[j]));
        } else {
            let node = SymModel { children: Seq::<SymModel>::empty(), ..item };
            assert(sym_wf(node));
            assert(m.len() == l.len() + 1);
            assert(forall|j: int| 0 <= j < i ==> m[j] == l[j]);
            assert(m[i] == node);
            assert(forall|j: int| i < j < m.len() ==> m[j] == l[j - 1]);
            assert forall|a: int, b: int| 0 <= a < b < m.len() implies pos_lt(
                m[a].range.start,
                m[b].range.start,
            ) by {
                if a < i && b > i {
                    assert(pos_lt(l[a].range.start, p));
                    assert(pos_lt(p, l[b - 1].range.start));
                }
            }
            assert(forall|j: int| 0 <= j < m.len() ==> sym_wf(#[trigger] m[j]));
        }
    }
}

/// Recovery changes the set of selection starts in the tree in exactly one
/// way: on success it adds the item's start (which may have been there
/// already) and keeps every other start; nothing else appears or vanishes.
pub proof fn lemma_spec_insert_addrs(l: Seq<SymModel>, item: SymModel, nested: bool)
    requires
        spec_insert(l, item, nested) is Some,
    ensures
        forall|q: Position|
            list_has_start(spec_insert(l, item, nested)->Some_0, q) <==> (list_has_start(l, q)
                || q == item.range.start),
    decreases l,
{
    let p = item.range.start;
    let i = insertion_index(l, p);
    lemma_insertion_index_props(l, p);
    let m = spec_insert(l, item, nested)->Some_0;
    if i < l.len() && l[i].range.start == p {
        assert(sym_has_start(l[i], p));
        assert(list_has_start(l, p));
    } else if i > 0 && pos_lt(item.range.end, l[i - 1].full_range.end) {
        lemma_spec_insert_addrs(l[i - 1].children, item, true);
        let ch = spec_insert(l[i - 1].children, item, true)->Some_0;
        let host = SymModel { children: ch, ..l[i - 1] };
        assert(m == l.update(i - 1, host));
        assert forall|q: Position| list_has_start(m, q) <==> (list_has_start(l, q) || q
            == p) by {
            if list_has_start(m, q) {
                let k = choose|k: int| 0 <= k < m.len() && sym_has_start(#[trigger] m[k], q);
                if k == i - 1 {
                    if host.range.start != q && list_has_start(l[i - 1].children, q) {
                        assert(sym_has_start(l[i - 1], q));
                    }
                } else {
                    assert(m[k] == l[k]);
                    assert(sym_has_start(l[k], q));
                }
            }
            if list_has_start(l, q) {
                let k = choose|k: int| 0 <= k < l.len() && sym_has_start(#[trigger] l[k], q);
                if k == i - 1 {
                    if l[k].range.start != q {
                        assert(list_has_start(l[i - 1].children, q));
                        assert(list_has_start(ch, q));
                    }
                    assert(sym_has_start(m[i - 1], q));
                } else {
                    assert(sym_has_start(m[k], q));
                }
            }
            if q == p {
                assert(list_has_start(ch, p));
                assert(sym_has_start(m[i - 1], p));
            }
        }
    } else {
        let detach = i < l.len() && pos_lt(p, l[i].range.start) && pos_lt(
            l[i].full_range.end,
            item.full_range.end,
        );
        if detach {
            let node = SymModel { children: seq![l[i]], ..item };
            assert(m == l.take(i) + seq![node] + l.skip(i + 1));
            assert forall|q: Position| list_has_start(m, q) <==> (list_has_start(l, q) || q
                == p) by {
                assert(node.children[0] == l[i]);
                if list_has_start(m, q) {
                    let k = choose|k: int| 0 <= k < m.len() && sym_has_start(#[trigger] m[k], q);
                    if k == i {
                        if node.range.start != q {
                            let c = choose|c: int|
                                0 <= c < node.children.len() && sym_has_start(
                                    #[trigger] node.children[c],
                                    q,
                                );
                            assert(sym_has_start(l[i], q));
                        }
                    } else {
                        assert(m[k] == l[k]);
                        assert(sym_has_start(l[k], q));
                    }
                }
                if list_has_start(l, q) {
                    let k = choose|k: int| 0 <= k < l.len() && sym_has_start(#[trigger] l[k], q);
                    if k == i {
                        assert(sym_has_start(node.children[0], q));
                        assert(list_has_start(node.children, q));
                        assert(sym_has_start(m[i], q));
                    } else {
                        assert(m[k] == l[k]);
                        assert(sym_has_start(m[k], q));
                    }
                }
                if q == p {
                    assert(sym_has_start(m[i], p));
                }
            }
        } else {
            let node = SymModel { children: Seq::<SymModel>::empty(), ..item };
            assert(m == l.take(i) + seq![node] + l.skip(i));
            assert forall|q: Position| list_has_start(m, q) <==> (list_has_start(l, q) || q
                == p) by {
                if list_has_start(m, q) {
                    let k = choose|k: int| 0 <= k < m.len() && sym_has_start(#[trigger] m[k], q);
                    if k == i {
                        assert(!list_has_start(node.children, q));
                        assert(q == p);
                    } else if k < i {
                        assert(m[k] == l[k]);
                        assert(sym_has_start(l[k], q));
                    } else {
                        assert(m[k] == l[k - 1]);
                        assert(sym_has_start(l[k - 1], q));
                    }
                }
                if list_has_start(l, q) {
                    let k = choose|k: int| 0 <= k < l.len() && sym_has_start(#[trigger] l[k], q);
                    if k < i {
                        assert(sym_has_start(m[k], q));
                    } else {
                        assert(m[k + 1] == l[k]);
                        assert(sym_has_start(m[k + 1], q));
                    }
                }
                if q == p {
                    assert(sym_has_start(m[i], p));
                }
            }
        }
    }
}

/// `insertion_index` reads only the selection starts of the list.
proof fn lemma_insertion_index_congruence(a: Seq<SymModel>, b: Seq<SymModel>, p: Position)
    requires
        a.len() == b.len(),
        forall|j: int| 0 <= j < a.len() ==> (#[trigger] a[j]).range.start == b[j].range.start,
    ensures
        insertion_index(a, p) == insertion_index(b, p),
    decreases a,
{
    if a.len() > 0 {
        assert(a[0].range.start == b[0].range.start);
        if pos_lt(a[0].range.start, p) {
            let da = a.drop_first();
            let db = b.drop_first();
            assert forall|j: int| 0 <= j < da.len() implies (#[trigger] da[j]).range.start
                == db[j].range.start by {
                assert(da[j] == a[j + 1]);
                assert(db[j] == b[j + 1]);
            }
            lemma_insertion_index_congruence(da, db, p);
        }
    }
}

/// A recovery that succeeded is idempotent: running the same item against
/// the resulting tree succeeds again and changes nothing, because the
/// search now finds the node it inserted (or found) the first time.
pub proof fn lemma_spec_insert_idempotent(l: Seq<SymModel>, item: SymModel, nested: bool)
    requires
        spec_insert(l, item, nested) is Some,
    ensures
        spec_insert(spec_insert(l, item, nested)->Some_0, item, nested) == spec_insert(
            l,
            item,
            nested,
        ),
    decreases l,
{
    let p = item.range.start;
    let i = insertion_index(l, p);
    lemma_insertion_index_props(l, p);
    let m = spec_insert(l, item, nested)->Some_0;
    if i < l.len() && l[i].range.start == p {
        assert(m == l);
    } else if i > 0 && pos_lt(item.range.end, l[i - 1].full_range.end) {
        let ch = spec_insert(l[i - 1].children, item, true)->Some_0;
        let host = SymModel { children: ch, ..l[i - 1] };
        assert(m == l.update(i - 1, host));
        assert forall|j: int| 0 <= j < m.len() implies (#[trigger] m[j]).range.start
            == l[j].range.start by {}
        lemma_insertion_index_congruence(m, l, p);
        assert(insertion_index(m, p) == i);
        lemma_spec_insert_idempotent(l[i - 1].children, item, true);
        assert(spec_insert(ch, item, true) == Option::Some(ch));
        assert(m[i - 1] == host);
        assert(!(i < m.len() && m[i].range.start == p));
        assert(pos_lt(item.range.end, m[i - 1].full_range.end));
        assert(is_host_kind(m[i - 1].kind));
        let m2 = m.update(i - 1, SymModel { children: ch, ..m[i - 1] });
        assert(SymModel { children: ch, ..m[i - 1] } == host);
        assert(m2 =~= m);
        assert(spec_insert(m, item, nested) == Option::Some(m2));
    } else {
        let detach = i < l.len() && pos_lt(p, l[i].range.start) && pos_lt(
            l[i].full_range.end,
            item.full_range.end,
        );
        let node = if detach {
            SymModel { children: seq![l[i]], ..item }
        } else {
            SymModel { children: Seq::<SymModel>::empty(), ..item }
        };
        assert(m[i] == node);
        assert(node.range.start == p);
        assert(forall|j: int| 0 <= j < i ==> m[j] == l[j]);
        lemma_insertion_index_props(m, p);
        let i2 = insertion_index(m, p);
        if i2 < i {
            assert(pos_lt(m[i2].range.start, p));
            assert(!pos_lt(m[i2].range.start, p));
        }
        if i2 > i {
            assert(pos_lt(m[i].range.start, p));
        }
        assert(i2 == i);
        assert(i < m.len() && m[i].range.start == p);
        assert(spec_insert(m, item, nested) == Option::Some(m));
    }
}

/// Recovery refuses an item whose nearest enclosing sibling at the top of
/// the search is no Function or Method: such containers never host hidden
/// symbols.
pub proof fn lemma_recovery_refuses_nonhost(l: Seq<SymModel>, item: SymModel, nested: bool)
    requires
        ({
            let i = insertion_index(l, item.range.start);
            &&& !(i < l.len() && l[i].range.start == item.range.start)
            &&& i > 0
            &&& pos_lt(item.range.end, l[i - 1].full_range.end)
            &&& !is_host_kind(l[i - 1].kind)
        }),
    ensures
        spec_insert(l, item, nested) is None,
{
}

/// Recovery refuses an item that no sibling's body encloses at the top
/// level: an orphan with no valid parent is not inserted.
pub proof fn lemma_recovery_refuses_orphan(l: Seq<SymModel>, item: SymModel)
    requires
        ({
            let i = insertion_index(l, item.range.start);
            &&& !(i < l.len() && l[i].range.start == item.range.start)
            &&& (i == 0 || !pos_lt(item.range.end, l[i - 1].full_range.end))
        }),
    ensures
        spec_insert(l, item, false) is None,
{
}

/// Binary search for the insertion index of `p` in a sorted sibling list.
fn binary_search_start(cells: &Vec<Symbol>, p: &Position) -> (r: usize)
    requires
        siblings_sorted(list_model(cells@)),
    ensures
        r == insertion_index(list_model(cells@), *p),
{
    broadcast use group_list_model;

    let ghost l = list_model(cells@);
    let mut lo: usize = 0;
    let mut hi: usize = cells.len();
    while lo < hi
        invariant
            lo <= hi <= cells.len(),
            l == list_model(cells@),
            siblings_sorted(l),
            cells@.len() == l.len(),
            forall|j: int| 0 <= j < lo ==> pos_lt(l[j].range.start, *p),
            forall|j: int| hi <= j < l.len() ==> !pos_lt(l[j].range.start, *p),
        decreases hi - lo,
    {
        broadcast use group_list_model;

        let mid = lo + (hi - lo) / 2;
        assert(l[mid as int] == sym_model(cells@[mid as int]));
        if cells[mid].range.start.lt(p) {
            lo = mid + 1;
            proof {
                assert forall|j: int| 0 <= j < lo implies pos_lt(l[j].range.start, *p) by {
                    if j < mid {
                        assert(pos_lt(l[j].range.start, l[mid as int].range.start));
                    }
                }
            }
        } else {
            hi = mid;
            proof {
                assert forall|j: int| hi <= j < l.len() implies !pos_lt(
                    l[j].range.start,
                    *p,
                ) by {
                    if j > mid {
                        assert(pos_lt(l[mid as int].range.start, l[j].range.start));
                    }
                }
            }
        }
    }
    proof {
        lemma_insertion_index_props(l, *p);
        lemma_insertion_index_sorted(l, *p);
        let i = insertion_index(l, *p);
        if lo < i {
            assert(pos_lt(l[lo as int].range.start, *p));
        }
        if i < lo {
            assert(pos_lt(l[i].range.start, *p));
        }
    }
    lo
}

/// Synthesizes the missing symbol named by `item` into the top-level sibling
/// list `cells`, exactly as `spec_insert` states; reports whether the tree
/// now (or already) holds a node with the item's selection start reachable
/// through enclosing Function/Method hosts.
pub fn try_insert_symbol(cells: &mut Vec<Symbol>, item: &CallHierarchyItem) -> (r: bool)
    requires
        list_wf(list_model(old(cells)@)),
    ensures
        r == (spec_insert(list_model(old(cells)@), item_model(*item), false) is Some),
        match spec_insert(list_model(old(cells)@), item_model(*item), false) {
            Option::Some(m) => list_model(final(cells)@) == m,
            Option::None => list_model(final(cells)@) == list_model(old(cells)@),
        },
        list_wf(list_model(final(cells)@)),
{
    let r = insert_rec(cells, item, false);
    proof {
        if spec_insert(list_model(old(cells)@), item_model(*item), false) is Some {
            lemma_spec_insert_wf(list_model(old(cells)@), item_model(*item), false);
        }
    }
    r
}

fn insert_rec(cells: &mut Vec<Symbol>, item: &CallHierarchyItem, nested: bool) -> (r: bool)
    requires
        list_wf(list_model(old(cells)@)),
    ensures
        r == (spec_insert(list_model(old(cells)@), item_model(*item), nested) is Some),
        match spec_insert(list_model(old(cells)@), item_model(*item), nested) {
            Option::Some(m) => list_model(final(cells)@) == m,
            Option::None => list_model(final(cells)@) == list_model(old(cells)@),
        },
    decreases old(cells)@,
{
    broadcast use group_list_model;

    let ghost l = list_model(old(cells)@);
    let ghost im = item_model(*item);
    let p = item.selection_range.start;
    let i = binary_search_start(cells, &p);
    proof {
        lemma_insertion_index_props(l, p);
        lemma_insertion_index_sorted(l, p);
    }
    if i < cells.len() && cells[i].range.start == p {
        return true;
    }
    if i > 0 {
        let enclosed = item.selection_range.end.lt(&cells[i - 1].full_range.end);
        if enclosed {
            let is_host = cells[i - 1].kind == SymbolKind::Function || cells[i - 1].kind
                == SymbolKind::Method;
            if !is_host {
                return false;
            }
            assert(list_wf(l[i - 1].children)) by {
                assert(sym_wf(l[i - 1]));
            }
            proof {
                broadcast use vstd::seq::axiom_seq_index_decreases;

                assert(l[i - 1].children == list_model(old(cells)@[i - 1].children@));
            }
            let host = &mut cells[i - 1];
            let rr = insert_rec(&mut host.children, item, true);
            proof {
                if spec_insert(l[i - 1].children, im, true) is Some {
                    let ch = spec_insert(l[i - 1].children, im, true)->Some_0;
                    assert(list_model(final(cells)@) =~~= l.update(
                        i - 1,
                        SymModel { children: ch, ..l[i - 1] },
                    ));
                } else {
                    assert(list_model(final(cells)@) =~~= l);
                }
            }
            return rr;
        }
    }
    if nested {
        let mut children: Vec<Symbol> = Vec::new();
        let mut detached = false;
        if i < cells.len() {
            let detach = p.lt(&cells[i].range.start) && cells[i].full_range.end.lt(
                &item.range.end,
            );
            if detach {
                let moved = cells.remove(i);
                children.push(moved);
                detached = true;
            }
        }
        let node = Symbol {
            name: item.name.clone(),
            kind: item.kind,
            range: item.selection_range,
            full_range: item.range,
            children,
        };
        cells.insert(i, node);
        proof {
            if detached {
                let nodem = SymModel { children: seq![l[i as int]], ..im };
                let target = l.take(i as int) + seq![nodem] + l.skip(i as int + 1);
                assert(cells@ =~= old(cells)@.update(i as int, node));
                assert(node.children@ =~= seq![old(cells)@[i as int]]);
                lemma_list_model_singleton(old(cells)@[i as int]);
                assert(sym_model(node) =~~= nodem);
                assert(list_model(cells@).len() == target.len());
                assert forall|j: int| 0 <= j < target.len() implies list_model(cells@)[j]
                    =~~= target[j] by {
                    if j < i {
                    } else if j == i {
                    } else {
                    }
                }
                assert(list_model(cells@) =~~= target);
            } else {
                let nodem = SymModel { children: Seq::<SymModel>::empty(), ..im };
                let target = l.take(i as int) + seq![nodem] + l.skip(i as int);
                assert(cells@ =~= old(cells)@.insert(i as int, node));
                assert(node.children@ =~= Seq::<Symbol>::empty());
                assert(sym_model(node) =~~= nodem);
                assert(list_model(cells@).len() == target.len());
                assert forall|j: int| 0 <= j < target.len() implies list_model(cells@)[j]
                    =~~= target[j] by {
                    if j < i {
                    } else if j == i {
                    } else {
                        assert(cells@[j] == old(cells)@[j - 1]);
                    }
                }
                assert(list_model(cells@) =~~= target);
            }
        }
        return true;
    }
    false
}

} // verus!
