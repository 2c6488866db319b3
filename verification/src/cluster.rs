//! Directory clustering: groups the registered files into a nested tree of
//! directory groups for rendering. The hierarchy is built from path
//! segments — each group carries one segment — so nesting mirrors the
//! directory tree exactly, with the workspace root stripped; files lying
//! directly under the root join no group.

use vstd::prelude::*;

use crate::generator::GraphGenerator;
use crate::graph::{File, Subgraph};
use crate::lang::str_eq;

verus! {

/// The mathematical model of a directory group.
#[verifier::ext_equal]
pub ghost struct SubgraphModel {
    pub title: Seq<char>,
    pub nodes: Seq<u32>,
    pub subgraphs: Seq<SubgraphModel>,
}

pub open spec fn sg_model(g: Subgraph) -> SubgraphModel
    decreases g,
{
    SubgraphModel {
        title: g.title@,
        nodes: g.nodes@,
        subgraphs: sg_list_model(g.subgraphs@),
    }
}

pub open spec fn sg_list_model(l: Seq<Subgraph>) -> Seq<SubgraphModel>
    decreases l,
{
    if l.len() == 0 {
        Seq::empty()
    } else {
        sg_list_model(l.drop_last()).push(sg_model(l.last()))
    }
}

pub broadcast proof fn lemma_sg_list_model_len(l: Seq<Subgraph>)
    ensures
        (#[trigger] sg_list_model(l)).len() == l.len(),
    decreases l,
{
    if l.len() > 0 {
        lemma_sg_list_model_len(l.drop_last());
    }
}

pub broadcast proof fn lemma_sg_list_model_index(l: Seq<Subgraph>, i: int)
    requires
        0 <= i < l.len(),
    ensures
        #[trigger] sg_list_model(l)[i] == sg_model(l[i]),
    decreases l,
{
    lemma_sg_list_model_len(l);
    if l.len() > 0 && i < l.len() - 1 {
        lemma_sg_list_model_index(l.drop_last(), i);
    }
}

pub broadcast group group_sg_list_model {
    lemma_sg_list_model_len,
    lemma_sg_list_model_index,
}

/// Strict lexicographic order on character sequences.
pub open spec fn str_lt(a: Seq<char>, b: Seq<char>) -> bool
    decreases a.len(),
{
    if b.len() == 0 {
        false
    } else if a.len() == 0 {
        true
    } else if (a[0] as u32) < (b[0] as u32) {
        true
    } else if a[0] == b[0] {
        str_lt(a.drop_first(), b.drop_first())
    } else {
        false
    }
}

/// The index of the last `/` in `s`, or `-1` if there is none.
pub open spec fn last_slash(s: Seq<char>) -> int
    decreases s.len(),
{
    if s.len() == 0 {
        -1
    } else if s.last() == '/' {
        s.len() - 1
    } else {
        last_slash(s.drop_last())
    }
}

/// The directory part of a path: everything before the last `/`, empty when
/// the path has no separator.
pub open spec fn dir_of(s: Seq<char>) -> Seq<char> {
    if last_slash(s) < 0 {
        Seq::empty()
    } else {
        s.take(last_slash(s))
    }
}

/// The directory relative to the root: the root itself becomes empty, a
/// proper subdirectory loses the `root/` prefix, anything else is kept.
pub open spec fn spec_strip_root(dir: Seq<char>, root: Seq<char>) -> Seq<char> {
    if dir == root {
        Seq::empty()
    } else if dir.len() > root.len() + 1 && dir.take(root.len() as int) == root && dir[root.len() as int]
        == '/' {
        dir.skip(root.len() as int + 1)
    } else {
        dir
    }
}

/// The index of the first `/` in `s`, or the length if there is none.
pub open spec fn first_slash(s: Seq<char>) -> int
    decreases s.len(),
{
    if s.len() == 0 {
        0
    } else if s[0] == '/' {
        0
    } else {
        1 + first_slash(s.drop_first())
    }
}

pub proof fn lemma_first_slash(s: Seq<char>)
    ensures
        0 <= first_slash(s) <= s.len(),
    decreases s.len(),
{
    if s.len() > 0 && s[0] != '/' {
        lemma_first_slash(s.drop_first());
    }
}

/// A non-empty directory path split on `/` into its segments.
pub open spec fn spec_segments(s: Seq<char>) -> Seq<Seq<char>>
    decreases s.len(),
{
    if s.len() == 0 {
        Seq::empty()
    } else {
        let i = first_slash(s);
        if i >= s.len() {
            seq![s]
        } else {
            seq![s.take(i)] + spec_segments_rest(s.skip(i + 1))
        }
    }
}

/// The tail of a split; an empty remainder still yields one empty segment,
/// so `a//b` and a trailing `/` keep their (empty) segments.
pub open spec fn spec_segments_rest(s: Seq<char>) -> Seq<Seq<char>>
    decreases s.len() via spec_segments_rest_decreases
{
    let i = first_slash(s);
    if i >= s.len() {
        seq![s]
    } else {
        seq![s.take(i)] + spec_segments_rest(s.skip(i + 1))
    }
}

#[via_fn]
proof fn spec_segments_rest_decreases(s: Seq<char>) {
    lemma_first_slash(s);
}

/// The first group at this level carrying this title; the length if none.
pub open spec fn group_index(groups: Seq<SubgraphModel>, title: Seq<char>) -> int
    decreases groups,
{
    if groups.len() == 0 {
        0
    } else if groups[0].title == title {
        0
    } else {
        1 + group_index(groups.drop_first(), title)
    }
}

pub proof fn lemma_group_index(groups: Seq<SubgraphModel>, title: Seq<char>)
    ensures
        0 <= group_index(groups, title) <= groups.len(),
        forall|j: int|
            0 <= j < group_index(groups, title) ==> (#[trigger] groups[j]).title != title,
        group_index(groups, title) < groups.len() ==> groups[group_index(groups, title)].title
            == title,
    decreases groups,
{
    if groups.len() > 0 && groups[0].title != title {
        let df = groups.drop_first();
        lemma_group_index(df, title);
        assert forall|j: int| 0 <= j < group_index(groups, title) implies (
        #[trigger] groups[j]).title != title by {
            if j > 0 {
                assert(groups[j] == df[j - 1]);
            }
        }
        if group_index(groups, title) < groups.len() {
            assert(groups[group_index(groups, title)] == df[group_index(df, title)]);
        }
    }
}

/// A fresh chain of groups for segments no existing group covers: one group
/// per segment, the member ids at the innermost.
pub open spec fn spec_chain(segs: Seq<Seq<char>>, ids: Seq<u32>) -> SubgraphModel
    decreases segs.len(),
{
    if segs.len() <= 1 {
        SubgraphModel {
            title: if segs.len() == 1 {
                segs[0]
            } else {
                Seq::empty()
            },
            nodes: ids,
            subgraphs: Seq::empty(),
        }
    } else {
        SubgraphModel {
            title: segs[0],
            nodes: Seq::empty(),
            subgraphs: seq![spec_chain(segs.drop_first(), ids)],
        }
    }
}

/// Merging one directory into the group forest: descend along existing
/// groups segment by segment, append the ids at the final segment's group,
/// and open a fresh chain where no group matches.
pub open spec fn spec_trie_insert(
    groups: Seq<SubgraphModel>,
    segs: Seq<Seq<char>>,
    ids: Seq<u32>,
) -> Seq<SubgraphModel>
    decreases segs.len(),
{
    if segs.len() == 0 {
        groups
    } else {
        let gi = group_index(groups, segs[0]);
        if gi >= groups.len() {
            groups.push(spec_chain(segs, ids))
        } else if segs.len() == 1 {
            groups.update(gi, SubgraphModel { nodes: groups[gi].nodes + ids, ..groups[gi] })
        } else {
            groups.update(
                gi,
                SubgraphModel {
                    subgraphs: spec_trie_insert(groups[gi].subgraphs, segs.drop_first(), ids),
                    ..groups[gi]
                },
            )
        }
    }
}

/// Inserting a directory into the ascending duplicate-free processing list.
pub open spec fn spec_insert_dir(dirs: Seq<Seq<char>>, d: Seq<char>) -> Seq<Seq<char>>
    decreases dirs,
{
    if dirs.len() == 0 {
        seq![d]
    } else if dirs[0] == d {
        dirs
    } else if str_lt(dirs[0], d) {
        seq![dirs[0]] + spec_insert_dir(dirs.drop_first(), d)
    } else {
        seq![d] + dirs
    }
}

/// The ascending duplicate-free list of the files' relative directories.
pub open spec fn spec_collect_dirs(files: Seq<File>, root: Seq<char>) -> Seq<Seq<char>>
    decreases files,
{
    if files.len() == 0 {
        Seq::empty()
    } else {
        spec_insert_dir(
            spec_collect_dirs(files.drop_last(), root),
            spec_strip_root(dir_of(files.last().path@), root),
        )
    }
}

/// The ids of the files lying directly in this relative directory, in
/// registration order.
pub open spec fn spec_ids_in_dir(files: Seq<File>, root: Seq<char>, d: Seq<char>) -> Seq<u32>
    decreases files,
{
    if files.len() == 0 {
        Seq::empty()
    } else {
        let rest = spec_ids_in_dir(files.drop_last(), root, d);
        if spec_strip_root(dir_of(files.last().path@), root) == d {
            rest.push(files.last().id)
        } else {
            rest
        }
    }
}

/// The whole clustering: every relative directory in ascending order, the
/// empty one (files directly under the root) forming no group, each other
/// one merged into the forest with its member ids.
pub open spec fn spec_cluster_dirs(
    files: Seq<File>,
    root: Seq<char>,
    dirs: Seq<Seq<char>>,
) -> Seq<SubgraphModel>
    decreases dirs,
{
    if dirs.len() == 0 {
        Seq::empty()
    } else {
        let prev = spec_cluster_dirs(files, root, dirs.drop_last());
        if dirs.last().len() == 0 {
            prev
        } else {
            spec_trie_insert(prev, spec_segments(dirs.last()), spec_ids_in_dir(files, root, dirs.last()))
        }
    }
}

pub open spec fn spec_subgraphs(files: Seq<File>, root: Seq<char>) -> Seq<SubgraphModel> {
    spec_cluster_dirs(files, root, spec_collect_dirs(files, root))
}

/// Decides the strict lexicographic order.
pub fn str_lt_exec(a: &str, b: &str) -> (r: bool)
    ensures
        r == str_lt(a@, b@),
{
    let an = a.unicode_len();
    let bn = b.unicode_len();
    let mut i: usize = 0;
    proof {
        assert(a@.skip(0) =~= a@);
        assert(b@.skip(0) =~= b@);
    }
    loop
        invariant
            an == a@.len(),
            bn == b@.len(),
            i <= an,
            i <= bn,
            str_lt(a@, b@) == str_lt(a@.skip(i as int), b@.skip(i as int)),
        decreases an + bn - 2 * i,
    {
        if i >= bn {
            proof {
                assert(b@.skip(i as int).len() == 0);
            }
            return false;
        }
        if i >= an {
            proof {
                assert(a@.skip(i as int).len() == 0);
                assert(b@.skip(i as int).len() > 0);
            }
            return true;
        }
        let ca = a.get_char(i);
        let cb = b.get_char(i);
        proof {
            assert(a@.skip(i as int)[0] == a@[i as int]);
            assert(b@.skip(i as int)[0] == b@[i as int]);
            assert(a@.skip(i as int).drop_first() =~= a@.skip(i as int + 1));
            assert(b@.skip(i as int).drop_first() =~= b@.skip(i as int + 1));
        }
        if (ca as u32) < (cb as u32) {
            return true;
        }
        if ca != cb {
            return false;
        }
        i = i + 1;
    }
}

/// The directory part of the path, before the last `/`.
pub fn dir_of_exec(s: &str) -> (r: String)
    ensures
        r@ == dir_of(s@),
{
    let n = s.unicode_len();
    let mut k: usize = n;
    proof {
        assert(s@.take(n as int) =~= s@);
    }
    loop
        invariant
            n == s@.len(),
            k <= n,
            last_slash(s@) == last_slash(s@.take(k as int)),
        decreases k,
    {
        if k == 0 {
            proof {
                assert(s@.take(0).len() == 0);
            }
            return String::new();
        }
        let c = s.get_char(k - 1);
        proof {
            assert(s@.take(k as int).last() == s@[k as int - 1]);
            assert(s@.take(k as int).drop_last() =~= s@.take(k as int - 1));
        }
        if c == '/' {
            proof {
                assert(last_slash(s@) == k - 1);
            }
            return s.substring_char(0, k - 1).to_owned();
        }
        k = k - 1;
    }
}

/// The directory relative to the root.
pub fn strip_root_exec(dir: &str, root: &str) -> (r: String)
    ensures
        r@ == spec_strip_root(dir@, root@),
{
    if str_eq(dir, root) {
        return String::new();
    }
    let dn = dir.unicode_len();
    let rn = root.unicode_len();
    if rn < dn && dn - rn > 1 && dir.get_char(rn) == '/' {
        let prefix = dir.substring_char(0, rn);
        if str_eq(prefix, root) {
            return dir.substring_char(rn + 1, dn).to_owned();
        }
    }
    dir.to_owned()
}

/// The index of the first `/`, or the length if there is none.
fn find_first_slash(s: &str) -> (r: usize)
    ensures
        r as int == first_slash(s@),
{
    proof {
        lemma_first_slash(s@);
    }
    let n = s.unicode_len();
    let mut i: usize = 0;
    while i < n
        invariant
            n == s@.len(),
            i <= n,
            forall|j: int| 0 <= j < i ==> s@[j] != '/',
            first_slash(s@) >= i,
        decreases n - i,
    {
        if s.get_char(i) == '/' {
            proof {
                lemma_first_slash_char(s@);
                if first_slash(s@) > i {
                    assert(s@[i as int] != '/');
                }
            }
            return i;
        }
        proof {
            lemma_first_slash_step(s@, i as int);
        }
        i = i + 1;
    }
    proof {
        lemma_first_slash_char(s@);
        if first_slash(s@) < n {
            assert(s@[first_slash(s@)] == '/');
        }
    }
    n
}

/// Splits a non-empty relative directory into its segments.
pub fn segments_exec(s: &str) -> (r: Vec<String>)
    requires
        s@.len() > 0,
    ensures
        r@.len() == spec_segments(s@).len(),
        forall|j: int| 0 <= j < r@.len() ==> (#[trigger] r@[j])@ == spec_segments(s@)[j],
        r@.len() > 0,
{
    let rest = segments_rest_exec(s);
    proof {
        assert(spec_segments(s@) == spec_segments_rest(s@));
    }
    rest
}

/// Splits on `/`; an empty remainder is one empty segment, so doubled or
/// trailing separators keep their (empty) segments.
fn segments_rest_exec(s: &str) -> (r: Vec<String>)
    ensures
        r@.len() == spec_segments_rest(s@).len(),
        forall|j: int| 0 <= j < r@.len() ==> (#[trigger] r@[j])@ == spec_segments_rest(s@)[j],
        r@.len() > 0,
    decreases s@.len(),
{
    let n = s.unicode_len();
    let i = find_first_slash(s);
    proof {
        lemma_first_slash(s@);
    }
    if i >= n {
        let mut out: Vec<String> = Vec::new();
        out.push(s.to_owned());
        proof {
            assert(spec_segments_rest(s@) =~= seq![s@]);
        }
        out
    } else {
        let head = s.substring_char(0, i).to_owned();
        let tail = s.substring_char(i + 1, n);
        let mut out: Vec<String> = Vec::new();
        out.push(head);
        let rest = segments_rest_exec(tail);
        let m = rest.len();
        let ghost restseq = rest@;
        let rest_m = rest;
        let mut j: usize = 0;
        while j < m
            invariant
                m == restseq.len(),
                rest_m@ == restseq,
                j <= m,
                out@.len() == 1 + j,
                out@[0]@ == s@.take(i as int),
                forall|t: int| 1 <= t <= j ==> (#[trigger] out@[t])@ == restseq[t - 1]@,
            decreases m - j,
        {
            let x = rest_m[j].clone();
            out.push(x);
            j = j + 1;
        }
        proof {
            assert(spec_segments_rest(s@) == seq![s@.take(i as int)] + spec_segments_rest(
                s@.skip(i as int + 1),
            ));
            assert(tail@ == s@.skip(i as int + 1));
            assert forall|t: int| 0 <= t < out@.len() implies (#[trigger] out@[t])@
                == spec_segments_rest(s@)[t] by {
                if t == 0 {
                    assert((seq![s@.take(i as int)] + spec_segments_rest(s@.skip(i as int + 1)))[0]
                        == s@.take(i as int));
                } else {
                    assert((seq![s@.take(i as int)] + spec_segments_rest(s@.skip(i as int + 1)))[t]
                        == spec_segments_rest(s@.skip(i as int + 1))[t - 1]);
                }
            }
        }
        out
    }
}

/// `first_slash` walks over non-separator characters one at a time.
proof fn lemma_first_slash_step(s: Seq<char>, i: int)
    requires
        0 <= i < s.len(),
        forall|j: int| 0 <= j <= i ==> s[j] != '/',
    ensures
        first_slash(s) > i,
    decreases i,
{
    if i == 0 {
        lemma_first_slash(s.drop_first());
    } else {
        assert forall|j: int| 0 <= j <= i - 1 implies s.drop_first()[j] != '/' by {
            assert(s.drop_first()[j] == s[j + 1]);
        }
        lemma_first_slash_step(s.drop_first(), i - 1);
    }
}

/// Everything before `first_slash` is no separator; the character at it, if
/// any, is one.
proof fn lemma_first_slash_char(s: Seq<char>)
    ensures
        forall|j: int| 0 <= j < first_slash(s) ==> s[j] != '/',
        first_slash(s) < s.len() ==> s[first_slash(s)] == '/',
        0 <= first_slash(s) <= s.len(),
    decreases s.len(),
{
    if s.len() > 0 && s[0] != '/' {
        let df = s.drop_first();
        lemma_first_slash_char(df);
        assert forall|j: int| 0 <= j < first_slash(s) implies s[j] != '/' by {
            if j > 0 {
                assert(s[j] == df[j - 1]);
            }
        }
        if first_slash(s) < s.len() {
            assert(s[first_slash(s)] == df[first_slash(df)]);
        }
    }
}

/// The views of a list of strings.
pub open spec fn views_of(l: Seq<String>) -> Seq<Seq<char>> {
    l.map(|i: int, s: String| s@)
}

/// The model of a one-element group list.
pub proof fn lemma_sg_list_model_singleton(g: Subgraph)
    ensures
        sg_list_model(seq![g]) =~= seq![sg_model(g)],
{
    reveal_with_fuel(sg_list_model, 2);
    assert(seq![g].len() == 1);
    assert(seq![g].drop_last() =~= Seq::<Subgraph>::empty());
    assert(sg_list_model(Seq::<Subgraph>::empty()) =~= Seq::<SubgraphModel>::empty());
    assert(seq![g].last() == g);
    assert(sg_list_model(seq![g]) =~= sg_list_model(Seq::<Subgraph>::empty()).push(sg_model(g)));
}

/// Builds the fresh chain of groups for the segments from `from` on.
fn build_chain(segs: &Vec<String>, from: usize, ids: Vec<u32>) -> (r: Subgraph)
    requires
        from < segs@.len(),
    ensures
        sg_model(r) == spec_chain(views_of(segs@).skip(from as int), ids@),
    decreases segs@.len() - from,
{
    let ghost tail = views_of(segs@).skip(from as int);
    if from == segs.len() - 1 {
        let r = Subgraph { title: segs[from].clone(), nodes: ids, subgraphs: Vec::new() };
        proof {
            assert(tail.len() == 1);
            assert(tail[0] == segs@[from as int]@);
            assert(sg_list_model(Seq::<Subgraph>::empty()) =~= Seq::<SubgraphModel>::empty());
            assert(sg_model(r) =~~= spec_chain(tail, ids@));
        }
        r
    } else {
        let child = build_chain(segs, from + 1, ids);
        let mut subs: Vec<Subgraph> = Vec::new();
        subs.push(child);
        let r = Subgraph { title: segs[from].clone(), nodes: Vec::new(), subgraphs: subs };
        proof {
            lemma_sg_list_model_singleton(child);
            assert(tail[0] == segs@[from as int]@);
            assert(tail.drop_first() =~= views_of(segs@).skip(from as int + 1));
            assert(sg_model(r) =~~= spec_chain(tail, ids@));
        }
        r
    }
}

/// Merges the segments from `from` on into the group forest, exactly as
/// `spec_trie_insert` states.
#[verifier::loop_isolation(false)]
fn trie_insert(groups: &mut Vec<Subgraph>, segs: &Vec<String>, from: usize, ids: Vec<u32>)
    requires
        from < segs@.len(),
    ensures
        sg_list_model(final(groups)@) == spec_trie_insert(
            sg_list_model(old(groups)@),
            views_of(segs@).skip(from as int),
            ids@,
        ),
    decreases segs@.len() - from,
{
    broadcast use group_sg_list_model;

    let ghost gm = sg_list_model(old(groups)@);
    let ghost tail = views_of(segs@).skip(from as int);
    proof {
        assert(tail[0] == segs@[from as int]@);
        lemma_group_index(gm, tail[0]);
    }
    let n = groups.len();
    let mut gi: usize = 0;
    let mut found = false;
    while gi < n && !found
        invariant
            n == groups@.len(),
            groups@ == old(groups)@,
            gi <= n,
            forall|j: int| 0 <= j < gi ==> (#[trigger] gm[j]).title != tail[0],
            found ==> gi < n && gm[gi as int].title == tail[0],
        decreases n - gi + (if found { 0int } else { 1int }),
    {
        if str_eq(groups[gi].title.as_str(), segs[from].as_str()) {
            found = true;
        } else {
            gi = gi + 1;
        }
    }
    if !found {
        proof {
            if group_index(gm, tail[0]) < gm.len() {
                assert(gm[group_index(gm, tail[0])].title != tail[0]);
            }
        }
        let chain = build_chain(segs, from, ids);
        groups.push(chain);
        proof {
            assert(sg_list_model(groups@) =~~= gm.push(spec_chain(tail, ids@)));
        }
        return ;
    }
    proof {
        let idx = group_index(gm, tail[0]);
        if idx < gi as int {
            assert(gm[idx].title != tail[0]);
        }
        if idx > gi as int {
            assert(gm[gi as int].title != tail[0]);
        }
        assert(idx == gi as int);
    }
    if from == segs.len() - 1 {
        proof {
            assert(tail.len() == 1);
        }
        let mut ids_m = ids;
        let ghost idsv = ids_m@;
        let entry = &mut groups[gi];
        entry.nodes.append(&mut ids_m);
        proof {
            assert(sg_list_model(groups@) =~~= gm.update(
                gi as int,
                SubgraphModel { nodes: gm[gi as int].nodes + idsv, ..gm[gi as int] },
            ));
        }
    } else {
        let entry = &mut groups[gi];
        trie_insert(&mut entry.subgraphs, segs, from + 1, ids);
        proof {
            assert(tail.drop_first() =~= views_of(segs@).skip(from as int + 1));
            assert(gm[gi as int].subgraphs == sg_list_model(old(groups)@[gi as int].subgraphs@));
            assert(sg_list_model(groups@) =~~= gm.update(
                gi as int,
                SubgraphModel {
                    subgraphs: spec_trie_insert(gm[gi as int].subgraphs, tail.drop_first(), ids@),
                    ..gm[gi as int]
                },
            ));
        }
    }
}

/// Inserting one directory keeps the processing list ascending and free of
/// duplicates; everything already below the new entry stays in place.
proof fn lemma_insert_dir_split(l: Seq<Seq<char>>, d: Seq<char>, i: int)
    requires
        0 <= i <= l.len(),
        forall|j: int| 0 <= j < i ==> str_lt(#[trigger] l[j], d) && l[j] != d,
    ensures
        spec_insert_dir(l, d) == l.take(i) + spec_insert_dir(l.skip(i), d),
    decreases i,
{
    if i == 0 {
        assert(l.take(0) =~= Seq::<Seq<char>>::empty());
        assert(l.skip(0) =~= l);
        assert(l.take(0) + spec_insert_dir(l, d) =~= spec_insert_dir(l, d));
    } else {
        let df = l.drop_first();
        assert forall|j: int| 0 <= j < i - 1 implies str_lt(#[trigger] df[j], d) && df[j]
            != d by {
            assert(df[j] == l[j + 1]);
        }
        lemma_insert_dir_split(df, d, i - 1);
        assert(df.take(i - 1) =~= l.take(i).drop_first());
        assert(df.skip(i - 1) =~= l.skip(i));
        assert(spec_insert_dir(l, d) == seq![l[0]] + spec_insert_dir(df, d));
        assert(seq![l[0]] + (df.take(i - 1) + spec_insert_dir(l.skip(i), d)) =~= l.take(i)
            + spec_insert_dir(l.skip(i), d));
    }
}

/// Inserts one directory into the ascending duplicate-free processing list,
/// exactly as `spec_insert_dir` states.
#[verifier::loop_isolation(false)]
fn insert_dir_exec(dirs: &mut Vec<String>, d: String)
    ensures
        views_of(final(dirs)@) == spec_insert_dir(views_of(old(dirs)@), d@),
{
    let ghost dv = views_of(old(dirs)@);
    let n = dirs.len();
    let mut i: usize = 0;
    while i < n
        invariant
            n == dirs@.len(),
            dirs@ == old(dirs)@,
            i <= n,
            forall|j: int| 0 <= j < i ==> str_lt(#[trigger] dv[j], d@) && dv[j] != d@,
        decreases n - i,
    {
        if str_eq(dirs[i].as_str(), d.as_str()) {
            proof {
                lemma_insert_dir_split(dv, d@, i as int);
                assert(dv.skip(i as int)[0] == dv[i as int]);
                assert(spec_insert_dir(dv.skip(i as int), d@) == dv.skip(i as int));
                assert(dv.take(i as int) + dv.skip(i as int) =~= dv);
            }
            return ;
        }
        if !str_lt_exec(dirs[i].as_str(), d.as_str()) {
            dirs.insert(i, d);
            proof {
                lemma_insert_dir_split(dv, d@, i as int);
                assert(dv.skip(i as int)[0] == dv[i as int]);
                assert(spec_insert_dir(dv.skip(i as int), d@) == seq![d@] + dv.skip(i as int));
                assert(views_of(dirs@) =~= dv.take(i as int) + (seq![d@] + dv.skip(i as int)));
            }
            return ;
        }
        i = i + 1;
    }
    dirs.push(d);
    proof {
        lemma_insert_dir_split(dv, d@, n as int);
        assert(dv.skip(n as int) =~= Seq::<Seq<char>>::empty());
        assert(spec_insert_dir(dv.skip(n as int), d@) =~= seq![d@]);
        assert(views_of(dirs@) =~= dv.take(n as int) + seq![d@]);
    }
}

/// The ids of the files lying directly in this relative directory.
#[verifier::loop_isolation(false)]
fn ids_in_dir_exec(files: &Vec<File>, root: &String, d: &String) -> (r: Vec<u32>)
    ensures
        r@ == spec_ids_in_dir(files@, root@, d@),
{
    let mut out: Vec<u32> = Vec::new();
    let n = files.len();
    for k in 0..n
        invariant
            n == files@.len(),
            out@ == spec_ids_in_dir(files@.take(k as int), root@, d@),
    {
        let dir = dir_of_exec(files[k].path.as_str());
        let rel = strip_root_exec(dir.as_str(), root.as_str());
        if str_eq(rel.as_str(), d.as_str()) {
            out.push(files[k].id);
        }
        proof {
            assert(files@.take(k as int + 1).drop_last() =~= files@.take(k as int));
            assert(files@.take(k as int + 1).last() == files@[k as int]);
        }
    }
    proof {
        assert(files@.take(n as int) =~= files@);
    }
    out
}

impl GraphGenerator {
    /// The directory groups of the registered files: every relative
    /// directory in ascending order, merged segment by segment into a
    /// forest whose nesting mirrors the directory tree; files directly
    /// under the root join no group.
    #[verifier::loop_isolation(false)]
    pub fn subgraphs(&self) -> (r: Vec<Subgraph>)
        ensures
            sg_list_model(r@) == spec_subgraphs(self.files@, self.root@),
    {
        let mut dirs: Vec<String> = Vec::new();
        let nf = self.files.len();
        proof {
            assert(self.files@.take(0) =~= Seq::<File>::empty());
            assert(views_of(dirs@) =~= spec_collect_dirs(self.files@.take(0), self.root@));
        }
        for k in 0..nf
            invariant
                nf == self.files@.len(),
                views_of(dirs@) == spec_collect_dirs(self.files@.take(k as int), self.root@),
        {
            let dir = dir_of_exec(self.files[k].path.as_str());
            let rel = strip_root_exec(dir.as_str(), self.root.as_str());
            insert_dir_exec(&mut dirs, rel);
            proof {
                assert(self.files@.take(k as int + 1).drop_last() =~= self.files@.take(k as int));
                assert(self.files@.take(k as int + 1).last() == self.files@[k as int]);
            }
        }
        proof {
            assert(self.files@.take(nf as int) =~= self.files@);
        }
        let ghost dirviews = views_of(dirs@);
        let mut groups: Vec<Subgraph> = Vec::new();
        let nd = dirs.len();
        proof {
            assert(dirviews.take(0) =~= Seq::<Seq<char>>::empty());
            assert(sg_list_model(groups@) =~= spec_cluster_dirs(
                self.files@,
                self.root@,
                dirviews.take(0),
            ));
        }
        for di in 0..nd
            invariant
                nd == dirs@.len(),
                sg_list_model(groups@) == spec_cluster_dirs(
                    self.files@,
                    self.root@,
                    dirviews.take(di as int),
                ),
        {
            if !dirs[di].as_str().is_empty() {
                let ids = ids_in_dir_exec(&self.files, &self.root, &dirs[di]);
                let segs = segments_exec(dirs[di].as_str());
                proof {
                    assert(views_of(segs@) =~= spec_segments(dirs@[di as int]@));
                    assert(views_of(segs@).skip(0) =~= views_of(segs@));
                }
                trie_insert(&mut groups, &segs, 0, ids);
            }
            proof {
                assert(dirviews.take(di as int + 1).drop_last() =~= dirviews.take(di as int));
                assert(dirviews.take(di as int + 1).last() == dirviews[di as int]);
            }
        }
        proof {
            assert(dirviews.take(nd as int) =~= dirviews);
        }
        groups
    }
}

} // verus!
