//! The arena: an append-only collection of nodes referenced by index,
//! with parent back-links, ancestry traversal and top-k selection.

use vstd::prelude::*;
use vstd::string::StringExecFns;

use crate::file_analyzer::{Node, NodeView};
use crate::selection::{
    entry_ok, file_count, insert_sorted, is_file_at, key_lt, lemma_file_count_step,
    lemma_top_k_unique, min_int, sel_has_index, selection_ok, sorted_desc,
};

verus! {

/// Data structure where elements are all in a single vector, similar to a
/// graph. Every structural link is an integer index into that vector.
///
/// Each node carries the index of its parent directly; `relation_parents`
/// additionally records, in order of first appearance, each index that has
/// at least one child.
pub struct Graph {
    elements: Vec<Node>,
    relation_parents: Vec<usize>,
}

impl View for Graph {
    type V = Seq<NodeView>;

    closed spec fn view(&self) -> Seq<NodeView> {
        self.elements@.map_values(|n: Node| n@)
    }
}

/// Does some node of `s` name `q` as its parent?
pub open spec fn has_child(s: Seq<NodeView>, q: usize) -> bool {
    exists|i: int| 0 <= i < s.len() && #[trigger] s[i].parent == Some(q)
}

impl Graph {
    /// The indices recorded as having children, in order of first appearance.
    pub closed spec fn relation_parents(self) -> Seq<usize> {
        self.relation_parents@
    }

    /// Well-formedness: parent links point strictly backwards (so the arena
    /// is a forest encoded as a flat sequence, with no cycles), and
    /// `relation_parents` lists exactly the indices that have a child,
    /// each once.
    pub open spec fn wf(self) -> bool {
        graph_wf_parts(self@, self.relation_parents())
    }

    /// Creates a new empty Graph.
    pub fn new() -> (g: Graph)
        ensures
            g@ == Seq::<NodeView>::empty(),
            g.relation_parents() == Seq::<usize>::empty(),
            g.wf(),
    {
        let g = Graph { elements: Vec::new(), relation_parents: Vec::new() };
        proof {
            assert(g@ =~= Seq::<NodeView>::empty());
            assert(g.relation_parents() =~= Seq::<usize>::empty());
        }
        g
    }

    /// Returns the number of elements in the graph.
    pub fn elements_len(&self) -> (n: usize)
        ensures
            n == self@.len(),
    {
        self.elements.len()
    }

    /// Returns the number of relations in the graph: how many distinct
    /// indices have at least one child.
    pub fn relations_len(&self) -> (n: usize)
        ensures
            n == self.relation_parents().len(),
    {
        self.relation_parents.len()
    }

    /// Adds a node to the graph and establishes its parent-child
    /// relationship. Returns the index assigned to the node, which equals
    /// its final position: the arena is append-only.
    pub fn push(&mut self, node: Node, parent_index: Option<usize>) -> (new_index: usize)
        requires
            old(self).wf(),
            parent_index matches Some(p) ==> (p as int) < old(self)@.len(),
        ensures
            new_index == old(self)@.len(),
            final(self)@ == old(self)@.push(
                NodeView {
                    name: node@.name,
                    path: node@.path,
                    size: node@.size,
                    is_dir: node@.is_dir,
                    parent: parent_index,
                },
            ),
            final(self).relation_parents() == (match parent_index {
                Some(p) => if old(self).relation_parents().contains(p) {
                    old(self).relation_parents()
                } else {
                    old(self).relation_parents().push(p)
                },
                None => old(self).relation_parents(),
            }),
            final(self).wf(),
    {
        let ghost old_view = self@;
        let ghost old_rels = self.relation_parents@;
        let new_index = self.elements.len();
        let mut node = node;
        node.parent = parent_index;
        let ghost nv = node@;
        self.elements.push(node);
        proof {
            assert(self@ =~= old_view.push(nv));
        }
        match parent_index {
            Some(p) => {
                let known = contains_index(&self.relation_parents, p);
                if !known {
                    self.relation_parents.push(p);
                }
                proof {
                    assert(has_child(self@, p)) by {
                        assert(self@[old_view.len() as int].parent == Some(p));
                    }
                    lemma_push_preserves_wf(old_view, self@, old_rels, self.relation_parents@, nv);
                }
            },
            None => {
                proof {
                    lemma_push_preserves_wf(old_view, self@, old_rels, self.relation_parents@, nv);
                }
            },
        }
        new_index
    }

    /// Retrieves the indices of all ancestors of the given node, nearest
    /// parent first, excluding the root of its tree. An index with no node
    /// has no ancestors.
    pub fn get_parents(&self, index: usize) -> (parents: Vec<usize>)
        requires
            self.wf(),
        ensures
            parents@ == ancestors_of(self@, index as int),
            forall|j: int| 0 <= j < parents@.len() ==> (parents@[j] as int) < self@.len(),
    {
        let mut parents: Vec<usize> = Vec::new();
        if index >= self.elements.len() {
            proof {
                assert(parents@ =~= ancestors_of(self@, index as int));
            }
            return parents;
        }
        let mut cur = index;
        while self.elements[cur].parent.is_some()
            invariant
                self.wf(),
                (cur as int) < self@.len(),
                self.elements@[cur as int]@ == self@[cur as int],
                parents@ + ancestors_of(self@, cur as int) == ancestors_of(self@, index as int),
                forall|j: int| 0 <= j < parents@.len() ==> (parents@[j] as int) < self@.len(),
            decreases cur,
        {
            let ghost prev = cur;
            let ghost prev_parents = parents@;
            let p = match self.elements[cur].parent {
                Some(p) => p,
                None => 0,
            };
            assert((p as int) < cur as int);
            if self.elements[p].parent.is_some() {
                parents.push(p);
                proof {
                    assert(ancestors_of(self@, prev as int) =~= seq![p] + ancestors_of(
                        self@,
                        p as int,
                    ));
                    assert(parents@ + ancestors_of(self@, p as int) =~= prev_parents
                        + ancestors_of(self@, prev as int));
                }
            } else {
                proof {
                    assert(ancestors_of(self@, prev as int) =~= Seq::<usize>::empty());
                    assert(ancestors_of(self@, p as int) =~= Seq::<usize>::empty());
                    assert(parents@ + ancestors_of(self@, p as int) =~= prev_parents
                        + ancestors_of(self@, prev as int));
                }
            }
            cur = p;
        }
        proof {
            assert(ancestors_of(self@, cur as int) =~= Seq::<usize>::empty());
            assert(parents@ =~= ancestors_of(self@, index as int));
        }
        parents
    }

    /// Scans every node once and keeps the `num` best-ranked files: the
    /// pairs come back sorted strictly descending by rank (size first,
    /// earlier index on ties), and every file left out ranks below every
    /// pair kept.
    pub fn top_k_indices(&self, num: usize) -> (sel: Vec<(u64, usize)>)
        ensures
            selection_ok(self@, sel@, num as int),
    {
        let ghost s = self@;
        let mut heap: Vec<(u64, usize)> = Vec::new();
        let n = self.elements.len();
        let mut i: usize = 0;
        proof {
            assert(s.take(0) =~= Seq::<NodeView>::empty());
        }
        while i < n
            invariant
                s == self@,
                n == s.len(),
                i <= n,
                heap@.len() == min_int(num as int, file_count(s.take(i as int)) as int),
                forall|j: int|
                    0 <= j < heap@.len() ==> entry_ok(s, #[trigger] heap@[j]) && heap@[j].1 < i,
                sorted_desc(heap@),
                heap@.len() < num ==> (forall|ii: int|
                    0 <= ii < i && #[trigger] is_file_at(s, ii) ==> sel_has_index(heap@, ii)),
                forall|ii: int, j: int|
                    #![trigger is_file_at(s, ii), heap@[j]]
                    0 <= ii < i && is_file_at(s, ii) && !sel_has_index(heap@, ii) && 0 <= j
                        < heap@.len() ==> key_lt((s[ii].size, ii as usize), heap@[j]),
            decreases n - i,
        {
            let ghost old_heap = heap@;
            let node_is_dir = self.elements[i].is_dir;
            let size = self.elements[i].size;
            proof {
                assert(self.elements@[i as int]@ == s[i as int]);
                lemma_file_count_step(s, i as int);
            }
            if !node_is_dir {
                let e = (size, i);
                if heap.len() < num {
                    insert_sorted(&mut heap, e);
                    proof {
                        let pos = choose|pos: int|
                            0 <= pos <= old_heap.len() && heap@ == #[trigger] old_heap.insert(
                                pos,
                                e,
                            );
                        old_heap.insert_ensures(pos, e);
                        assert(sel_has_index(heap@, i as int)) by {
                            assert(heap@[pos] == e);
                        }
                        assert forall|ii: int|
                            0 <= ii < i + 1 && #[trigger] is_file_at(s, ii) implies sel_has_index(
                            heap@,
                            ii,
                        ) by {
                            if ii < i {
                                assert(sel_has_index(old_heap, ii));
                                let l = choose|l: int|
                                    0 <= l < old_heap.len() && (#[trigger] old_heap[l]).1 == ii;
                                if l < pos {
                                    assert(heap@[l] == old_heap[l]);
                                } else {
                                    assert(heap@[l + 1] == old_heap[l]);
                                }
                            }
                        }
                        assert forall|j: int| 0 <= j < heap@.len() implies entry_ok(
                            s,
                            #[trigger] heap@[j],
                        ) && heap@[j].1 < i + 1 by {
                            if j < pos {
                                assert(heap@[j] == old_heap[j]);
                            } else if j == pos {
                                assert(heap@[j] == e);
                            } else {
                                assert(heap@[j] == old_heap[j - 1]);
                            }
                        }
                    }
                } else if heap.len() > 0 {
                    let last = heap.len() - 1;
                    let min_size = heap[last].0;
                    if size > min_size {
                        let _evicted = heap.pop();
                        let ghost kept = heap@;
                        proof {
                            assert(kept =~= old_heap.subrange(0, old_heap.len() - 1));
                            assert forall|j1: int, j2: int|
                                0 <= j1 < j2 < kept.len() implies key_lt(
                                #[trigger] kept[j2],
                                #[trigger] kept[j1],
                            ) by {
                                assert(kept[j1] == old_heap[j1] && kept[j2] == old_heap[j2]);
                            }
                        }
                        insert_sorted(&mut heap, e);
                        proof {
                            let ghost evicted = old_heap[old_heap.len() - 1];
                            let pos = choose|pos: int|
                                0 <= pos <= kept.len() && heap@ == #[trigger] kept.insert(pos, e);
                            kept.insert_ensures(pos, e);
                            assert(sel_has_index(heap@, i as int)) by {
                                assert(heap@[pos] == e);
                            }
                            // every pair now kept is the new one or a survivor
                            assert forall|j: int| 0 <= j < heap@.len() implies heap@[j] == e || (
                            exists|l: int|
                                0 <= l < old_heap.len() - 1 && #[trigger] old_heap[l] == heap@[j]) by {
                                if j < pos {
                                    assert(old_heap[j] == heap@[j]);
                                } else if j > pos {
                                    assert(old_heap[j - 1] == heap@[j]);
                                }
                            }
                            assert forall|j: int| 0 <= j < heap@.len() implies entry_ok(
                                s,
                                #[trigger] heap@[j],
                            ) && heap@[j].1 < i + 1 by {
                                if j < pos {
                                    assert(heap@[j] == old_heap[j]);
                                } else if j == pos {
                                    assert(heap@[j] == e);
                                } else {
                                    assert(heap@[j] == old_heap[j - 1]);
                                }
                            }
                            // the evicted pair ranks below the new one and below
                            // every survivor
                            assert(evicted.0 == min_size);
                            assert(key_lt(evicted, e));
                            assert forall|ii: int, j: int|
                                #![trigger is_file_at(s, ii), heap@[j]]
                                0 <= ii < i + 1 && is_file_at(s, ii) && !sel_has_index(heap@, ii)
                                    && 0 <= j < heap@.len() implies key_lt(
                                (s[ii].size, ii as usize),
                                heap@[j],
                            ) by {
                                let key = (s[ii].size, ii as usize);
                                if ii < i {
                                    if sel_has_index(old_heap, ii) {
                                        let l = choose|l: int|
                                            0 <= l < old_heap.len() && (#[trigger] old_heap[l]).1
                                                == ii;
                                        if l < old_heap.len() - 1 {
                                            // survivors keep their index, so ii
                                            // would still be present
                                            if l < pos {
                                                assert(heap@[l] == old_heap[l]);
                                            } else {
                                                assert(heap@[l + 1] == old_heap[l]);
                                            }
                                            assert(false);
                                        } else {
                                            // ii is the evicted pair's index
                                            assert(old_heap[l] == evicted);
                                            assert(key == evicted);
                                            if heap@[j] == e {
                                            } else {
                                                let l2 = choose|l2: int|
                                                    0 <= l2 < old_heap.len() - 1
                                                        && #[trigger] old_heap[l2] == heap@[j];
                                                assert(key_lt(evicted, old_heap[l2]));
                                            }
                                        }
                                    } else {
                                        assert(key_lt(key, evicted));
                                        if heap@[j] == e {
                                        } else {
                                            let l2 = choose|l2: int|
                                                0 <= l2 < old_heap.len() - 1
                                                    && #[trigger] old_heap[l2] == heap@[j];
                                            assert(key_lt(key, old_heap[l2]));
                                        }
                                    }
                                } else {
                                    assert(sel_has_index(heap@, ii));
                                    assert(false);
                                }
                            }
                        }
                    } else {
                        proof {
                            assert(heap@.len() == num);
                            assert forall|ii: int, j: int|
                                #![trigger is_file_at(s, ii), heap@[j]]
                                0 <= ii < i + 1 && is_file_at(s, ii) && !sel_has_index(heap@, ii)
                                    && 0 <= j < heap@.len() implies key_lt(
                                (s[ii].size, ii as usize),
                                heap@[j],
                            ) by {
                                if ii == i {
                                    let lastg = heap@.len() - 1;
                                    if j < lastg {
                                        assert(key_lt(heap@[lastg], heap@[j]));
                                    }
                                }
                            }
                        }
                    }
                } else {
                    proof {
                        assert(heap@.len() == 0 && num == 0);
                    }
                }
            } else {
                proof {
                    assert(!is_file_at(s, i as int));
                }
            }
            i += 1;
        }
        proof {
            assert(s.take(n as int) =~= s);
        }
        heap
    }

    /// Finds the top `num` largest files and returns their details: for
    /// each, its containing directory path (non-root ancestors in
    /// root-to-leaf order, each followed by a separator), its name, and its
    /// size in bytes, sorted by descending size (earlier index first on
    /// ties). Returns `min(num, file count)` rows; `num == 0` or an arena
    /// without files gives an empty report.
    pub fn largest_file(&self, num: usize) -> (results: Vec<(String, String, u64)>)
        requires
            self.wf(),
        ensures
            results@.len() == min_int(num as int, file_count(self@) as int),
            forall|j1: int, j2: int|
                0 <= j1 < j2 < results@.len() ==> results@[j2].2 <= results@[j1].2,
            exists|sel: Seq<(u64, usize)>|
                #[trigger] selection_ok(self@, sel, num as int) && output_matches(
                    self@,
                    sel,
                    results@,
                ),
    {
        let sel = self.top_k_indices(num);
        let mut results: Vec<(String, String, u64)> = Vec::new();
        let mut j: usize = 0;
        while j < sel.len()
            invariant
                self.wf(),
                selection_ok(self@, sel@, num as int),
                j <= sel@.len(),
                results@.len() == j,
                forall|l: int|
                    0 <= l < j ==> {
                        &&& (#[trigger] results@[l]).0@ == dir_path_of(self@, sel@[l].1 as int)
                        &&& results@[l].1@ == self@[sel@[l].1 as int].name
                        &&& results@[l].2 == sel@[l].0
                    },
            decreases sel@.len() - j,
        {
            let size = sel[j].0;
            let idx = sel[j].1;
            proof {
                assert(entry_ok(self@, sel@[j as int]));
                assert(self.elements@[idx as int]@ == self@[idx as int]);
            }
            let dir = self.dir_path(idx);
            let name = self.elements[idx].name.clone();
            results.push((dir, name, size));
            j += 1;
        }
        proof {
            assert(output_matches(self@, sel@, results@));
            assert forall|j1: int, j2: int|
                0 <= j1 < j2 < results@.len() implies results@[j2].2 <= results@[j1].2 by {
                assert(key_lt(sel@[j2], sel@[j1]));
            }
        }
        results
    }

    /// Reconstructs the directory path of the given node: the names of its
    /// non-root ancestors in root-to-leaf order, each followed by one path
    /// separator.
    pub fn dir_path(&self, index: usize) -> (path: String)
        requires
            self.wf(),
        ensures
            path@ == dir_path_of(self@, index as int),
    {
        let parents = self.get_parents(index);
        let mut path = String::new();
        let mut j = parents.len();
        proof {
            assert(parents@.subrange(j as int, parents@.len() as int) =~= Seq::<usize>::empty());
        }
        while j > 0
            invariant
                self.wf(),
                j <= parents@.len(),
                forall|l: int| 0 <= l < parents@.len() ==> (parents@[l] as int) < self@.len(),
                path@ == path_join(self@, parents@.subrange(j as int, parents@.len() as int)),
            decreases j,
        {
            j -= 1;
            let p = parents[j];
            path.append(self.elements[p].name.as_str());
            path.append("/");
            proof {
                reveal_strlit("/");
                assert("/"@ =~= seq!['/']);
                let tail = parents@.subrange(j + 1, parents@.len() as int);
                let here = parents@.subrange(j as int, parents@.len() as int);
                assert(here.drop_first() =~= tail);
                assert(here[0] == parents@[j as int]);
                assert(self.elements@[p as int]@ == self@[p as int]);
                assert(path@ =~= path_join(self@, here));
            }
        }
        proof {
            assert(parents@.subrange(0, parents@.len() as int) =~= parents@);
        }
        path
    }
}

/// After appending one node whose parent link (if any) points into the old
/// sequence and is recorded among the parents, well-formedness carries over.
proof fn lemma_push_preserves_wf(
    old_s: Seq<NodeView>,
    new_s: Seq<NodeView>,
    old_r: Seq<usize>,
    new_r: Seq<usize>,
    nv: NodeView,
)
    requires
        graph_wf_parts(old_s, old_r),
        new_s == old_s.push(nv),
        nv.parent matches Some(p) ==> (p as int) < old_s.len(),
        match nv.parent {
            Some(p) => new_r == (if old_r.contains(p) {
                old_r
            } else {
                old_r.push(p)
            }),
            None => new_r == old_r,
        },
    ensures
        graph_wf_parts(new_s, new_r),
{
    assert forall|j: int| 0 <= j < new_r.len() implies has_child(new_s, #[trigger] new_r[j]) by {
        if j < old_r.len() {
            assert(has_child(old_s, old_r[j]));
            let i = choose|i: int| 0 <= i < old_s.len() && #[trigger] old_s[i].parent == Some(
                old_r[j],
            );
            assert(new_s[i].parent == Some(new_r[j]));
        } else {
            assert(nv.parent == Some(new_r[j]));
            assert(new_s[old_s.len() as int].parent == Some(new_r[j]));
        }
    }
    match nv.parent {
        Some(p) => {
            if !old_r.contains(p) {
                assert forall|l: int, m: int|
                    0 <= l < m < new_r.len() implies new_r[l] != new_r[m] by {
                    if m < old_r.len() {
                    } else {
                        assert(new_r[m] == p);
                        assert(old_r[l] == new_r[l]);
                    }
                }
            }
            assert(new_r.contains(p)) by {
                if old_r.contains(p) {
                } else {
                    assert(new_r[old_r.len() as int] == p);
                }
            }
            assert forall|i: int|
                0 <= i < new_s.len() && (#[trigger] new_s[i].parent) is Some
                    implies new_r.contains(new_s[i].parent->Some_0) by {
                let q = new_s[i].parent->Some_0;
                if i < old_s.len() {
                    assert(old_r.contains(q));
                    let l = choose|l: int| 0 <= l < old_r.len() && old_r[l] == q;
                    assert(new_r[l] == q);
                }
            }
        },
        None => {},
    }
}

/// The well-formedness conditions of [`Graph::wf`], stated over the raw
/// sequences so that lemmas can speak of them without a `Graph` value.
pub open spec fn graph_wf_parts(s: Seq<NodeView>, r: Seq<usize>) -> bool {
    &&& forall|i: int|
        0 <= i < s.len() && (#[trigger] s[i].parent) is Some ==> (s[i].parent->Some_0 as int) < i
    &&& r.no_duplicates()
    &&& forall|j: int| 0 <= j < r.len() ==> has_child(s, #[trigger] r[j])
    &&& forall|i: int|
        0 <= i < s.len() && (#[trigger] s[i].parent) is Some ==> r.contains(s[i].parent->Some_0)
}

/// The chain of ancestor indices of node `i`, nearest parent first, up to
/// and excluding the root of its tree. Parent links point strictly
/// backwards, so the chain is finite and strictly decreasing.
pub open spec fn ancestors_of(s: Seq<NodeView>, i: int) -> Seq<usize>
    decreases i,
{
    if 0 <= i < s.len() && s[i].parent is Some {
        let p = s[i].parent->Some_0;
        if (p as int) < i {
            if s[p as int].parent is Some {
                seq![p] + ancestors_of(s, p as int)
            } else {
                Seq::empty()
            }
        } else {
            Seq::empty()
        }
    } else {
        Seq::empty()
    }
}

/// The report rows `out` spell out the selection `sel` over arena `s`: row
/// by row, the reconstructed directory path, the file's own name, and its
/// size.
pub open spec fn output_matches(
    s: Seq<NodeView>,
    sel: Seq<(u64, usize)>,
    out: Seq<(String, String, u64)>,
) -> bool {
    &&& out.len() == sel.len()
    &&& forall|j: int|
        0 <= j < out.len() ==> {
            &&& (#[trigger] out[j]).0@ == dir_path_of(s, sel[j].1 as int)
            &&& out[j].1@ == s[sel[j].1 as int].name
            &&& out[j].2 == sel[j].0
        }
}

/// Reports over one arena are reproducible: two report row sequences that
/// each spell out a valid selection over the same arena and bound carry
/// the same text and sizes, row for row. Repeating a scan of an unchanged
/// tree therefore yields an identical report.
pub proof fn lemma_report_deterministic(
    s: Seq<NodeView>,
    a: Seq<(u64, usize)>,
    b: Seq<(u64, usize)>,
    out_a: Seq<(String, String, u64)>,
    out_b: Seq<(String, String, u64)>,
    k: int,
)
    requires
        selection_ok(s, a, k),
        selection_ok(s, b, k),
        output_matches(s, a, out_a),
        output_matches(s, b, out_b),
    ensures
        out_a.len() == out_b.len(),
        forall|j: int|
            0 <= j < out_a.len() ==> (#[trigger] out_a[j]).0@ == out_b[j].0@ && out_a[j].1@
                == out_b[j].1@ && out_a[j].2 == out_b[j].2,
{
    lemma_top_k_unique(s, a, b, k);
}

/// Ancestor chains cannot cycle: because every parent link points
/// strictly backwards, the chain of ancestors of any node is a strictly
/// decreasing sequence of smaller indices.
pub proof fn lemma_ancestors_strictly_decreasing(s: Seq<NodeView>, i: int)
    requires
        forall|l: int|
            0 <= l < s.len() && (#[trigger] s[l].parent) is Some ==> (s[l].parent->Some_0 as int)
                < l,
    ensures
        forall|j: int| 0 <= j < ancestors_of(s, i).len() ==> (ancestors_of(s, i)[j] as int) < i,
        forall|j1: int, j2: int|
            0 <= j1 < j2 < ancestors_of(s, i).len() ==> ancestors_of(s, i)[j2] < ancestors_of(
                s,
                i,
            )[j1],
    decreases i,
{
    let anc = ancestors_of(s, i);
    if 0 <= i < s.len() && s[i].parent is Some {
        let p = s[i].parent->Some_0;
        if (p as int) < i && s[p as int].parent is Some {
            lemma_ancestors_strictly_decreasing(s, p as int);
            let rest = ancestors_of(s, p as int);
            assert(anc == seq![p] + rest);
            assert forall|j: int| 0 <= j < anc.len() implies (anc[j] as int) < i by {
                if j > 0 {
                    assert(anc[j] == rest[j - 1]);
                }
            }
            assert forall|j1: int, j2: int| 0 <= j1 < j2 < anc.len() implies anc[j2] < anc[j1] by {
                assert(anc[j2] == rest[j2 - 1]);
                if j1 > 0 {
                    assert(anc[j1] == rest[j1 - 1]);
                }
            }
        }
    }
}

/// The text of a directory path assembled from an ancestor chain `anc`
/// (nearest parent first): the names of the ancestors in root-to-leaf
/// order, each followed by one path separator.
pub open spec fn path_join(s: Seq<NodeView>, anc: Seq<usize>) -> Seq<char>
    decreases anc.len(),
{
    if anc.len() == 0 {
        Seq::empty()
    } else {
        path_join(s, anc.drop_first()) + s[anc[0] as int].name + seq!['/']
    }
}

/// The directory path of node `i`: the names of its non-root ancestors in
/// root-to-leaf order, each followed by one path separator. A node directly
/// under a root has the empty directory path.
pub open spec fn dir_path_of(s: Seq<NodeView>, i: int) -> Seq<char> {
    path_join(s, ancestors_of(s, i))
}

/// Linear scan for `x` in `v`.
fn contains_index(v: &Vec<usize>, x: usize) -> (found: bool)
    ensures
        found == v@.contains(x),
{
    let mut j: usize = 0;
    while j < v.len()
        invariant
            j <= v@.len(),
            forall|l: int| 0 <= l < j ==> v@[l] != x,
        decreases v@.len() - j,
    {
        if v[j] == x {
            return true;
        }
        j += 1;
    }
    false
}

} // verus!
