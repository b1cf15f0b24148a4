//! Bounded top-k selection over the arena: the k largest files by size,
//! kept as `(size, index)` pairs in a fixed order.

use vstd::prelude::*;

use crate::file_analyzer::NodeView;

verus! {

/// The smaller of two integers.
pub open spec fn min_int(a: int, b: int) -> int {
    if a <= b {
        a
    } else {
        b
    }
}

/// Is there a file node at index `i`?
pub open spec fn is_file_at(s: Seq<NodeView>, i: int) -> bool {
    0 <= i < s.len() && !s[i].is_dir
}

/// How many file nodes the sequence holds.
pub open spec fn file_count(s: Seq<NodeView>) -> nat
    decreases s.len(),
{
    if s.len() == 0 {
        0
    } else {
        file_count(s.drop_last()) + if s.last().is_dir {
            0nat
        } else {
            1nat
        }
    }
}

/// Strict ranking of `(size, index)` pairs: `a` ranks strictly below `b`
/// when its size is smaller, or sizes are equal and its index is larger.
/// On pairs with distinct indices this is a strict total order.
pub open spec fn key_lt(a: (u64, usize), b: (u64, usize)) -> bool {
    a.0 < b.0 || (a.0 == b.0 && a.1 > b.1)
}

/// Sorted strictly descending by rank: the best pair first.
pub open spec fn sorted_desc(v: Seq<(u64, usize)>) -> bool {
    forall|j1: int, j2: int| 0 <= j1 < j2 < v.len() ==> key_lt(#[trigger] v[j2], #[trigger] v[j1])
}

/// Does some pair of `sel` carry node index `i`?
pub open spec fn sel_has_index(sel: Seq<(u64, usize)>, i: int) -> bool {
    exists|j: int| 0 <= j < sel.len() && (#[trigger] sel[j]).1 == i
}

/// A pair describes an actual file node: its index is a file of `s` and
/// its size is that file's size.
pub open spec fn entry_ok(s: Seq<NodeView>, e: (u64, usize)) -> bool {
    is_file_at(s, e.1 as int) && e.0 == s[e.1 as int].size
}

/// What a top-k selection over `s` is: as many pairs as `k` allows but no
/// more than there are files, each describing a file of `s`, in strictly
/// descending rank, and every file left out ranks strictly below every
/// pair kept. On a given `s` and `k`, exactly one sequence satisfies this.
pub open spec fn selection_ok(s: Seq<NodeView>, sel: Seq<(u64, usize)>, k: int) -> bool {
    &&& sel.len() == min_int(k, file_count(s) as int)
    &&& forall|j: int| 0 <= j < sel.len() ==> entry_ok(s, #[trigger] sel[j])
    &&& sorted_desc(sel)
    &&& forall|i: int, j: int|
        #![trigger is_file_at(s, i), sel[j]]
        is_file_at(s, i) && !sel_has_index(sel, i) && 0 <= j < sel.len() ==> key_lt(
            (s[i].size, i as usize),
            sel[j],
        )
}

/// The set of indices of all file nodes.
pub open spec fn file_indices(s: Seq<NodeView>) -> Set<int> {
    Set::new(|i: int| is_file_at(s, i))
}

/// Two pairs of a rank-sorted selection of actual files never name the
/// same node.
pub proof fn lemma_entries_distinct(s: Seq<NodeView>, sel: Seq<(u64, usize)>)
    requires
        forall|j: int| 0 <= j < sel.len() ==> entry_ok(s, #[trigger] sel[j]),
        sorted_desc(sel),
    ensures
        forall|j1: int, j2: int|
            0 <= j1 < j2 < sel.len() ==> (#[trigger] sel[j1]).1 != (#[trigger] sel[j2]).1,
{
    assert forall|j1: int, j2: int|
        0 <= j1 < j2 < sel.len() implies (#[trigger] sel[j1]).1 != (#[trigger] sel[j2]).1 by {
        if sel[j1].1 == sel[j2].1 {
            assert(entry_ok(s, sel[j1]));
            assert(entry_ok(s, sel[j2]));
            assert(sel[j1].0 == sel[j2].0);
            assert(key_lt(sel[j2], sel[j1]));
        }
    }
}

/// There are as many file indices as the file count says.
pub proof fn lemma_file_indices_card(s: Seq<NodeView>)
    ensures
        file_indices(s).finite(),
        file_indices(s).len() == file_count(s),
    decreases s.len(),
{
    if s.len() == 0 {
        assert(file_indices(s) =~= Set::<int>::empty());
    } else {
        let t = s.drop_last();
        lemma_file_indices_card(t);
        if s.last().is_dir {
            assert(file_indices(s) =~= file_indices(t));
        } else {
            assert(!file_indices(t).contains(s.len() - 1));
            assert(file_indices(s) =~= file_indices(t).insert(s.len() - 1));
        }
    }
}

/// Asking for nothing yields nothing: a selection with `k == 0` is empty.
pub proof fn lemma_top_k_zero(s: Seq<NodeView>, sel: Seq<(u64, usize)>)
    requires
        selection_ok(s, sel, 0),
    ensures
        sel == Seq::<(u64, usize)>::empty(),
{
    assert(sel =~= Seq::<(u64, usize)>::empty());
}

/// Asking for at least as many rows as there are files returns every file
/// exactly once: the selection has one pair per file, and each file's
/// index appears in it.
pub proof fn lemma_top_k_complete(s: Seq<NodeView>, sel: Seq<(u64, usize)>, k: int)
    requires
        selection_ok(s, sel, k),
        k >= file_count(s),
    ensures
        sel.len() == file_count(s),
        forall|i: int| #[trigger] is_file_at(s, i) ==> sel_has_index(sel, i),
        forall|j1: int, j2: int|
            0 <= j1 < j2 < sel.len() ==> (#[trigger] sel[j1]).1 != (#[trigger] sel[j2]).1,
{
    broadcast use vstd::seq_lib::seq_to_set_is_finite;

    lemma_entries_distinct(s, sel);
    let idxs = sel.map_values(|e: (u64, usize)| e.1 as int);
    assert(idxs.no_duplicates()) by {
        assert forall|j1: int, j2: int|
            0 <= j1 < idxs.len() && 0 <= j2 < idxs.len() && j1 != j2 implies idxs[j1] != idxs[j2] by {
            assert(idxs[j1] == sel[j1].1 as int && idxs[j2] == sel[j2].1 as int);
        }
    }
    idxs.unique_seq_to_set();
    let iset = idxs.to_set();
    lemma_file_indices_card(s);
    assert(iset.subset_of(file_indices(s))) by {
        assert forall|x: int| iset.contains(x) implies file_indices(s).contains(x) by {
            let j = choose|j: int| 0 <= j < idxs.len() && idxs[j] == x;
            assert(entry_ok(s, sel[j]));
        }
    }
    assert(iset.len() == file_indices(s).len());
    vstd::set_lib::lemma_subset_equality(iset, file_indices(s));
    assert forall|i: int| #[trigger] is_file_at(s, i) implies sel_has_index(sel, i) by {
        assert(file_indices(s).contains(i));
        assert(iset.contains(i));
        let j = choose|j: int| 0 <= j < idxs.len() && idxs[j] == i;
        assert(sel[j].1 == i);
    }
}

/// Two sequences sorted strictly descending by rank that hold the same
/// pairs are the same sequence.
proof fn lemma_strict_sorted_same_set(a: Seq<(u64, usize)>, b: Seq<(u64, usize)>)
    requires
        sorted_desc(a),
        sorted_desc(b),
        a.to_set() == b.to_set(),
        a.len() == b.len(),
    ensures
        a == b,
    decreases a.len(),
{
    if a.len() == 0 {
        assert(a =~= b);
    } else {
        assert(a.contains(a[0]));
        assert(b.to_set().contains(a[0]));
        let jb = choose|j: int| 0 <= j < b.len() && b[j] == a[0];
        assert(b.contains(b[0]));
        assert(a.to_set().contains(b[0]));
        let ja = choose|j: int| 0 <= j < a.len() && a[j] == b[0];
        assert(a[0] == b[0]) by {
            if jb > 0 && ja > 0 {
                assert(key_lt(b[jb], b[0]));
                assert(key_lt(a[ja], a[0]));
            }
        }
        let at = a.drop_first();
        let bt = b.drop_first();
        assert(at.to_set() =~= a.to_set().remove(a[0])) by {
            assert forall|x: (u64, usize)| #[trigger] at.contains(x) implies a.contains(x) && x
                != a[0] by {
                let j = choose|j: int| 0 <= j < at.len() && at[j] == x;
                assert(a[j + 1] == x);
                assert(key_lt(a[j + 1], a[0]));
            }
            assert forall|x: (u64, usize)| a.contains(x) && x != a[0] implies #[trigger] at.contains(
                x,
            ) by {
                let j = choose|j: int| 0 <= j < a.len() && a[j] == x;
                assert(at[j - 1] == x);
            }
        }
        assert(bt.to_set() =~= b.to_set().remove(b[0])) by {
            assert forall|x: (u64, usize)| #[trigger] bt.contains(x) implies b.contains(x) && x
                != b[0] by {
                let j = choose|j: int| 0 <= j < bt.len() && bt[j] == x;
                assert(b[j + 1] == x);
                assert(key_lt(b[j + 1], b[0]));
            }
            assert forall|x: (u64, usize)| b.contains(x) && x != b[0] implies #[trigger] bt.contains(
                x,
            ) by {
                let j = choose|j: int| 0 <= j < b.len() && b[j] == x;
                assert(bt[j - 1] == x);
            }
        }
        assert(sorted_desc(at)) by {
            assert forall|j1: int, j2: int| 0 <= j1 < j2 < at.len() implies key_lt(
                #[trigger] at[j2],
                #[trigger] at[j1],
            ) by {
                assert(at[j1] == a[j1 + 1] && at[j2] == a[j2 + 1]);
            }
        }
        assert(sorted_desc(bt)) by {
            assert forall|j1: int, j2: int| 0 <= j1 < j2 < bt.len() implies key_lt(
                #[trigger] bt[j2],
                #[trigger] bt[j1],
            ) by {
                assert(bt[j1] == b[j1 + 1] && bt[j2] == b[j2 + 1]);
            }
        }
        lemma_strict_sorted_same_set(at, bt);
        assert(a =~= b) by {
            assert forall|j: int| 0 <= j < a.len() implies a[j] == b[j] by {
                if j > 0 {
                    assert(at[j - 1] == bt[j - 1]);
                    assert(a[j] == at[j - 1] && b[j] == bt[j - 1]);
                }
            }
        }
    }
}

/// The selection over a given arena and bound is unique: any two sequences
/// that both satisfy [`selection_ok`] are equal. With the scan and the
/// report each pinned by their contracts, repeating a run over an
/// unchanged arena therefore reproduces the same report.
pub proof fn lemma_top_k_unique(
    s: Seq<NodeView>,
    a: Seq<(u64, usize)>,
    b: Seq<(u64, usize)>,
    k: int,
)
    requires
        selection_ok(s, a, k),
        selection_ok(s, b, k),
    ensures
        a == b,
{
    broadcast use vstd::seq_lib::seq_to_set_is_finite;

    lemma_entries_distinct(s, a);
    lemma_entries_distinct(s, b);
    let fa = |e: (u64, usize)| e.1 as int;
    let ia = a.map_values(fa);
    let ib = b.map_values(fa);
    assert(ia.no_duplicates()) by {
        assert forall|j1: int, j2: int|
            0 <= j1 < ia.len() && 0 <= j2 < ia.len() && j1 != j2 implies ia[j1] != ia[j2] by {
            assert(ia[j1] == a[j1].1 as int && ia[j2] == a[j2].1 as int);
        }
    }
    assert(ib.no_duplicates()) by {
        assert forall|j1: int, j2: int|
            0 <= j1 < ib.len() && 0 <= j2 < ib.len() && j1 != j2 implies ib[j1] != ib[j2] by {
            assert(ib[j1] == b[j1].1 as int && ib[j2] == b[j2].1 as int);
        }
    }
    ia.unique_seq_to_set();
    ib.unique_seq_to_set();
    let sa = ia.to_set();
    let sb = ib.to_set();
    assert forall|x: int| sa.contains(x) implies sb.contains(x) by {
        if !sb.contains(x) {
            let jx = choose|j: int| 0 <= j < ia.len() && ia[j] == x;
            assert(a[jx].1 as int == x);
            assert(entry_ok(s, a[jx]));
            assert(is_file_at(s, x));
            assert(!sel_has_index(b, x)) by {
                if sel_has_index(b, x) {
                    let j = choose|j: int| 0 <= j < b.len() && (#[trigger] b[j]).1 == x;
                    assert(ib[j] == x);
                }
            }
            if sb.subset_of(sa) {
                vstd::set_lib::lemma_subset_equality(sb, sa);
            }
            let y = choose|y: int| sb.contains(y) && !sa.contains(y);
            let jy = choose|j: int| 0 <= j < ib.len() && ib[j] == y;
            assert(b[jy].1 as int == y);
            assert(entry_ok(s, b[jy]));
            assert(is_file_at(s, y));
            assert(!sel_has_index(a, y)) by {
                if sel_has_index(a, y) {
                    let j = choose|j: int| 0 <= j < a.len() && (#[trigger] a[j]).1 == y;
                    assert(ia[j] == y);
                }
            }
            // each of the two left-out files would rank strictly below a
            // pair that carries the other, a cycle
            assert(key_lt((s[x].size, x as usize), b[jy]));
            assert(key_lt((s[y].size, y as usize), a[jx]));
            assert(a[jx] == (s[x].size, x as usize));
            assert(b[jy] == (s[y].size, y as usize));
        }
    }
    assert(sa.subset_of(sb));
    vstd::set_lib::lemma_subset_equality(sa, sb);
    assert(a.to_set() =~= b.to_set()) by {
        assert forall|x: (u64, usize)| #[trigger] a.contains(x) implies b.contains(x) by {
            let j = choose|j: int| 0 <= j < a.len() && a[j] == x;
            assert(ia[j] == x.1 as int);
            assert(sb.contains(x.1 as int));
            let l = choose|l: int| 0 <= l < ib.len() && ib[l] == x.1 as int;
            assert(b[l].1 == x.1);
            assert(entry_ok(s, a[j]) && entry_ok(s, b[l]));
            assert(b[l] == x);
        }
        assert forall|x: (u64, usize)| #[trigger] b.contains(x) implies a.contains(x) by {
            let j = choose|j: int| 0 <= j < b.len() && b[j] == x;
            assert(ib[j] == x.1 as int);
            assert(sa.contains(x.1 as int));
            let l = choose|l: int| 0 <= l < ia.len() && ia[l] == x.1 as int;
            assert(a[l].1 == x.1);
            assert(entry_ok(s, b[j]) && entry_ok(s, a[l]));
            assert(a[l] == x);
        }
    }
    lemma_strict_sorted_same_set(a, b);
}

/// Scanning one more node either keeps the file count (a directory) or
/// raises it by one (a file).
pub proof fn lemma_file_count_step(s: Seq<NodeView>, i: int)
    requires
        0 <= i < s.len(),
    ensures
        file_count(s.take(i + 1)) == file_count(s.take(i)) + if s[i].is_dir {
            0nat
        } else {
            1nat
        },
{
    let t = s.take(i + 1);
    assert(t.drop_last() =~= s.take(i));
    assert(t.last() == s[i]);
}

/// Inserts `e` into a strictly rank-sorted vector, keeping it sorted.
pub(crate) fn insert_sorted(v: &mut Vec<(u64, usize)>, e: (u64, usize))
    requires
        sorted_desc(old(v)@),
        forall|j: int| 0 <= j < old(v)@.len() ==> (#[trigger] old(v)@[j]).1 != e.1,
    ensures
        final(v)@.len() == old(v)@.len() + 1,
        sorted_desc(final(v)@),
        exists|pos: int|
            0 <= pos <= old(v)@.len() && final(v)@ == #[trigger] old(v)@.insert(pos, e),
{
    let mut pos: usize = 0;
    while pos < v.len() && (v[pos].0 > e.0 || (v[pos].0 == e.0 && v[pos].1 < e.1))
        invariant
            pos <= v@.len(),
            forall|l: int| 0 <= l < pos ==> key_lt(e, #[trigger] v@[l]),
        decreases v@.len() - pos,
    {
        pos += 1;
    }
    proof {
        if (pos as int) < v@.len() {
            assert(!key_lt(e, v@[pos as int]));
            assert(key_lt(v@[pos as int], e));
        }
        assert forall|l: int| pos <= l < v@.len() implies key_lt(#[trigger] v@[l], e) by {
            if l > pos {
                assert(key_lt(v@[l], v@[pos as int]));
            }
        }
    }
    let ghost old_v = v@;
    let ghost gpos = pos as int;
    v.insert(pos, e);
    proof {
        assert forall|j1: int, j2: int| 0 <= j1 < j2 < v@.len() implies key_lt(
            #[trigger] v@[j2],
            #[trigger] v@[j1],
        ) by {
            if j1 < gpos && j2 < gpos {
                assert(v@[j1] == old_v[j1] && v@[j2] == old_v[j2]);
            } else if j1 < gpos && j2 == gpos {
                assert(v@[j1] == old_v[j1] && v@[j2] == e);
            } else if j1 < gpos && j2 > gpos {
                assert(v@[j1] == old_v[j1] && v@[j2] == old_v[j2 - 1]);
            } else if j1 == gpos {
                assert(v@[j1] == e && v@[j2] == old_v[j2 - 1]);
            } else {
                assert(v@[j1] == old_v[j1 - 1] && v@[j2] == old_v[j2 - 1]);
            }
        }
        assert(0 <= gpos <= old_v.len() && v@ == old_v.insert(gpos, e));
    }
}

} // verus!
