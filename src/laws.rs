//! Properties of the call-site tree that hold for every set of records.
use vstd::prelude::*;
use vstd::relations::injective_on;
use vstd::set_lib::{lemma_int_range, lemma_map_size, set_int_range};
use crate::stats::{Allocation, CallSite};
use crate::tree::{
    children_total, describes, direct_total, grand_total, is_prefix, lemma_node_path_injective,
    lemma_ancestor_exists, lemma_node_path_len, metric, node_path, reaches_parent, record_path, record_weight, well_formed,
    TreeNode,
};
use crate::stats::site_of;

verus! {

broadcast use vstd::seq_lib::group_seq_properties;

/// The root of a window's tree holds, for allocations and for deallocations
/// alike, the sum of the sizes of all records.
pub proof fn lemma_root_holds_grand_totals(
    nodes: Seq<TreeNode>,
    records: Seq<Allocation>,
    cwd: Seq<char>,
)
    requires
        describes(nodes, records, cwd),
    ensures
        nodes[0].allocation == grand_total(records, 0),
        nodes[0].deallocation == grand_total(records, 2),
{
}

/// Two records whose call-site paths agree on their first `len` sites share
/// the node of that prefix: some node has it as its path, and only one.
pub proof fn lemma_shared_prefix_one_node(
    nodes: Seq<TreeNode>,
    records: Seq<Allocation>,
    cwd: Seq<char>,
    t1: int,
    t2: int,
    len: int,
)
    requires
        describes(nodes, records, cwd),
        0 <= t1 < records.len(),
        0 <= t2 < records.len(),
        0 <= len <= record_path(records[t1].stack@).len(),
        len <= record_path(records[t2].stack@).len(),
        record_path(records[t1].stack@).subrange(0, len) == record_path(
            records[t2].stack@,
        ).subrange(0, len),
    ensures
        exists|i: int|
            0 <= i < nodes.len() && #[trigger] node_path(nodes, i) == record_path(
                records[t1].stack@,
            ).subrange(0, len),
        forall|i: int, j: int|
            0 <= i < nodes.len() && 0 <= j < nodes.len() && node_path(nodes, i) == record_path(
                records[t1].stack@,
            ).subrange(0, len) && node_path(nodes, j) == record_path(records[t2].stack@).subrange(
                0,
                len,
            ) ==> i == j,
{
    let full = record_path(records[t1].stack@);
    let k = choose|k: int| 0 <= k < nodes.len() && #[trigger] node_path(nodes, k) == full;
    lemma_ancestor_exists(nodes, k, len);
    assert forall|i: int, j: int|
        0 <= i < nodes.len() && 0 <= j < nodes.len() && node_path(nodes, i) == full.subrange(0, len)
            && node_path(nodes, j) == record_path(records[t2].stack@).subrange(0, len) implies i
        == j by {
        lemma_node_path_injective(nodes, i, j);
    }
}

/// One record folded into an empty tree gives a chain: the root and one node
/// for each call site of its stack, every node on the record's path, and a
/// direct contribution only at the node where the path ends.
pub proof fn lemma_single_record_chain(nodes: Seq<TreeNode>, record: Allocation, cwd: Seq<char>)
    requires
        describes(nodes, seq![record], cwd),
    ensures
        nodes.len() == record_path(record.stack@).len() + 1,
        forall|i: int|
            0 <= i < nodes.len() ==> is_prefix(#[trigger] node_path(nodes, i), record_path(record.stack@)),
        forall|i: int, m: int|
            0 <= i < nodes.len() && 0 <= m < 4 ==> #[trigger] direct_total(
                seq![record],
                node_path(nodes, i),
                m,
            ) == if node_path(nodes, i) == record_path(record.stack@) {
                record_weight(record, m)
            } else {
                0
            },
{
    let records = seq![record];
    let path = record_path(record.stack@);
    let n = nodes.len() as int;
    assert(records[0] == record);
    assert forall|i: int| 0 <= i < n implies is_prefix(#[trigger] node_path(nodes, i), path) by {
        if i > 0 {
            let u = choose|u: int|
                0 <= u < records.len() && is_prefix(
                    #[trigger] node_path(nodes, i),
                    record_path(#[trigger] records[u].stack@),
                );
            assert(u == 0);
        } else {
            assert(path.subrange(0, 0) =~= node_path(nodes, 0));
        }
    }
    assert forall|i: int, m: int| 0 <= i < n && 0 <= m < 4 implies #[trigger] direct_total(
        records,
        node_path(nodes, i),
        m,
    ) == if node_path(nodes, i) == path {
        record_weight(record, m)
    } else {
        0
    } by {
        assert(records.drop_last().len() == 0);
        assert(direct_total(records.drop_last(), node_path(nodes, i), m) == 0);
        assert(records.last() == record);
    }
    let f = |i: int| node_path(nodes, i).len() as int;
    let x = set_int_range(0, n);
    let y = set_int_range(0, path.len() as int + 1);
    assert forall|a: int, b: int| x.contains(a) && x.contains(b) && #[trigger] f(a) == #[trigger] f(
        b,
    ) implies a == b by {
        assert(is_prefix(node_path(nodes, a), path));
        assert(is_prefix(node_path(nodes, b), path));
        assert(node_path(nodes, a) =~= node_path(nodes, b));
        lemma_node_path_injective(nodes, a, b);
    }
    assert(injective_on(f, x));
    let k = choose|k: int| 0 <= k < n && #[trigger] node_path(nodes, k) == record_path(
        records[0].stack@,
    );
    assert forall|d: int| #[trigger] y.contains(d) implies x.map(f).contains(d) by {
        lemma_ancestor_exists(nodes, k, d);
        let j = choose|j: int|
            0 <= j < n && #[trigger] node_path(nodes, j) == node_path(nodes, k).subrange(0, d);
        assert(x.contains(j) && f(j) == d);
    }
    assert forall|d: int| #[trigger] x.map(f).contains(d) implies y.contains(d) by {
        let a = choose|a: int| x.contains(a) && f(a) == d;
        assert(is_prefix(node_path(nodes, a), path));
    }
    assert(x.map(f) =~= y);
    lemma_int_range(0, n);
    lemma_int_range(0, path.len() as int + 1);
    lemma_map_size(x, y, f);
}

proof fn lemma_subtree_total_remove(s: Seq<Allocation>, k: int, p: Seq<CallSite>, m: int)
    requires
        0 <= k < s.len(),
    ensures
        subtree_total(s, p, m) == subtree_total(s.remove(k), p, m) + if is_prefix(
            p,
            record_path(s[k].stack@),
        ) {
            record_weight(s[k], m)
        } else {
            0
        },
    decreases s.len(),
{
    if k == s.len() - 1 {
        assert(s.remove(k) =~= s.drop_last());
    } else {
        lemma_subtree_total_remove(s.drop_last(), k, p, m);
        assert(s.drop_last().remove(k) =~= s.remove(k).drop_last());
        assert(s.remove(k).last() == s.last());
    }
}

/// Records in another order give the same totals through every path.
pub proof fn lemma_sums_order_independent(
    r1: Seq<Allocation>,
    r2: Seq<Allocation>,
    p: Seq<CallSite>,
    m: int,
)
    requires
        r1.to_multiset() == r2.to_multiset(),
    ensures
        subtree_total(r1, p, m) == subtree_total(r2, p, m),
    decreases r1.len(),
{
    broadcast use vstd::multiset::group_multiset_axioms;

    r1.to_multiset_ensures();
    r2.to_multiset_ensures();
    if r1.len() == 0 {
        assert(r2.len() == 0);
    } else {
        let x = r1.last();
        let rest = r1.drop_last();
        assert(r1 =~= rest.push(x));
        rest.to_multiset_ensures();
        assert(r1.to_multiset() =~= rest.to_multiset().insert(x));
        assert(r2.to_multiset().count(x) > 0);
        assert(r2.contains(x));
        let k = choose|k: int| 0 <= k < r2.len() && r2[k] == x;
        assert(r2.remove(k).to_multiset() =~= r2.to_multiset().remove(x));
        assert(rest.to_multiset() =~= r2.remove(k).to_multiset());
        lemma_sums_order_independent(rest, r2.remove(k), p, m);
        lemma_subtree_total_remove(r2, k, p, m);
    }
}

/// Folding the same records in another order gives isomorphic trees: the
/// same set of node paths, and nodes of equal paths carry the same call
/// site, the same category and the same totals.
#[verifier::rlimit(100)]
pub proof fn lemma_fold_order_independent(
    n1: Seq<TreeNode>,
    r1: Seq<Allocation>,
    n2: Seq<TreeNode>,
    r2: Seq<Allocation>,
    cwd: Seq<char>,
)
    requires
        describes(n1, r1, cwd),
        describes(n2, r2, cwd),
        r1.to_multiset() == r2.to_multiset(),
    ensures
        forall|i: int|
            0 <= i < n1.len() ==> exists|j: int|
                0 <= j < n2.len() && #[trigger] node_path(n2, j) == #[trigger] node_path(n1, i),
        forall|j: int|
            0 <= j < n2.len() ==> exists|i: int|
                0 <= i < n1.len() && #[trigger] node_path(n1, i) == #[trigger] node_path(n2, j),
        forall|i: int, j: int|
            0 <= i < n1.len() && 0 <= j < n2.len() && #[trigger] node_path(n1, i)
                == #[trigger] node_path(n2, j) ==> {
                &&& site_of(n1[i].key) == site_of(n2[j].key)
                &&& n1[i].category == n2[j].category
                &&& forall|m: int| 0 <= m < 4 ==> #[trigger] metric(n1[i], m) == metric(n2[j], m)
            },
{
    lemma_paths_covered(n1, r1, n2, r2, cwd);
    lemma_paths_covered(n2, r2, n1, r1, cwd);
    assert forall|i: int, j: int|
        0 <= i < n1.len() && 0 <= j < n2.len() && #[trigger] node_path(n1, i)
            == #[trigger] node_path(n2, j) implies {
        &&& site_of(n1[i].key) == site_of(n2[j].key)
        &&& n1[i].category == n2[j].category
        &&& forall|m: int| 0 <= m < 4 ==> #[trigger] metric(n1[i], m) == metric(n2[j], m)
    } by {
        lemma_same_path_same_node(n1, r1, n2, r2, cwd, i, j);
    }
}

proof fn lemma_same_path_same_node(
    n1: Seq<TreeNode>,
    r1: Seq<Allocation>,
    n2: Seq<TreeNode>,
    r2: Seq<Allocation>,
    cwd: Seq<char>,
    i: int,
    j: int,
)
    requires
        describes(n1, r1, cwd),
        describes(n2, r2, cwd),
        r1.to_multiset() == r2.to_multiset(),
        0 <= i < n1.len(),
        0 <= j < n2.len(),
        node_path(n1, i) == node_path(n2, j),
    ensures
        site_of(n1[i].key) == site_of(n2[j].key),
        n1[i].category == n2[j].category,
        forall|m: int| 0 <= m < 4 ==> #[trigger] metric(n1[i], m) == metric(n2[j], m),
{
    lemma_node_path_len(n1, i);
    lemma_node_path_len(n2, j);
    if i > 0 {
        assert(n1[i].parent < i);
        assert(n2[j].parent < j);
        assert(site_of(n1[i].key) == node_path(n1, i).last());
        assert(site_of(n2[j].key) == node_path(n2, j).last());
    }
    lemma_node_holds_subtree_totals(n1, r1, cwd, i);
    lemma_node_holds_subtree_totals(n2, r2, cwd, j);
    assert forall|m: int| 0 <= m < 4 implies #[trigger] metric(n1[i], m) == metric(n2[j], m) by {
        lemma_sums_order_independent(r1, r2, node_path(n1, i), m);
    }
}

/// Every node path of the tree of `r1` is a node path of the tree of `r2`,
/// when both hold the same records.
proof fn lemma_paths_covered(
    n1: Seq<TreeNode>,
    r1: Seq<Allocation>,
    n2: Seq<TreeNode>,
    r2: Seq<Allocation>,
    cwd: Seq<char>,
)
    requires
        describes(n1, r1, cwd),
        describes(n2, r2, cwd),
        r1.to_multiset() == r2.to_multiset(),
    ensures
        forall|i: int|
            0 <= i < n1.len() ==> exists|j: int|
                0 <= j < n2.len() && #[trigger] node_path(n2, j) == #[trigger] node_path(n1, i),
{
    r1.to_multiset_ensures();
    r2.to_multiset_ensures();
    assert forall|i: int| 0 <= i < n1.len() implies exists|j: int|
        0 <= j < n2.len() && #[trigger] node_path(n2, j) == #[trigger] node_path(n1, i) by {
        if i == 0 {
            assert(node_path(n2, 0) == node_path(n1, 0));
        } else {
            let u = choose|u: int|
                0 <= u < r1.len() && is_prefix(
                    #[trigger] node_path(n1, i),
                    record_path(#[trigger] r1[u].stack@),
                );
            let x = r1[u];
            assert(r1.contains(x));
            assert(r1.to_multiset().count(x) > 0);
            assert(r2.contains(x));
            let v = choose|v: int| 0 <= v < r2.len() && r2[v] == x;
            let k = choose|k: int|
                0 <= k < n2.len() && #[trigger] node_path(n2, k) == record_path(r2[v].stack@);
            lemma_ancestor_exists(n2, k, node_path(n1, i).len() as int);
        }
    }
}

/// The total of quantity `m` over the records whose path passes through `p`.
pub open spec fn subtree_total(records: Seq<Allocation>, p: Seq<CallSite>, m: int) -> int
    decreases records.len(),
{
    if records.len() == 0 {
        0
    } else {
        subtree_total(records.drop_last(), p, m) + if is_prefix(
            p,
            record_path(records.last().stack@),
        ) {
            record_weight(records.last(), m)
        } else {
            0
        }
    }
}

/// The total of quantity `m` over the records whose path goes on past `p`.
spec fn strict_total(records: Seq<Allocation>, p: Seq<CallSite>, m: int) -> int
    decreases records.len(),
{
    if records.len() == 0 {
        0
    } else {
        strict_total(records.drop_last(), p, m) + if is_prefix(
            p,
            record_path(records.last().stack@),
        ) && p.len() < record_path(records.last().stack@).len() {
            record_weight(records.last(), m)
        } else {
            0
        }
    }
}

/// The sum, over the children `c >= lo` of node `i`, of what the records
/// passing through `c` contribute.
spec fn children_subtree(
    nodes: Seq<TreeNode>,
    i: int,
    lo: int,
    records: Seq<Allocation>,
    m: int,
) -> int
    decreases nodes.len() - lo,
{
    if lo < 0 || lo >= nodes.len() {
        0
    } else {
        children_subtree(nodes, i, lo + 1, records, m) + if nodes[lo].parent == i {
            subtree_total(records, node_path(nodes, lo), m)
        } else {
            0
        }
    }
}

/// What one record contributes to the children `c >= lo` of node `i` that
/// its path passes through.
spec fn children_hits(nodes: Seq<TreeNode>, i: int, lo: int, x: Allocation, m: int) -> int
    decreases nodes.len() - lo,
{
    if lo < 0 || lo >= nodes.len() {
        0
    } else {
        children_hits(nodes, i, lo + 1, x, m) + if nodes[lo].parent == i && is_prefix(
            node_path(nodes, lo),
            record_path(x.stack@),
        ) {
            record_weight(x, m)
        } else {
            0
        }
    }
}

proof fn lemma_subtree_split(records: Seq<Allocation>, p: Seq<CallSite>, m: int)
    ensures
        subtree_total(records, p, m) == direct_total(records, p, m) + strict_total(records, p, m),
    decreases records.len(),
{
    if records.len() > 0 {
        lemma_subtree_split(records.drop_last(), p, m);
        let rp = record_path(records.last().stack@);
        if rp == p {
            assert(rp.subrange(0, p.len() as int) =~= rp);
        }
        if is_prefix(p, rp) && p.len() == rp.len() {
            assert(rp =~= p);
        }
    }
}

proof fn lemma_subtree_nonneg(records: Seq<Allocation>, p: Seq<CallSite>, m: int)
    requires
        0 <= m < 4,
    ensures
        subtree_total(records, p, m) >= 0,
    decreases records.len(),
{
    if records.len() > 0 {
        lemma_subtree_nonneg(records.drop_last(), p, m);
    }
}

/// Where no bytes of a kind pass through `p`, no events of that kind do.
proof fn lemma_no_bytes_no_events(records: Seq<Allocation>, p: Seq<CallSite>, m: int)
    requires
        m == 1 || m == 3,
        subtree_total(records, p, m - 1) == 0,
    ensures
        subtree_total(records, p, m) == 0,
    decreases records.len(),
{
    if records.len() > 0 {
        lemma_subtree_nonneg(records.drop_last(), p, m - 1);
        lemma_no_bytes_no_events(records.drop_last(), p, m);
    }
}

proof fn lemma_children_subtree_push(
    nodes: Seq<TreeNode>,
    i: int,
    lo: int,
    records: Seq<Allocation>,
    x: Allocation,
    m: int,
)
    requires
        0 <= lo,
    ensures
        children_subtree(nodes, i, lo, records.push(x), m) == children_subtree(
            nodes,
            i,
            lo,
            records,
            m,
        ) + children_hits(nodes, i, lo, x, m),
    decreases nodes.len() - lo,
{
    if lo < nodes.len() {
        lemma_children_subtree_push(nodes, i, lo + 1, records, x, m);
        assert(records.push(x).drop_last() =~= records);
    }
}

/// Only the child `c0` is hit.
proof fn lemma_children_hits_one(
    nodes: Seq<TreeNode>,
    i: int,
    lo: int,
    x: Allocation,
    m: int,
    c0: int,
    hit: bool,
)
    requires
        0 <= lo,
        forall|c: int|
            lo <= c < nodes.len() ==> ((#[trigger] nodes[c].parent == i && is_prefix(
                node_path(nodes, c),
                record_path(x.stack@),
            )) <==> (hit && c == c0)),
    ensures
        children_hits(nodes, i, lo, x, m) == if hit && lo <= c0 < nodes.len() {
            record_weight(x, m)
        } else {
            0
        },
    decreases nodes.len() - lo,
{
    if lo < nodes.len() {
        lemma_children_hits_one(nodes, i, lo + 1, x, m, c0, hit);
    }
}

proof fn lemma_children_hits(nodes: Seq<TreeNode>, i: int, x: Allocation, k: int, m: int)
    requires
        well_formed(nodes),
        0 <= i < nodes.len(),
        0 <= k < nodes.len(),
        node_path(nodes, k) == record_path(x.stack@),
    ensures
        children_hits(nodes, i, 1, x, m) == if is_prefix(
            node_path(nodes, i),
            record_path(x.stack@),
        ) && node_path(nodes, i).len() < record_path(x.stack@).len() {
            record_weight(x, m)
        } else {
            0
        },
{
    let rp = record_path(x.stack@);
    let p = node_path(nodes, i);
    let strict = is_prefix(p, rp) && p.len() < rp.len();
    let mut c0: int = 0;
    if strict {
        lemma_ancestor_exists(nodes, k, p.len() as int + 1);
        c0 = choose|j: int|
            0 <= j < nodes.len() && #[trigger] node_path(nodes, j) == node_path(nodes, k).subrange(
                0,
                p.len() as int + 1,
            );
        assert(node_path(nodes, c0).len() == p.len() as int + 1);
        assert(c0 > 0) by {
            if c0 == 0 {
                assert(node_path(nodes, 0).len() == 0);
            }
        }
        let pc = nodes[c0].parent as int;
        assert(nodes[c0].parent < c0);
        assert(node_path(nodes, c0) == node_path(nodes, pc).push(crate::stats::site_of(nodes[c0].key)));
        assert(node_path(nodes, pc) =~= p) by {
            assert(node_path(nodes, pc) =~= node_path(nodes, c0).drop_last());
            assert(rp.subrange(0, p.len() as int) == p);
        }
        lemma_node_path_injective(nodes, pc, i);
        assert(is_prefix(node_path(nodes, c0), rp)) by {
            assert(rp.subrange(0, p.len() as int + 1) =~= node_path(nodes, c0));
        }
    }
    assert forall|c: int| 1 <= c < nodes.len() implies ((#[trigger] nodes[c].parent == i
        && is_prefix(node_path(nodes, c), rp)) <==> (strict && c == c0)) by {
        if nodes[c].parent == i {
            assert(nodes[c].parent < c);
            assert(node_path(nodes, c) == p.push(crate::stats::site_of(nodes[c].key)));
            if is_prefix(node_path(nodes, c), rp) {
                assert(rp.subrange(0, p.len() as int) =~= node_path(nodes, c).subrange(
                    0,
                    p.len() as int,
                ));
                assert(node_path(nodes, c).subrange(0, p.len() as int) =~= p);
                assert(strict);
                assert(node_path(nodes, c) =~= node_path(nodes, c0));
                lemma_node_path_injective(nodes, c, c0);
            }
        }
    }
    lemma_children_hits_one(nodes, i, 1, x, m, c0, strict);
}

proof fn lemma_children_subtree_records(
    nodes: Seq<TreeNode>,
    records: Seq<Allocation>,
    cwd: Seq<char>,
    i: int,
    k: int,
    m: int,
)
    requires
        describes(nodes, records, cwd),
        0 <= i < nodes.len(),
        0 <= k <= records.len(),
    ensures
        children_subtree(nodes, i, 1, records.subrange(0, k), m) == strict_total(
            records.subrange(0, k),
            node_path(nodes, i),
            m,
        ),
    decreases k,
{
    if k == 0 {
        lemma_children_subtree_empty(nodes, i, 1, records.subrange(0, 0), m);
    } else {
        lemma_children_subtree_records(nodes, records, cwd, i, k - 1, m);
        let s = records.subrange(0, k - 1);
        assert(records.subrange(0, k) =~= s.push(records[k - 1]));
        let x = records[k - 1];
        let j = choose|j: int|
            0 <= j < nodes.len() && #[trigger] node_path(nodes, j) == record_path(
                records[k - 1].stack@,
            );
        lemma_children_hits(nodes, i, x, j, m);
        lemma_children_subtree_step(nodes, i, s, records[k - 1], m);
    }
}

proof fn lemma_children_subtree_step(
    nodes: Seq<TreeNode>,
    i: int,
    s: Seq<Allocation>,
    x: Allocation,
    m: int,
)
    requires
        children_hits(nodes, i, 1, x, m) == if is_prefix(
            node_path(nodes, i),
            record_path(x.stack@),
        ) && node_path(nodes, i).len() < record_path(x.stack@).len() {
            record_weight(x, m)
        } else {
            0
        },
    ensures
        children_subtree(nodes, i, 1, s.push(x), m) - strict_total(s.push(x), node_path(nodes, i), m)
            == children_subtree(nodes, i, 1, s, m) - strict_total(s, node_path(nodes, i), m),
{
    lemma_children_subtree_push(nodes, i, 1, s, x, m);
    assert(s.push(x).drop_last() =~= s);
}

proof fn lemma_children_subtree_empty(
    nodes: Seq<TreeNode>,
    i: int,
    lo: int,
    records: Seq<Allocation>,
    m: int,
)
    requires
        records.len() == 0,
        0 <= lo,
    ensures
        children_subtree(nodes, i, lo, records, m) == 0,
    decreases nodes.len() - lo,
{
    if lo < nodes.len() {
        lemma_children_subtree_empty(nodes, i, lo + 1, records, m);
    }
}

proof fn lemma_children_total_closed(
    nodes: Seq<TreeNode>,
    records: Seq<Allocation>,
    i: int,
    lo: int,
    m: int,
)
    requires
        0 <= lo,
        0 <= m < 4,
        forall|c: int, q: int|
            0 <= c < nodes.len() && nodes[c].parent == i && 0 <= q < 4 && lo <= c ==> #[trigger] metric(
                nodes[c],
                q,
            ) == subtree_total(records, node_path(nodes, c), q),
    ensures
        children_total(nodes, i, lo, m) == children_subtree(nodes, i, lo, records, m),
    decreases nodes.len() - lo,
{
    if lo < nodes.len() {
        lemma_children_total_closed(nodes, records, i, lo + 1, m);
        if nodes[lo].parent == i && !reaches_parent(nodes[lo], m) {
            assert(metric(nodes[lo], m - 1) == subtree_total(records, node_path(nodes, lo), m - 1));
            assert(metric(nodes[lo], m) == subtree_total(records, node_path(nodes, lo), m));
            lemma_no_bytes_no_events(records, node_path(nodes, lo), m);
        }
    }
}

/// Each node of a window's tree holds, for each quantity, the total over the
/// records whose path passes through the node.
pub proof fn lemma_node_holds_subtree_totals(
    nodes: Seq<TreeNode>,
    records: Seq<Allocation>,
    cwd: Seq<char>,
    i: int,
)
    requires
        describes(nodes, records, cwd),
        0 <= i < nodes.len(),
    ensures
        forall|m: int|
            0 <= m < 4 ==> #[trigger] metric(nodes[i], m) == subtree_total(
                records,
                node_path(nodes, i),
                m,
            ),
    decreases nodes.len() - i,
{
    assert forall|c: int, q: int|
        0 <= c < nodes.len() && nodes[c].parent == i && 0 <= q < 4 && 1 <= c implies #[trigger] metric(
        nodes[c],
        q,
    ) == subtree_total(records, node_path(nodes, c), q) by {
        assert(nodes[c].parent < c);
        lemma_node_holds_subtree_totals(nodes, records, cwd, c);
    }
    assert forall|m: int| 0 <= m < 4 implies #[trigger] metric(nodes[i], m) == subtree_total(
        records,
        node_path(nodes, i),
        m,
    ) by {
        lemma_children_total_closed(nodes, records, i, 1, m);
        lemma_children_subtree_records(nodes, records, cwd, i, records.len() as int, m);
        assert(records.subrange(0, records.len() as int) =~= records);
        lemma_subtree_split(records, node_path(nodes, i), m);
    }
}

} // verus!
