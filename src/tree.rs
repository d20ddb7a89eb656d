//! The call-site tree: records folded by shared stack prefix, with totals
//! aggregated bottom-up.
use vstd::prelude::*;
use crate::category::{category_of, guess_category, Category};
use crate::stats::{
    frame_site, key_address, root_site, site_of, Allocation, CallSite, FrameInfo, Key, Stats,
};

verus! {

/// One node of the tree. Node `0` is the root; every other node has a parent
/// with a smaller index, and lists its children in order of insertion.
#[derive(Debug)]
pub struct TreeNode {
    pub key: Key,
    pub category: Category,
    pub allocation: usize,
    pub allocation_count: usize,
    pub deallocation: usize,
    pub deallocation_count: usize,
    pub parent: usize,
    pub children: Vec<usize>,
}

/// A call-site tree held as an arena of nodes addressed by index.
#[derive(Debug)]
pub struct Tree {
    pub nodes: Vec<TreeNode>,
}

/// Why a set of records could not be folded into a tree.
#[derive(Debug, Clone, Copy, PartialEq, Eq, Structural)]
pub enum TreeError {
    /// The allocated or deallocated bytes add up past `usize::MAX`.
    TotalsOverflow,
}

/// The call sites of a stack, outermost first, skipping frames without one.
pub open spec fn record_path(stack: Seq<FrameInfo>) -> Seq<CallSite>
    decreases stack.len(),
{
    if stack.len() == 0 {
        Seq::empty()
    } else {
        let pre = record_path(stack.drop_last());
        match frame_site(stack.last()) {
            Some(s) => pre.push(s),
            None => pre,
        }
    }
}

/// The call sites from the root down to node `i`, the root's own excluded.
pub open spec fn node_path(nodes: Seq<TreeNode>, i: int) -> Seq<CallSite>
    decreases i,
{
    if 0 < i < nodes.len() && nodes[i].parent < i {
        node_path(nodes, nodes[i].parent as int).push(site_of(nodes[i].key))
    } else {
        Seq::empty()
    }
}

pub open spec fn is_prefix(a: Seq<CallSite>, b: Seq<CallSite>) -> bool {
    a.len() <= b.len() && b.subrange(0, a.len() as int) == a
}

/// The four quantities a node carries: `0` allocated bytes, `1` allocation
/// count, `2` deallocated bytes, `3` deallocation count.
pub open spec fn metric(n: TreeNode, m: int) -> int {
    if m == 0 {
        n.allocation as int
    } else if m == 1 {
        n.allocation_count as int
    } else if m == 2 {
        n.deallocation as int
    } else {
        n.deallocation_count as int
    }
}

/// What one record adds to a quantity: its sizes, and one event for each
/// nonzero size.
pub open spec fn record_weight(a: Allocation, m: int) -> int {
    if m == 0 {
        a.allocation_size as int
    } else if m == 1 {
        if a.allocation_size > 0 { 1 } else { 0 }
    } else if m == 2 {
        a.deallocation_size as int
    } else {
        if a.deallocation_size > 0 { 1 } else { 0 }
    }
}

/// A child's count reaches its parent only where the child's bytes of the
/// same kind are nonzero; bytes always do.
pub open spec fn reaches_parent(n: TreeNode, m: int) -> bool {
    if m == 1 {
        n.allocation > 0
    } else if m == 3 {
        n.deallocation > 0
    } else {
        true
    }
}

/// The direct contribution to the node of path `p`: the records whose stack
/// ends there.
pub open spec fn direct_total(records: Seq<Allocation>, p: Seq<CallSite>, m: int) -> int
    decreases records.len(),
{
    if records.len() == 0 {
        0
    } else {
        direct_total(records.drop_last(), p, m) + if record_path(records.last().stack@) == p {
            record_weight(records.last(), m)
        } else {
            0
        }
    }
}

/// The sum of a quantity over all records.
pub open spec fn grand_total(records: Seq<Allocation>, m: int) -> int
    decreases records.len(),
{
    if records.len() == 0 {
        0
    } else {
        grand_total(records.drop_last(), m) + record_weight(records.last(), m)
    }
}

/// The sum of a quantity over the nodes `c >= lo` whose parent is `j` and
/// whose value reaches it.
pub open spec fn children_total(nodes: Seq<TreeNode>, j: int, lo: int, m: int) -> int
    decreases nodes.len() - lo,
{
    if lo < 0 || lo >= nodes.len() {
        0
    } else {
        children_total(nodes, j, lo + 1, m) + if nodes[lo].parent == j && reaches_parent(
            nodes[lo],
            m,
        ) {
            metric(nodes[lo], m)
        } else {
            0
        }
    }
}

/// The sum of a quantity over the nodes below index `hi`.
pub open spec fn nodes_total(nodes: Seq<TreeNode>, hi: int, m: int) -> int
    decreases hi,
{
    if hi <= 0 {
        0
    } else {
        nodes_total(nodes, hi - 1, m) + metric(nodes[hi - 1], m)
    }
}

/// The arena is a tree: parents come first, children lists are exact and in
/// index order, and siblings stand for distinct call sites.
pub open spec fn well_formed(nodes: Seq<TreeNode>) -> bool {
    &&& nodes.len() >= 1
    &&& nodes[0].parent == 0
    &&& forall|i: int| 0 < i < nodes.len() ==> #[trigger] nodes[i].parent < i
    &&& forall|i: int, k: int|
        0 <= i < nodes.len() && 0 <= k < nodes[i].children@.len() ==> {
            let c = #[trigger] nodes[i].children@[k] as int;
            i < c < nodes.len() && nodes[c].parent == i
        }
    &&& forall|i: int, a: int, b: int|
        0 <= i < nodes.len() && 0 <= a < b < nodes[i].children@.len()
            ==> #[trigger] nodes[i].children@[a] < #[trigger] nodes[i].children@[b]
    &&& forall|c: int|
        0 < c < nodes.len() ==> #[trigger] nodes[nodes[c].parent as int].children@.contains(
            c as usize,
        )
    &&& forall|a: int, b: int|
        0 < a < nodes.len() && 0 < b < nodes.len() && a != b && nodes[a].parent == nodes[b].parent
            ==> site_of(#[trigger] nodes[a].key) != site_of(#[trigger] nodes[b].key)
}

/// Two arenas agree on the shape of the first `n` nodes.
pub open spec fn same_shape_upto(a: Seq<TreeNode>, b: Seq<TreeNode>, n: int) -> bool {
    &&& n <= a.len()
    &&& n <= b.len()
    &&& forall|k: int|
        0 <= k < n ==> #[trigger] a[k].parent == b[k].parent && site_of(a[k].key) == site_of(
            b[k].key,
        )
}

pub proof fn lemma_node_path_stable(a: Seq<TreeNode>, b: Seq<TreeNode>, n: int, i: int)
    requires
        same_shape_upto(a, b, n),
        0 <= i < n,
    ensures
        node_path(a, i) == node_path(b, i),
    decreases i,
{
    if 0 < i && a[i].parent < i {
        lemma_node_path_stable(a, b, n, a[i].parent as int);
    }
}

pub proof fn lemma_node_path_len(nodes: Seq<TreeNode>, i: int)
    requires
        well_formed(nodes),
        0 <= i < nodes.len(),
    ensures
        (node_path(nodes, i).len() == 0) == (i == 0),
{
    if i > 0 {
        assert(nodes[i].parent < i);
    }
}

/// In a well-formed arena, distinct nodes have distinct paths.
pub proof fn lemma_node_path_injective(nodes: Seq<TreeNode>, i: int, j: int)
    requires
        well_formed(nodes),
        0 <= i < nodes.len(),
        0 <= j < nodes.len(),
        node_path(nodes, i) == node_path(nodes, j),
    ensures
        i == j,
    decreases i + j,
{
    lemma_node_path_len(nodes, i);
    lemma_node_path_len(nodes, j);
    if i > 0 && j > 0 {
        let pi = nodes[i].parent as int;
        let pj = nodes[j].parent as int;
        assert(nodes[i].parent < i);
        assert(nodes[j].parent < j);
        let a = node_path(nodes, pi);
        let b = node_path(nodes, pj);
        assert(a == node_path(nodes, i).drop_last());
        assert(b == node_path(nodes, j).drop_last());
        assert(a =~= b);
        lemma_node_path_injective(nodes, pi, pj);
        assert(site_of(nodes[i].key) == node_path(nodes, i).last());
        assert(site_of(nodes[j].key) == node_path(nodes, j).last());
    }
}

/// Every prefix of a node's path is the path of some node.
pub proof fn lemma_ancestor_exists(nodes: Seq<TreeNode>, i: int, len: int)
    requires
        well_formed(nodes),
        0 <= i < nodes.len(),
        0 <= len <= node_path(nodes, i).len(),
    ensures
        exists|j: int|
            0 <= j < nodes.len() && #[trigger] node_path(nodes, j) == node_path(nodes, i).subrange(
                0,
                len,
            ),
    decreases i,
{
    let path = node_path(nodes, i);
    if len == path.len() {
        assert(path.subrange(0, len) =~= path);
    } else {
        assert(nodes[i].parent < i);
        let p = nodes[i].parent as int;
        assert(path == node_path(nodes, p).push(site_of(nodes[i].key)));
        lemma_ancestor_exists(nodes, p, len);
        assert(node_path(nodes, p).subrange(0, len) =~= path.subrange(0, len));
    }
}

pub proof fn lemma_record_path_step(stack: Seq<FrameInfo>, j: int)
    requires
        0 <= j < stack.len(),
    ensures
        record_path(stack.subrange(0, j + 1)) == match frame_site(stack[j]) {
            Some(s) => record_path(stack.subrange(0, j)).push(s),
            None => record_path(stack.subrange(0, j)),
        },
{
    assert(stack.subrange(0, j + 1).drop_last() =~= stack.subrange(0, j));
}

pub proof fn lemma_record_path_prefix(stack: Seq<FrameInfo>, j: int)
    requires
        0 <= j <= stack.len(),
    ensures
        is_prefix(record_path(stack.subrange(0, j)), record_path(stack)),
    decreases stack.len() - j,
{
    if j == stack.len() {
        assert(stack.subrange(0, j) =~= stack);
        assert(record_path(stack).subrange(0, record_path(stack).len() as int) =~= record_path(
            stack,
        ));
    } else {
        lemma_record_path_prefix(stack, j + 1);
        lemma_record_path_step(stack, j);
        let a = record_path(stack.subrange(0, j));
        let b = record_path(stack.subrange(0, j + 1));
        let c = record_path(stack);
        assert(c.subrange(0, a.len() as int) =~= b.subrange(0, a.len() as int));
        assert(b.subrange(0, a.len() as int) =~= a);
    }
}

pub proof fn lemma_grand_total_step(records: Seq<Allocation>, t: int, m: int)
    requires
        0 <= t < records.len(),
    ensures
        grand_total(records.subrange(0, t + 1), m) == grand_total(records.subrange(0, t), m)
            + record_weight(records[t], m),
{
    assert(records.subrange(0, t + 1).drop_last() =~= records.subrange(0, t));
}

pub proof fn lemma_direct_total_step(records: Seq<Allocation>, t: int, p: Seq<CallSite>, m: int)
    requires
        0 <= t < records.len(),
    ensures
        direct_total(records.subrange(0, t + 1), p, m) == direct_total(
            records.subrange(0, t),
            p,
            m,
        ) + if record_path(records[t].stack@) == p {
            record_weight(records[t], m)
        } else {
            0
        },
{
    assert(records.subrange(0, t + 1).drop_last() =~= records.subrange(0, t));
}

pub proof fn lemma_direct_total_bounds(records: Seq<Allocation>, p: Seq<CallSite>, m: int)
    requires
        0 <= m < 4,
    ensures
        0 <= direct_total(records, p, m) <= grand_total(records, m),
    decreases records.len(),
{
    if records.len() > 0 {
        lemma_direct_total_bounds(records.drop_last(), p, m);
    }
}

pub proof fn lemma_direct_total_absent(records: Seq<Allocation>, p: Seq<CallSite>, m: int)
    requires
        forall|t: int| 0 <= t < records.len() ==> record_path(#[trigger] records[t].stack@) != p,
    ensures
        direct_total(records, p, m) == 0,
    decreases records.len(),
{
    if records.len() > 0 {
        let r = records.drop_last();
        assert forall|t: int| 0 <= t < r.len() implies record_path(#[trigger] r[t].stack@) != p by {
            assert(r[t] == records[t]);
        }
        lemma_direct_total_absent(r, p, m);
        assert(records.last() == records[records.len() - 1]);
    }
}

pub proof fn lemma_grand_total_counts(records: Seq<Allocation>, m: int)
    requires
        m == 1 || m == 3,
    ensures
        0 <= grand_total(records, m) <= records.len(),
    decreases records.len(),
{
    if records.len() > 0 {
        lemma_grand_total_counts(records.drop_last(), m);
    }
}

pub proof fn lemma_grand_total_nonneg(records: Seq<Allocation>, m: int)
    requires
        0 <= m < 4,
    ensures
        0 <= grand_total(records, m),
    decreases records.len(),
{
    if records.len() > 0 {
        lemma_grand_total_nonneg(records.drop_last(), m);
    }
}

/// `nodes_total` reads only the quantity `m` of the nodes below `hi`.
pub proof fn lemma_nodes_total_stable(a: Seq<TreeNode>, b: Seq<TreeNode>, hi: int, m: int)
    requires
        hi <= a.len(),
        hi <= b.len(),
        forall|k: int| 0 <= k < hi ==> #[trigger] metric(a[k], m) == metric(b[k], m),
    ensures
        nodes_total(a, hi, m) == nodes_total(b, hi, m),
    decreases hi,
{
    if hi > 0 {
        lemma_nodes_total_stable(a, b, hi - 1, m);
    }
}

/// Changing one node's quantity below `hi` changes the total by as much.
pub proof fn lemma_nodes_total_update(
    a: Seq<TreeNode>,
    b: Seq<TreeNode>,
    hi: int,
    c: int,
    m: int,
)
    requires
        hi <= a.len(),
        hi <= b.len(),
        0 <= c < hi,
        forall|k: int| 0 <= k < hi && k != c ==> #[trigger] metric(a[k], m) == metric(b[k], m),
    ensures
        nodes_total(b, hi, m) == nodes_total(a, hi, m) + metric(b[c], m) - metric(a[c], m),
    decreases hi,
{
    if hi - 1 == c {
        lemma_nodes_total_stable(a, b, hi - 1, m);
    } else {
        lemma_nodes_total_update(a, b, hi - 1, c, m);
    }
}

/// Two distinct nodes below `hi` together hold no more than the total.
pub proof fn lemma_nodes_total_pair(nodes: Seq<TreeNode>, hi: int, a: int, b: int, m: int)
    requires
        hi <= nodes.len(),
        0 <= a < hi,
        0 <= b < hi,
        a != b,
        0 <= m < 4,
    ensures
        metric(nodes[a], m) + metric(nodes[b], m) <= nodes_total(nodes, hi, m),
    decreases hi,
{
    lemma_nodes_total_nonneg(nodes, hi - 1, m);
    if a != hi - 1 && b != hi - 1 {
        lemma_nodes_total_pair(nodes, hi - 1, a, b, m);
    } else if a == hi - 1 {
        lemma_nodes_total_single(nodes, hi - 1, b, m);
    } else {
        lemma_nodes_total_single(nodes, hi - 1, a, m);
    }
}

pub proof fn lemma_nodes_total_single(nodes: Seq<TreeNode>, hi: int, a: int, m: int)
    requires
        hi <= nodes.len(),
        0 <= a < hi,
        0 <= m < 4,
    ensures
        metric(nodes[a], m) <= nodes_total(nodes, hi, m),
    decreases hi,
{
    lemma_nodes_total_nonneg(nodes, hi - 1, m);
    if a != hi - 1 {
        lemma_nodes_total_single(nodes, hi - 1, a, m);
    }
}

pub proof fn lemma_nodes_total_nonneg(nodes: Seq<TreeNode>, hi: int, m: int)
    requires
        hi <= nodes.len(),
        0 <= m < 4,
    ensures
        0 <= nodes_total(nodes, hi, m),
    decreases hi,
{
    if hi > 0 {
        lemma_nodes_total_nonneg(nodes, hi - 1, m);
    }
}

/// `children_total` reads only the nodes from `lo` on.
pub proof fn lemma_children_total_stable(
    a: Seq<TreeNode>,
    b: Seq<TreeNode>,
    j: int,
    lo: int,
    m: int,
)
    requires
        a.len() == b.len(),
        0 <= lo,
        forall|k: int|
            lo <= k < a.len() ==> (#[trigger] a[k]).parent == b[k].parent && metric(a[k], m)
                == metric(b[k], m) && reaches_parent(a[k], m) == reaches_parent(b[k], m),
    ensures
        children_total(a, j, lo, m) == children_total(b, j, lo, m),
    decreases a.len() - lo,
{
    if lo < a.len() {
        lemma_children_total_stable(a, b, j, lo + 1, m);
    }
}

/// The path of `record` passes through `p`.
pub open spec fn reaches(record: Allocation, p: Seq<CallSite>) -> bool {
    is_prefix(p, record_path(record.stack@))
}

/// Record `t` is the first of `records` whose path passes through `p`.
pub open spec fn first_through(records: Seq<Allocation>, p: Seq<CallSite>, t: int) -> bool {
    &&& 0 <= t < records.len()
    &&& reaches(records[t], p)
    &&& forall|u: int| 0 <= u < t ==> !reaches(#[trigger] records[u], p)
}

/// Node `i`, unless it is the root, carries the function address of the
/// frame that created it: frame `j` of the first record through the node,
/// the frame at which that record's path reaches the node.
pub open spec fn key_from_first_frame(nodes: Seq<TreeNode>, records: Seq<Allocation>, i: int) -> bool {
    0 < i < nodes.len() ==> exists|t: int, j: int|
        #![trigger records[t].stack@[j]]
        first_through(records, node_path(nodes, i), t) && 0 <= j < records[t].stack@.len()
            && record_path(records[t].stack@.subrange(0, j + 1)) == node_path(nodes, i)
            && frame_site(records[t].stack@[j]) is Some && nodes[i].key.fn_address == key_address(
            records[t].stack@[j],
        )
}

pub open spec fn keys_from_first_frames(nodes: Seq<TreeNode>, records: Seq<Allocation>) -> bool {
    forall|i: int| #[trigger] key_from_first_frame(nodes, records, i)
}

/// Some record among the first `t + 1` passes through `p`.
pub open spec fn passed_by(records: Seq<Allocation>, p: Seq<CallSite>, t: int) -> bool {
    exists|u: int| 0 <= u <= t && #[trigger] reaches(records[u], p)
}

/// If record `t` passes through node `b`, a record no later passes through
/// the earlier node `a`.
pub open spec fn passage_ordered(
    nodes: Seq<TreeNode>,
    records: Seq<Allocation>,
    a: int,
    b: int,
    t: int,
) -> bool {
    0 <= a < b < nodes.len() && 0 <= t < records.len() && reaches(records[t], node_path(nodes, b))
        ==> passed_by(records, node_path(nodes, a), t)
}

/// Nodes stand in order of first passage: any record through a node is
/// preceded, or matched, by a record through each earlier node. Siblings,
/// which no record passes both, thus come in order of their first record.
pub open spec fn in_first_passage_order(nodes: Seq<TreeNode>, records: Seq<Allocation>) -> bool {
    forall|a: int, b: int, t: int| #[trigger] passage_ordered(nodes, records, a, b, t)
}

/// The shape facts of an arena that holds `records` folded in: a rooted
/// tree whose nodes carry the category of their own file and no source
/// context, with a node for the path of every record.
pub open spec fn folded(nodes: Seq<TreeNode>, records: Seq<Allocation>, cwd: Seq<char>) -> bool {
    &&& well_formed(nodes)
    &&& site_of(nodes[0].key) == root_site()
    &&& nodes[0].category == Category::Unknown
    &&& nodes[0].key.fn_address == 0
    &&& forall|i: int|
        0 < i < nodes.len() ==> #[trigger] nodes[i].category == category_of(
            cwd,
            nodes[i].key.filename@,
        )
    &&& forall|i: int| 0 <= i < nodes.len() ==> (#[trigger] nodes[i]).key.file_content is None
    &&& forall|t: int|
        0 <= t < records.len() ==> exists|i: int|
            0 <= i < nodes.len() && #[trigger] node_path(nodes, i) == record_path(
                #[trigger] records[t].stack@,
            )
}

/// Every node but the root lies on the path of some record.
pub open spec fn no_stray(nodes: Seq<TreeNode>, records: Seq<Allocation>) -> bool {
    forall|i: int|
        0 < i < nodes.len() ==> exists|t: int|
            0 <= t < records.len() && is_prefix(
                #[trigger] node_path(nodes, i),
                record_path(#[trigger] records[t].stack@),
            )
}

/// Each node holds exactly the direct contribution of the records ending there.
pub open spec fn direct_metrics(nodes: Seq<TreeNode>, records: Seq<Allocation>) -> bool {
    forall|i: int, m: int|
        0 <= i < nodes.len() && 0 <= m < 4 ==> #[trigger] metric(nodes[i], m) == direct_total(
            records,
            node_path(nodes, i),
            m,
        )
}

/// Each quantity summed over the nodes equals its sum over the records.
pub open spec fn totals_match(nodes: Seq<TreeNode>, records: Seq<Allocation>) -> bool {
    forall|m: int|
        0 <= m < 4 ==> #[trigger] nodes_total(nodes, nodes.len() as int, m) == grand_total(
            records,
            m,
        )
}

/// `nodes` is the tree of `records`: its shape is that of the records' paths,
/// each node holds its direct contribution plus what its children pass up,
/// the root holds the grand totals of bytes, nodes (and so siblings) stand
/// in order of first passage, and each node's key carries the function
/// address of the frame that created it.
pub open spec fn describes(nodes: Seq<TreeNode>, records: Seq<Allocation>, cwd: Seq<char>) -> bool {
    &&& aggregated_from(nodes, records, cwd)
    &&& keys_from_first_frames(nodes, records)
    &&& in_first_passage_order(nodes, records)
}

/// The shape and the totals of the tree of `records`.
pub open spec fn aggregated_from(
    nodes: Seq<TreeNode>,
    records: Seq<Allocation>,
    cwd: Seq<char>,
) -> bool {
    &&& folded(nodes, records, cwd)
    &&& no_stray(nodes, records)
    &&& forall|i: int, m: int|
        0 <= i < nodes.len() && 0 <= m < 4 ==> #[trigger] metric(nodes[i], m) == direct_total(
            records,
            node_path(nodes, i),
            m,
        ) + children_total(nodes, i, 1, m)
    &&& metric(nodes[0], 0) == grand_total(records, 0)
    &&& metric(nodes[0], 2) == grand_total(records, 2)
}

pub proof fn lemma_grand_total_prefix(records: Seq<Allocation>, t: int, m: int)
    requires
        0 <= t <= records.len(),
        0 <= m < 4,
    ensures
        0 <= grand_total(records.subrange(0, t), m) <= grand_total(records, m),
    decreases records.len() - t,
{
    if t == records.len() {
        assert(records.subrange(0, t) =~= records);
        lemma_grand_total_nonneg(records, m);
    } else {
        lemma_grand_total_prefix(records, t + 1, m);
        lemma_grand_total_step(records, t, m);
        lemma_grand_total_nonneg(records.subrange(0, t), m);
    }
}

/// The order of first passage and the keys' origin carry over when one
/// more record joins and the nodes stay.
proof fn lemma_passage_extend(o: Seq<TreeNode>, pre: Seq<Allocation>, post: Seq<Allocation>)
    requires
        post.len() == pre.len() + 1,
        forall|u: int| 0 <= u < pre.len() ==> post[u] == pre[u],
        in_first_passage_order(o, pre),
        keys_from_first_frames(o, pre),
        no_stray(o, pre),
    ensures
        in_first_passage_order(o, post),
        keys_from_first_frames(o, post),
{
    let t = pre.len() as int;
    assert forall|a: int, b: int, v: int| #[trigger] passage_ordered(o, post, a, b, v) by {
        if 0 <= a < b < o.len() && 0 <= v < post.len() && reaches(post[v], node_path(o, b)) {
            if v < t {
                assert(post[v] == pre[v]);
                assert(passage_ordered(o, pre, a, b, v));
                let u = choose|u: int| 0 <= u <= v && #[trigger] reaches(pre[u], node_path(o, a));
                assert(post[u] == pre[u]);
                assert(reaches(post[u], node_path(o, a)));
            } else if a == 0 {
                assert(record_path(post[v].stack@).subrange(0, 0) =~= node_path(o, 0));
                assert(reaches(post[v], node_path(o, a)));
            } else {
                let u = choose|u: int|
                    0 <= u < pre.len() && is_prefix(
                        #[trigger] node_path(o, a),
                        record_path(#[trigger] pre[u].stack@),
                    );
                assert(post[u] == pre[u]);
                assert(reaches(post[u], node_path(o, a)));
            }
        }
    }
    assert forall|i: int| #[trigger] key_from_first_frame(o, post, i) by {
        if 0 < i < o.len() {
            assert(key_from_first_frame(o, pre, i));
            let (tt, j) = choose|tt: int, j: int|
                #![trigger pre[tt].stack@[j]]
                first_through(pre, node_path(o, i), tt) && 0 <= j < pre[tt].stack@.len()
                    && record_path(pre[tt].stack@.subrange(0, j + 1)) == node_path(o, i)
                    && frame_site(pre[tt].stack@[j]) is Some && o[i].key.fn_address == key_address(
                    pre[tt].stack@[j],
                );
            assert(post[tt] == pre[tt]);
            assert forall|u: int| 0 <= u < tt implies !reaches(#[trigger] post[u], node_path(o, i)) by {
                assert(post[u] == pre[u]);
            }
            assert(first_through(post, node_path(o, i), tt));
            assert(post[tt].stack@[j] == pre[tt].stack@[j]);
        }
    }
}

/// The order of first passage and the keys' origin carry over when only the
/// nodes' quantities or children lists change.
proof fn lemma_passage_kept(o: Seq<TreeNode>, n: Seq<TreeNode>, records: Seq<Allocation>)
    requires
        n.len() == o.len(),
        forall|i: int| 0 <= i < o.len() ==> #[trigger] node_path(n, i) == node_path(o, i),
        forall|i: int| 0 <= i < o.len() ==> (#[trigger] n[i]).key == o[i].key,
        in_first_passage_order(o, records),
        keys_from_first_frames(o, records),
    ensures
        in_first_passage_order(n, records),
        keys_from_first_frames(n, records),
{
    assert forall|a: int, b: int, v: int| #[trigger] passage_ordered(n, records, a, b, v) by {
        assert(passage_ordered(o, records, a, b, v));
        if 0 <= a < b < n.len() {
            assert(node_path(n, b) == node_path(o, b));
            assert(node_path(n, a) == node_path(o, a));
        }
    }
    assert forall|i: int| #[trigger] key_from_first_frame(n, records, i) by {
        assert(key_from_first_frame(o, records, i));
        if 0 < i < n.len() {
            assert(node_path(n, i) == node_path(o, i));
            assert(n[i].key == o[i].key);
        }
    }
}

/// A node appended for frame `j` of the newest record, whose path no earlier
/// record passes, keeps the order of first passage and takes its key's
/// origin from that frame.
proof fn lemma_passage_add_node(
    o: Seq<TreeNode>,
    n: Seq<TreeNode>,
    pre: Seq<Allocation>,
    post: Seq<Allocation>,
    j: int,
    n0: int,
)
    requires
        well_formed(o),
        well_formed(n),
        n.len() == o.len() + 1,
        forall|i: int| 0 <= i < o.len() ==> #[trigger] node_path(n, i) == node_path(o, i),
        forall|i: int| 0 <= i < o.len() ==> (#[trigger] n[i]).key == o[i].key,
        post.len() == pre.len() + 1,
        forall|u: int| 0 <= u < pre.len() ==> post[u] == pre[u],
        forall|u: int|
            0 <= u < pre.len() ==> exists|k: int|
                0 <= k < o.len() && #[trigger] node_path(o, k) == record_path(
                    #[trigger] pre[u].stack@,
                ),
        0 <= j < post[pre.len() as int].stack@.len(),
        node_path(n, o.len() as int) == record_path(
            post[pre.len() as int].stack@.subrange(0, j + 1),
        ),
        frame_site(post[pre.len() as int].stack@[j]) is Some,
        n[o.len() as int].key.fn_address == key_address(post[pre.len() as int].stack@[j]),
        1 <= n0 <= o.len(),
        in_first_passage_order(o, post),
        keys_from_first_frames(o, post),
        forall|i: int|
            0 < i < n0 ==> passed_by(post, #[trigger] node_path(o, i), pre.len() - 1),
        forall|i: int| n0 <= i < o.len() ==> reaches(post[pre.len() as int], #[trigger] node_path(o, i)),
    ensures
        in_first_passage_order(n, post),
        keys_from_first_frames(n, post),
        forall|i: int|
            0 < i < n0 ==> passed_by(post, #[trigger] node_path(n, i), pre.len() - 1),
        forall|i: int| n0 <= i < n.len() ==> reaches(post[pre.len() as int], #[trigger] node_path(n, i)),
{
    let t = pre.len() as int;
    let c = o.len() as int;
    let stack = post[t].stack@;
    let p = node_path(n, c);
    lemma_record_path_prefix(stack, j + 1);
    assert(reaches(post[t], p));
    assert forall|u: int| 0 <= u < t implies !reaches(#[trigger] post[u], p) by {
        if reaches(post[u], p) {
            assert(post[u] == pre[u]);
            let k = choose|k: int|
                0 <= k < o.len() && #[trigger] node_path(o, k) == record_path(pre[u].stack@);
            lemma_ancestor_exists(o, k, p.len() as int);
            let q = choose|q: int|
                0 <= q < o.len() && #[trigger] node_path(o, q) == node_path(o, k).subrange(
                    0,
                    p.len() as int,
                );
            assert(node_path(o, q) =~= p);
            assert(node_path(n, q) == p);
            lemma_node_path_injective(n, q, c);
        }
    }
    assert(first_through(post, p, t));
    assert forall|i: int| 0 < i < n0 implies passed_by(post, #[trigger] node_path(n, i), t - 1) by {
        assert(node_path(n, i) == node_path(o, i));
    }
    assert forall|i: int| n0 <= i < n.len() implies reaches(post[t], #[trigger] node_path(n, i)) by {
        if i < c {
            assert(node_path(n, i) == node_path(o, i));
        }
    }
    assert forall|a: int, b: int, v: int| #[trigger] passage_ordered(n, post, a, b, v) by {
        if 0 <= a < b < n.len() && 0 <= v < post.len() && reaches(post[v], node_path(n, b)) {
            assert(node_path(n, a) == node_path(o, a));
            if b < c {
                assert(node_path(n, b) == node_path(o, b));
                assert(passage_ordered(o, post, a, b, v));
            } else {
                assert(v == t);
                if a == 0 {
                    assert(record_path(post[v].stack@).subrange(0, 0) =~= node_path(n, 0));
                    assert(reaches(post[v], node_path(n, a)));
                } else if a < n0 {
                    assert(passed_by(post, node_path(o, a), t - 1));
                    let u = choose|u: int| 0 <= u <= t - 1 && #[trigger] reaches(post[u], node_path(o, a));
                    assert(reaches(post[u], node_path(n, a)));
                } else {
                    assert(reaches(post[t], node_path(o, a)));
                    assert(reaches(post[t], node_path(n, a)));
                }
            }
        }
    }
    assert forall|i: int| #[trigger] key_from_first_frame(n, post, i) by {
        if 0 < i < n.len() {
            if i < c {
                assert(key_from_first_frame(o, post, i));
                assert(node_path(n, i) == node_path(o, i));
                assert(n[i].key == o[i].key);
            } else {
                assert(i == c);
                assert(stack[j] == post[t].stack@[j]);
                assert(first_through(post, node_path(n, i), t));
            }
        }
    }
}

/// All fields of two nodes but their children lists agree.
pub open spec fn same_but_children(a: TreeNode, b: TreeNode) -> bool {
    &&& a.key == b.key
    &&& a.category == b.category
    &&& a.allocation == b.allocation
    &&& a.allocation_count == b.allocation_count
    &&& a.deallocation == b.deallocation
    &&& a.deallocation_count == b.deallocation_count
    &&& a.parent == b.parent
}

/// All fields of two nodes but their quantities agree.
pub open spec fn same_but_metrics(a: TreeNode, b: TreeNode) -> bool {
    &&& a.key == b.key
    &&& a.category == b.category
    &&& a.parent == b.parent
    &&& a.children == b.children
}

impl Tree {
    /// A tree holding only the synthetic root.
    pub fn new() -> (r: Tree)
        ensures
            r.nodes@.len() == 1,
            well_formed(r.nodes@),
            site_of(r.nodes@[0].key) == root_site(),
            r.nodes@[0].key.fn_address == 0,
            r.nodes@[0].key.file_content is None,
            r.nodes@[0].category == Category::Unknown,
            forall|m: int| #[trigger] metric(r.nodes@[0], m) == 0,
    {
        let root = TreeNode {
            key: Key::root(),
            category: Category::Unknown,
            allocation: 0,
            allocation_count: 0,
            deallocation: 0,
            deallocation_count: 0,
            parent: 0,
            children: Vec::new(),
        };
        Tree { nodes: vec![root] }
    }

    /// The child of node `at` that stands for the call site of `key`, if any.
    fn find_child(&self, at: usize, key: &Key) -> (r: Option<usize>)
        requires
            well_formed(self.nodes@),
            at < self.nodes@.len(),
        ensures
            match r {
                Some(c) => {
                    &&& 0 < c < self.nodes@.len()
                    &&& self.nodes@[c as int].parent == at
                    &&& site_of(self.nodes@[c as int].key) == site_of(*key)
                },
                None => forall|c: int|
                    0 < c < self.nodes@.len() && self.nodes@[c].parent == at ==> site_of(
                        #[trigger] self.nodes@[c].key,
                    ) != site_of(*key),
            },
    {
        let children = &self.nodes[at].children;
        let mut k: usize = 0;
        while k < children.len()
            invariant
                well_formed(self.nodes@),
                at < self.nodes@.len(),
                children == self.nodes@[at as int].children,
                k <= children@.len(),
                forall|q: int|
                    0 <= q < k ==> site_of(self.nodes@[children@[q] as int].key) != site_of(
                        *key,
                    ),
            decreases children@.len() - k,
        {
            let c = children[k];
            assert(self.nodes@[at as int].children@[k as int] == c);
            if self.nodes[c].key.same_site(key) {
                return Some(c);
            }
            k = k + 1;
        }
        let node_count = self.nodes.len();
        assert(node_count == self.nodes@.len());
        assert forall|c: int|
            0 < c < self.nodes@.len() && self.nodes@[c].parent == at implies site_of(
            #[trigger] self.nodes@[c].key,
        ) != site_of(*key) by {
            assert(self.nodes@[self.nodes@[c].parent as int].children@.contains(c as usize));
            assert(children@.contains(c as usize));
            let q = choose|q: int| 0 <= q < children@.len() && children@[q] == c as usize;
            assert(children@[q] as int == c);
            assert(self.nodes@[children@[q] as int] == self.nodes@[c]);
        }
        None
    }

    /// Appends a new child of node `at` for a call site that `at` has no
    /// child for yet; returns its index.
    fn add_child(&mut self, at: usize, key: Key, category: Category) -> (r: usize)
        requires
            well_formed(old(self).nodes@),
            at < old(self).nodes@.len(),
            forall|c: int|
                0 < c < old(self).nodes@.len() && old(self).nodes@[c].parent == at ==> site_of(
                    #[trigger] old(self).nodes@[c].key,
                ) != site_of(key),
        ensures
            well_formed(final(self).nodes@),
            r == old(self).nodes@.len(),
            final(self).nodes@.len() == r + 1,
            final(self).nodes@[r as int] == (TreeNode {
                key,
                category,
                allocation: 0,
                allocation_count: 0,
                deallocation: 0,
                deallocation_count: 0,
                parent: at,
                children: final(self).nodes@[r as int].children,
            }),
            final(self).nodes@[r as int].children@.len() == 0,
            forall|k: int|
                0 <= k < r ==> same_but_children(#[trigger] final(self).nodes@[k], old(self).nodes@[k]),
            forall|k: int|
                0 <= k < r && k != at ==> #[trigger] final(self).nodes@[k] == old(self).nodes@[k],
            final(self).nodes@[at as int].children@ == old(self).nodes@[at as int].children@.push(r),
    {
        let idx = self.nodes.len();
        let node = TreeNode {
            key,
            category,
            allocation: 0,
            allocation_count: 0,
            deallocation: 0,
            deallocation_count: 0,
            parent: at,
            children: Vec::new(),
        };
        self.nodes.push(node);
        self.nodes[at].children.push(idx);
        let ghost o = old(self).nodes@;
        let ghost n = self.nodes@;
        assert forall|i: int, k: int|
            0 <= i < n.len() && 0 <= k < n[i].children@.len() implies {
            let c = #[trigger] n[i].children@[k] as int;
            i < c < n.len() && n[c].parent == i
        } by {
            if i != at && i < idx {
                assert(n[i] == o[i]);
            }
        }
        assert forall|i: int, a: int, b: int|
            0 <= i < n.len() && 0 <= a < b < n[i].children@.len()
                implies #[trigger] n[i].children@[a] < #[trigger] n[i].children@[b] by {
            if i != at && i < idx {
                assert(n[i] == o[i]);
            } else if i == at {
                if b == n[i].children@.len() - 1 {
                    assert(o[i].children@[a] < o.len());
                }
            }
        }
        assert forall|c: int| 0 < c < n.len() implies #[trigger] n[n[c].parent as int].children@.contains(
            c as usize,
        ) by {
            if c == idx {
                assert(n[at as int].children@.last() == c);
            } else {
                let p = o[c].parent as int;
                assert(o[p].children@.contains(c as usize));
                let q = choose|q: int| 0 <= q < o[p].children@.len() && o[p].children@[q] == c as usize;
                assert(n[p].children@[q] == c as usize);
            }
        }
        assert forall|a: int, b: int|
            0 < a < n.len() && 0 < b < n.len() && a != b && n[a].parent == n[b].parent
                implies site_of(#[trigger] n[a].key) != site_of(#[trigger] n[b].key) by {
            if a < idx && b < idx {
                assert(site_of(o[a].key) != site_of(o[b].key));
            }
        }
        idx
    }

    /// Folds record `t` of `records` into a tree that holds the records before it.
    #[verifier::rlimit(100)]
    fn insert_record(
        &mut self,
        record: &Allocation,
        cwd: &str,
        Ghost(records): Ghost<Seq<Allocation>>,
        Ghost(t): Ghost<int>,
    )
        requires
            0 <= t < records.len(),
            records[t] == *record,
            folded(old(self).nodes@, records.subrange(0, t), cwd@),
            no_stray(old(self).nodes@, records.subrange(0, t)),
            direct_metrics(old(self).nodes@, records.subrange(0, t)),
            totals_match(old(self).nodes@, records.subrange(0, t)),
            keys_from_first_frames(old(self).nodes@, records.subrange(0, t)),
            in_first_passage_order(old(self).nodes@, records.subrange(0, t)),
            forall|m: int| 0 <= m < 4 ==> #[trigger] grand_total(records.subrange(0, t + 1), m) <= usize::MAX,
        ensures
            folded(final(self).nodes@, records.subrange(0, t + 1), cwd@),
            no_stray(final(self).nodes@, records.subrange(0, t + 1)),
            keys_from_first_frames(final(self).nodes@, records.subrange(0, t + 1)),
            in_first_passage_order(final(self).nodes@, records.subrange(0, t + 1)),
            direct_metrics(final(self).nodes@, records.subrange(0, t + 1)),
            totals_match(final(self).nodes@, records.subrange(0, t + 1)),
    {
        let ghost pre = records.subrange(0, t);
        let ghost post = records.subrange(0, t + 1);
        let ghost stack = record.stack@;
        assert(post[t] == *record);
        assert forall|i: int| 0 < i < self.nodes@.len() implies exists|u: int|
            0 <= u < post.len() && is_prefix(
                #[trigger] node_path(self.nodes@, i),
                record_path(#[trigger] post[u].stack@),
            ) by {
            let u = choose|u: int|
                0 <= u < pre.len() && is_prefix(
                    #[trigger] node_path(self.nodes@, i),
                    record_path(#[trigger] pre[u].stack@),
                );
            assert(post[u] == pre[u]);
        }
        let ghost n0 = self.nodes@.len() as int;
        proof {
            lemma_passage_extend(self.nodes@, pre, post);
            assert forall|i: int| 0 < i < n0 implies passed_by(
                post,
                #[trigger] node_path(self.nodes@, i),
                t - 1,
            ) by {
                let u = choose|u: int|
                    0 <= u < pre.len() && is_prefix(
                        #[trigger] node_path(self.nodes@, i),
                        record_path(#[trigger] pre[u].stack@),
                    );
                assert(post[u] == pre[u]);
                assert(reaches(post[u], node_path(self.nodes@, i)));
            }
        }
        let mut cur: usize = 0;
        let mut j: usize = 0;
        while j < record.stack.len()
            invariant
                0 <= t < records.len(),
                pre == records.subrange(0, t),
                post == records.subrange(0, t + 1),
                post[t] == *record,
                stack == record.stack@,
                folded(self.nodes@, pre, cwd@),
                no_stray(self.nodes@, post),
                direct_metrics(self.nodes@, pre),
                totals_match(self.nodes@, pre),
                cur < self.nodes@.len(),
                j <= stack.len(),
                node_path(self.nodes@, cur as int) == record_path(stack.subrange(0, j as int)),
                in_first_passage_order(self.nodes@, post),
                keys_from_first_frames(self.nodes@, post),
                1 <= n0 <= self.nodes@.len(),
                forall|i: int|
                    0 < i < n0 ==> passed_by(post, #[trigger] node_path(self.nodes@, i), t - 1),
                forall|i: int|
                    n0 <= i < self.nodes@.len() ==> reaches(
                        post[t],
                        #[trigger] node_path(self.nodes@, i),
                    ),
            decreases stack.len() - j,
        {
            proof {
                lemma_record_path_step(stack, j as int);
            }
            let key_opt = Key::from_frame(&record.stack[j]);
            match key_opt {
                Err(_) => {},
                Ok(key) => {
                    match self.find_child(cur, &key) {
                        Some(c) => {
                            assert(self.nodes@[c as int].parent < c);
                            cur = c;
                        },
                        None => {
                            let ghost o = self.nodes@;
                            let category = guess_category(cwd, key.filename.as_str());
                            let ghost site = site_of(key);
                            let ghost address = key.fn_address;
                            let c = self.add_child(cur, key, category);
                            let ghost n = self.nodes@;
                            proof {
                                assert(same_shape_upto(o, n, o.len() as int));
                                assert forall|i: int| 0 <= i < o.len() implies #[trigger] node_path(
                                    n,
                                    i,
                                ) == node_path(o, i) by {
                                    lemma_node_path_stable(o, n, o.len() as int, i);
                                }
                                assert(n[c as int].parent == cur);
                                assert(site_of(n[c as int].key) == site);
                                assert(node_path(n, cur as int) == node_path(o, cur as int));
                                assert(node_path(n, c as int) == node_path(n, cur as int).push(
                                    site_of(n[c as int].key),
                                ));
                                assert(node_path(n, c as int) == node_path(o, cur as int).push(site));
                                assert forall|i: int| 0 < i < n.len() implies #[trigger] n[i].category
                                    == category_of(cwd@, n[i].key.filename@) by {
                                    if i < o.len() {
                                        assert(same_but_children(n[i], o[i]));
                                    }
                                }
                                assert forall|i: int| 0 <= i < n.len() implies (
                                #[trigger] n[i]).key.file_content is None by {
                                    if i < o.len() {
                                        assert(same_but_children(n[i], o[i]));
                                    }
                                }
                                assert forall|u: int| 0 <= u < pre.len() implies exists|i: int|
                                    0 <= i < n.len() && #[trigger] node_path(n, i) == record_path(
                                        #[trigger] pre[u].stack@,
                                    ) by {
                                    let i = choose|i: int|
                                        0 <= i < o.len() && #[trigger] node_path(o, i)
                                            == record_path(pre[u].stack@);
                                    assert(node_path(n, i) == node_path(o, i));
                                }
                                assert(folded(n, pre, cwd@));
                                lemma_record_path_prefix(stack, j + 1);
                                assert forall|i: int| 0 <= i < o.len() implies (#[trigger] n[i]).key
                                    == o[i].key by {
                                    assert(same_but_children(n[i], o[i]));
                                }
                                assert(post[t].stack@ == stack);
                                assert(n[c as int].key.fn_address == address);
                                lemma_passage_add_node(o, n, pre, post, j as int, n0);
                                assert forall|i: int| 0 < i < n.len() implies exists|u: int|
                                    0 <= u < post.len() && is_prefix(
                                        #[trigger] node_path(n, i),
                                        record_path(#[trigger] post[u].stack@),
                                    ) by {
                                    if i < o.len() {
                                        let u = choose|u: int|
                                            0 <= u < post.len() && is_prefix(
                                                #[trigger] node_path(o, i),
                                                record_path(#[trigger] post[u].stack@),
                                            );
                                        assert(node_path(n, i) == node_path(o, i));
                                    } else {
                                        assert(i == c);
                                        assert(is_prefix(
                                            node_path(n, i),
                                            record_path(post[t as int].stack@),
                                        ));
                                    }
                                }
                                assert forall|u: int| 0 <= u < pre.len() implies record_path(
                                    #[trigger] pre[u].stack@,
                                ) != node_path(n, c as int) by {
                                    let i = choose|i: int|
                                        0 <= i < o.len() && #[trigger] node_path(o, i)
                                            == record_path(pre[u].stack@);
                                    assert(node_path(n, i) == node_path(o, i));
                                    if node_path(n, i) == node_path(n, c as int) {
                                        lemma_node_path_injective(n, i, c as int);
                                    }
                                }
                                assert forall|i: int, m: int|
                                    0 <= i < n.len() && 0 <= m < 4 implies #[trigger] metric(n[i],
                                    m,
                                ) == direct_total(pre, node_path(n, i), m) by {
                                    if i < o.len() {
                                        assert(same_but_children(n[i], o[i]));
                                        assert(metric(o[i], m) == direct_total(
                                            pre,
                                            node_path(o, i),
                                            m,
                                        ));
                                    } else {
                                        lemma_direct_total_absent(pre, node_path(n, c as int), m);
                                    }
                                }
                                assert forall|m: int| 0 <= m < 4 implies #[trigger] nodes_total(
                                    n,
                                    n.len() as int,
                                    m,
                                ) == grand_total(pre, m) by {
                                    assert forall|k: int| 0 <= k < o.len() implies #[trigger] metric(o[k],
                                        m,
                                    ) == metric(n[k], m) by {
                                        assert(same_but_children(n[k], o[k]));
                                    }
                                    lemma_nodes_total_stable(o, n, o.len() as int, m);
                                    assert(nodes_total(o, o.len() as int, m) == grand_total(pre, m));
                                }
                            }
                            cur = c;
                        },
                    }
                },
            }
            j = j + 1;
        }
        assert(stack.subrange(0, j as int) =~= stack);
        let ghost o = self.nodes@;
        let ghost path = record_path(stack);
        proof {
            assert forall|m: int| 0 <= m < 4 implies #[trigger] metric(o[cur as int], m)
                + record_weight(*record, m) <= usize::MAX by {
                lemma_direct_total_step(records, t, path, m);
                lemma_direct_total_bounds(post, path, m);
                assert(records.subrange(0, t) == pre);
                assert(metric(o[cur as int], m) == direct_total(pre, path, m));
            }
        }
        self.credit(cur, record);
        let ghost n = self.nodes@;
        proof {
            assert forall|i: int| 0 <= i < o.len() implies (#[trigger] n[i]).key == o[i].key by {
                if i != cur {
                    assert(n[i] == o[i]);
                }
            }
            assert(same_shape_upto(o, n, o.len() as int));
            assert forall|i: int| 0 <= i < o.len() implies #[trigger] node_path(n, i) == node_path(
                o,
                i,
            ) by {
                lemma_node_path_stable(o, n, o.len() as int, i);
            }
            lemma_passage_kept(o, n, post);
            assert(well_formed(n)) by {
                assert forall|i: int| 0 <= i < n.len() implies #[trigger] n[i].children == o[i].children by {
                    if i != cur {
                        assert(n[i] == o[i]);
                    }
                }
                assert forall|i: int| 0 <= i < n.len() implies #[trigger] n[i].parent == o[i].parent by {
                    if i != cur {
                        assert(n[i] == o[i]);
                    }
                }
                assert forall|i: int| 0 <= i < n.len() implies #[trigger] n[i].key == o[i].key by {
                    if i != cur {
                        assert(n[i] == o[i]);
                    }
                }
            }
            assert forall|i: int| 0 < i < n.len() implies #[trigger] n[i].category == category_of(
                cwd@,
                n[i].key.filename@,
            ) by {
                if i != cur {
                    assert(n[i] == o[i]);
                }
            }
            assert forall|i: int| 0 <= i < n.len() implies (#[trigger] n[i]).key.file_content is None by {
                if i != cur {
                    assert(n[i] == o[i]);
                }
            }
            assert forall|u: int| 0 <= u < post.len() implies exists|i: int|
                0 <= i < n.len() && #[trigger] node_path(n, i) == record_path(
                    #[trigger] post[u].stack@,
                ) by {
                if u < t {
                    assert(post[u] == pre[u]);
                    let i = choose|i: int|
                        0 <= i < o.len() && #[trigger] node_path(o, i) == record_path(pre[u].stack@);
                    assert(node_path(n, i) == node_path(o, i));
                } else {
                    assert(node_path(n, cur as int) == node_path(o, cur as int));
                }
            }
            assert(folded(n, post, cwd@));
            assert forall|i: int| 0 < i < n.len() implies exists|u: int|
                0 <= u < post.len() && is_prefix(
                    #[trigger] node_path(n, i),
                    record_path(#[trigger] post[u].stack@),
                ) by {
                let u = choose|u: int|
                    0 <= u < post.len() && is_prefix(
                        #[trigger] node_path(o, i),
                        record_path(#[trigger] post[u].stack@),
                    );
                assert(node_path(n, i) == node_path(o, i));
            }
            assert forall|i: int, m: int| 0 <= i < n.len() && 0 <= m < 4 implies #[trigger] metric(n[i],
                m,
            ) == direct_total(post, node_path(n, i), m) by {
                lemma_direct_total_step(records, t, node_path(n, i), m);
                assert(records.subrange(0, t) == pre);
                assert(metric(o[i], m) == direct_total(pre, node_path(o, i), m));
                if i != cur {
                    assert(n[i] == o[i]);
                    if node_path(n, i) == path {
                        lemma_node_path_injective(n, i, cur as int);
                    }
                }
            }
            assert forall|m: int| 0 <= m < 4 implies #[trigger] nodes_total(n, n.len() as int, m)
                == grand_total(post, m) by {
                assert forall|k: int| 0 <= k < o.len() && k != cur implies #[trigger] metric(o[k], m)
                    == metric(n[k], m) by {
                    assert(n[k] == o[k]);
                }
                lemma_nodes_total_update(o, n, o.len() as int, cur as int, m);
                lemma_grand_total_step(records, t, m);
                assert(nodes_total(o, o.len() as int, m) == grand_total(pre, m));
            }
        }
    }

    /// Passes each node's totals up to its parent, children before parents:
    /// bytes always, counts only where the child's bytes of that kind are
    /// nonzero.
    fn update_value(&mut self)
        requires
            well_formed(old(self).nodes@),
            forall|m: int|
                0 <= m < 4 ==> #[trigger] nodes_total(
                    old(self).nodes@,
                    old(self).nodes@.len() as int,
                    m,
                ) <= usize::MAX,
        ensures
            final(self).nodes@.len() == old(self).nodes@.len(),
            forall|k: int|
                0 <= k < old(self).nodes@.len() ==> same_but_metrics(
                    #[trigger] final(self).nodes@[k],
                    old(self).nodes@[k],
                ),
            forall|i: int, m: int|
                0 <= i < old(self).nodes@.len() && 0 <= m < 4 ==> #[trigger] metric(
                    final(self).nodes@[i],
                    m,
                ) == metric(old(self).nodes@[i], m) + children_total(final(self).nodes@, i, 1, m),
            metric(final(self).nodes@[0], 0) == nodes_total(
                old(self).nodes@,
                old(self).nodes@.len() as int,
                0,
            ),
            metric(final(self).nodes@[0], 2) == nodes_total(
                old(self).nodes@,
                old(self).nodes@.len() as int,
                2,
            ),
    {
        let ghost start = self.nodes@;
        let n = self.nodes.len();
        let mut i: usize = n;
        while i > 1
            invariant
                1 <= i <= n,
                n == self.nodes@.len(),
                n == start.len(),
                well_formed(start),
                forall|k: int| 0 <= k < n ==> same_but_metrics(#[trigger] self.nodes@[k], start[k]),
                forall|j: int, m: int|
                    0 <= j < n && 0 <= m < 4 ==> #[trigger] metric(self.nodes@[j], m) == metric(
                        start[j],
                        m,
                    ) + children_total(self.nodes@, j, i as int, m),
                forall|m: int|
                    (m == 0 || m == 2) ==> #[trigger] nodes_total(self.nodes@, i as int, m)
                        == nodes_total(start, n as int, m),
                forall|m: int|
                    (m == 1 || m == 3) ==> #[trigger] nodes_total(self.nodes@, i as int, m)
                        <= nodes_total(start, n as int, m),
                forall|m: int| 0 <= m < 4 ==> #[trigger] nodes_total(start, n as int, m) <= usize::MAX,
            decreases i,
        {
            let k = i - 1;
            let ghost cur = self.nodes@;
            assert(same_but_metrics(cur[k as int], start[k as int]));
            assert(start[k as int].parent < k);
            let p = self.nodes[k].parent;
            proof {
                assert forall|m: int| 0 <= m < 4 implies #[trigger] metric(cur[p as int], m) + metric(
                    cur[k as int],
                    m,
                ) <= usize::MAX by {
                    lemma_nodes_total_pair(cur, i as int, p as int, k as int, m);
                }
                assert(metric(cur[p as int], 0) + metric(cur[k as int], 0) <= usize::MAX);
                assert(metric(cur[p as int], 1) + metric(cur[k as int], 1) <= usize::MAX);
                assert(metric(cur[p as int], 2) + metric(cur[k as int], 2) <= usize::MAX);
                assert(metric(cur[p as int], 3) + metric(cur[k as int], 3) <= usize::MAX);
            }
            let allocation = self.nodes[k].allocation;
            let allocation_count = self.nodes[k].allocation_count;
            let deallocation = self.nodes[k].deallocation;
            let deallocation_count = self.nodes[k].deallocation_count;
            self.nodes[p].allocation = self.nodes[p].allocation + allocation;
            if allocation > 0 {
                self.nodes[p].allocation_count = self.nodes[p].allocation_count + allocation_count;
            }
            self.nodes[p].deallocation = self.nodes[p].deallocation + deallocation;
            if deallocation > 0 {
                self.nodes[p].deallocation_count = self.nodes[p].deallocation_count
                    + deallocation_count;
            }
            let ghost nw = self.nodes@;
            proof {
                assert(nw[k as int] == cur[k as int]);
                assert forall|q: int| 0 <= q < n && q != p implies #[trigger] nw[q] == cur[q] by {}
                assert forall|q: int| 0 <= q < n implies same_but_metrics(#[trigger] nw[q], start[q]) by {
                    if q != p {
                        assert(nw[q] == cur[q]);
                    }
                }
                assert forall|j: int, m: int| 0 <= j < n && 0 <= m < 4 implies #[trigger] metric(
                    nw[j],
                    m,
                ) == metric(start[j], m) + children_total(nw, j, k as int, m) by {
                    assert forall|q: int| i <= q < nw.len() implies (#[trigger] nw[q]).parent
                        == cur[q].parent && metric(nw[q], m) == metric(cur[q], m) && reaches_parent(
                        nw[q],
                        m,
                    ) == reaches_parent(cur[q], m) by {
                        assert(nw[q] == cur[q]);
                    }
                    lemma_children_total_stable(nw, cur, j, i as int, m);
                    assert(children_total(nw, j, k as int, m) == children_total(nw, j, i as int, m)
                        + if nw[k as int].parent == j && reaches_parent(nw[k as int], m) {
                        metric(nw[k as int], m)
                    } else {
                        0
                    });
                    if j != p {
                        assert(nw[j] == cur[j]);
                    }
                }
                assert forall|m: int| 0 <= m < 4 implies #[trigger] nodes_total(nw, k as int, m)
                    <= nodes_total(cur, i as int, m) && ((m == 0 || m == 2) ==> nodes_total(
                    nw,
                    k as int,
                    m,
                ) == nodes_total(cur, i as int, m)) by {
                    assert forall|q: int| 0 <= q < k && q != p implies #[trigger] metric(cur[q], m)
                        == metric(nw[q], m) by {
                        assert(nw[q] == cur[q]);
                    }
                    lemma_nodes_total_update(cur, nw, k as int, p as int, m);
                }
            }
            i = k;
        }
        proof {
            assert(i == 1);
            assert(nodes_total(self.nodes@, 0, 0) == 0);
            assert(nodes_total(self.nodes@, 0, 2) == 0);
            assert(nodes_total(self.nodes@, 1, 0) == metric(self.nodes@[0], 0));
            assert(nodes_total(self.nodes@, 1, 2) == metric(self.nodes@[0], 2));
        }
    }

    /// Adds the weights of `record` to node `at`.
    fn credit(&mut self, at: usize, record: &Allocation)
        requires
            at < old(self).nodes@.len(),
            forall|m: int|
                0 <= m < 4 ==> #[trigger] metric(old(self).nodes@[at as int], m) + record_weight(
                    *record,
                    m,
                ) <= usize::MAX,
        ensures
            final(self).nodes@.len() == old(self).nodes@.len(),
            forall|k: int|
                0 <= k < old(self).nodes@.len() && k != at ==> #[trigger] final(self).nodes@[k]
                    == old(self).nodes@[k],
            same_but_metrics(final(self).nodes@[at as int], old(self).nodes@[at as int]),
            forall|m: int|
                0 <= m < 4 ==> #[trigger] metric(final(self).nodes@[at as int], m) == metric(
                    old(self).nodes@[at as int],
                    m,
                ) + record_weight(*record, m),
    {
        let ghost o = self.nodes@[at as int];
        assert(metric(o, 0) + record_weight(*record, 0) <= usize::MAX);
        assert(metric(o, 1) + record_weight(*record, 1) <= usize::MAX);
        assert(metric(o, 2) + record_weight(*record, 2) <= usize::MAX);
        assert(metric(o, 3) + record_weight(*record, 3) <= usize::MAX);
        self.nodes[at].allocation = self.nodes[at].allocation + record.allocation_size;
        if record.allocation_size > 0 {
            self.nodes[at].allocation_count = self.nodes[at].allocation_count + 1;
        }
        self.nodes[at].deallocation = self.nodes[at].deallocation + record.deallocation_size;
        if record.deallocation_size > 0 {
            self.nodes[at].deallocation_count = self.nodes[at].deallocation_count + 1;
        }
    }
}

/// Whether the bytes of each kind, summed over `records`, fit in a `usize`.
fn totals_fit(records: &Vec<Allocation>) -> (r: bool)
    ensures
        r == (grand_total(records@, 0) <= usize::MAX && grand_total(records@, 2) <= usize::MAX),
{
    let mut allocated: usize = 0;
    let mut deallocated: usize = 0;
    let mut t: usize = 0;
    while t < records.len()
        invariant
            t <= records@.len(),
            allocated == grand_total(records@.subrange(0, t as int), 0),
            deallocated == grand_total(records@.subrange(0, t as int), 2),
        decreases records@.len() - t,
    {
        proof {
            lemma_grand_total_step(records@, t as int, 0);
            lemma_grand_total_step(records@, t as int, 2);
        }
        match allocated.checked_add(records[t].allocation_size) {
            Some(v) => allocated = v,
            None => {
                proof {
                    lemma_grand_total_prefix(records@, t + 1, 0);
                }
                return false;
            },
        }
        match deallocated.checked_add(records[t].deallocation_size) {
            Some(v) => deallocated = v,
            None => {
                proof {
                    lemma_grand_total_prefix(records@, t + 1, 2);
                }
                return false;
            },
        }
        t = t + 1;
    }
    assert(records@.subrange(0, t as int) =~= records@);
    true
}

/// Folds every record into a fresh tree, without aggregating.
fn fold_records(records: &Vec<Allocation>, cwd: &str) -> (tree: Tree)
    requires
        grand_total(records@, 0) <= usize::MAX,
        grand_total(records@, 2) <= usize::MAX,
    ensures
        folded(tree.nodes@, records@, cwd@),
        no_stray(tree.nodes@, records@),
        direct_metrics(tree.nodes@, records@),
        totals_match(tree.nodes@, records@),
        keys_from_first_frames(tree.nodes@, records@),
        in_first_passage_order(tree.nodes@, records@),
{
    let mut tree = Tree::new();
    proof {
        let empty = records@.subrange(0, 0);
        assert(empty.len() == 0);
        assert(node_path(tree.nodes@, 0) == Seq::<CallSite>::empty());
        assert forall|m: int| 0 <= m < 4 implies #[trigger] nodes_total(
            tree.nodes@,
            tree.nodes@.len() as int,
            m,
        ) == grand_total(empty, m) by {
            assert(nodes_total(tree.nodes@, 0, m) == 0);
        }
        assert(folded(tree.nodes@, empty, cwd@));
        assert forall|a: int, b: int, v: int| #[trigger] passage_ordered(
            tree.nodes@,
            empty,
            a,
            b,
            v,
        ) by {}
        assert forall|i: int| #[trigger] key_from_first_frame(tree.nodes@, empty, i) by {}
    }
    let mut t: usize = 0;
    while t < records.len()
        invariant
            t <= records@.len(),
            grand_total(records@, 0) <= usize::MAX,
            grand_total(records@, 2) <= usize::MAX,
            folded(tree.nodes@, records@.subrange(0, t as int), cwd@),
            no_stray(tree.nodes@, records@.subrange(0, t as int)),
            direct_metrics(tree.nodes@, records@.subrange(0, t as int)),
            totals_match(tree.nodes@, records@.subrange(0, t as int)),
            keys_from_first_frames(tree.nodes@, records@.subrange(0, t as int)),
            in_first_passage_order(tree.nodes@, records@.subrange(0, t as int)),
        decreases records@.len() - t,
    {
        proof {
            assert forall|m: int| 0 <= m < 4 implies #[trigger] grand_total(
                records@.subrange(0, t + 1),
                m,
            ) <= usize::MAX by {
                lemma_grand_total_prefix(records@, t + 1, m);
                if m == 1 || m == 3 {
                    lemma_grand_total_counts(records@.subrange(0, t + 1), m);
                }
            }
        }
        tree.insert_record(&records[t], cwd, Ghost(records@), Ghost(t as int));
        t = t + 1;
    }
    assert(records@.subrange(0, t as int) =~= records@);
    tree
}

/// Changing only quantities keeps a tree well formed and keeps every path.
proof fn lemma_shape_kept(o: Seq<TreeNode>, n: Seq<TreeNode>)
    requires
        well_formed(o),
        n.len() == o.len(),
        forall|k: int| 0 <= k < o.len() ==> same_but_metrics(#[trigger] n[k], o[k]),
    ensures
        well_formed(n),
        forall|i: int| 0 <= i < o.len() ==> #[trigger] node_path(n, i) == node_path(o, i),
{
    assert(same_shape_upto(o, n, o.len() as int)) by {
        assert forall|k: int| 0 <= k < o.len() implies #[trigger] o[k].parent == n[k].parent
            && site_of(o[k].key) == site_of(n[k].key) by {
            assert(same_but_metrics(n[k], o[k]));
        }
    }
    assert forall|i: int| 0 <= i < o.len() implies #[trigger] node_path(n, i) == node_path(o, i) by {
        lemma_node_path_stable(o, n, o.len() as int, i);
    }
    assert forall|i: int| 0 <= i < n.len() implies #[trigger] n[i].children == o[i].children
        && n[i].parent == o[i].parent && n[i].key == o[i].key by {
        assert(same_but_metrics(n[i], o[i]));
    }
}

/// Aggregation keeps the shape of a folded tree and turns its direct
/// contributions into the totals that `describes` states.
proof fn lemma_aggregated(
    o: Seq<TreeNode>,
    n: Seq<TreeNode>,
    records: Seq<Allocation>,
    cwd: Seq<char>,
)
    requires
        folded(o, records, cwd),
        no_stray(o, records),
        direct_metrics(o, records),
        totals_match(o, records),
        n.len() == o.len(),
        forall|k: int| 0 <= k < o.len() ==> same_but_metrics(#[trigger] n[k], o[k]),
        forall|i: int, m: int|
            0 <= i < o.len() && 0 <= m < 4 ==> #[trigger] metric(n[i], m) == metric(o[i], m)
                + children_total(n, i, 1, m),
        metric(n[0], 0) == nodes_total(o, o.len() as int, 0),
        metric(n[0], 2) == nodes_total(o, o.len() as int, 2),
    ensures
        aggregated_from(n, records, cwd),
{
    lemma_shape_kept(o, n);
    assert forall|i: int| 0 < i < n.len() implies #[trigger] n[i].category == category_of(
        cwd,
        n[i].key.filename@,
    ) by {
        assert(same_but_metrics(n[i], o[i]));
    }
    assert forall|i: int| 0 <= i < n.len() implies (#[trigger] n[i]).key.file_content is None by {
        assert(same_but_metrics(n[i], o[i]));
    }
    assert(same_but_metrics(n[0], o[0]));
    assert forall|u: int| 0 <= u < records.len() implies exists|i: int|
        0 <= i < n.len() && #[trigger] node_path(n, i) == record_path(
            #[trigger] records[u].stack@,
        ) by {
        let i = choose|i: int|
            0 <= i < o.len() && #[trigger] node_path(o, i) == record_path(records[u].stack@);
        assert(node_path(n, i) == node_path(o, i));
    }
    assert(folded(n, records, cwd));
    assert forall|i: int| 0 < i < n.len() implies exists|u: int|
        0 <= u < records.len() && is_prefix(
            #[trigger] node_path(n, i),
            record_path(#[trigger] records[u].stack@),
        ) by {
        let u = choose|u: int|
            0 <= u < records.len() && is_prefix(
                #[trigger] node_path(o, i),
                record_path(#[trigger] records[u].stack@),
            );
        assert(node_path(n, i) == node_path(o, i));
    }
    assert forall|i: int, m: int| 0 <= i < n.len() && 0 <= m < 4 implies #[trigger] metric(
        n[i],
        m,
    ) == direct_total(records, node_path(n, i), m) + children_total(n, i, 1, m) by {
        assert(metric(o[i], m) == direct_total(records, node_path(o, i), m));
    }
    assert(nodes_total(o, o.len() as int, 0) == grand_total(records, 0));
    assert(nodes_total(o, o.len() as int, 2) == grand_total(records, 2));
}

impl Stats {
    /// Folds the records into one call-site tree. Each record walks its stack
    /// from the outermost frame, skipping frames without a call site, reusing
    /// the child of the same call site or appending a new one; the node where
    /// the walk ends takes the record's sizes and counts. Totals are then
    /// passed up to the root. Fails only when the bytes of either kind add up
    /// past `usize::MAX`.
    pub fn into_tree(self, cwd: &str) -> (r: Result<Tree, TreeError>)
        ensures
            r is Err <==> (grand_total(self.allocations@, 0) > usize::MAX || grand_total(
                self.allocations@,
                2,
            ) > usize::MAX),
            r matches Ok(tree) ==> describes(tree.nodes@, self.allocations@, cwd@),
    {
        if !totals_fit(&self.allocations) {
            return Err(TreeError::TotalsOverflow);
        }
        let mut tree = fold_records(&self.allocations, cwd);
        let ghost o = tree.nodes@;
        proof {
            assert forall|m: int| 0 <= m < 4 implies #[trigger] nodes_total(
                o,
                o.len() as int,
                m,
            ) <= usize::MAX by {
                if m == 1 || m == 3 {
                    lemma_grand_total_counts(self.allocations@, m);
                }
            }
        }
        tree.update_value();
        proof {
            let n = tree.nodes@;
            lemma_aggregated(o, n, self.allocations@, cwd@);
            lemma_shape_kept(o, n);
            assert forall|i: int| 0 <= i < o.len() implies (#[trigger] n[i]).key == o[i].key by {
                assert(same_but_metrics(n[i], o[i]));
            }
            lemma_passage_kept(o, n, self.allocations@);
        }
        Ok(tree)
    }
}

} // verus!
