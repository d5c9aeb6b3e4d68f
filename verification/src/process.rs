//! Process trees and TCP listeners.
//!
//! Which processes hold a port, and which processes have to go, in which
//! order, when a process tree is killed. The tables come from the system.

use vstd::prelude::*;

use crate::text::{cat, chars_end_with, chars_eq, chars_of, decimal_string, read_u32, split_lines, split_words};

verus! {

// ---------------------------------------------------------------------------
// Process trees
// ---------------------------------------------------------------------------

/// Whether `pid` is at most `n` child steps away from `root` in a table of
/// (process, parent) pairs. The process `me` is never entered.
pub open spec fn within(table: Seq<(u32, u32)>, me: u32, root: u32, n: nat, pid: u32) -> bool
    decreases n,
{
    if n == 0 {
        pid == root
    } else {
        ||| within(table, me, root, (n - 1) as nat, pid)
        ||| pid != me && exists|i: int|
            0 <= i < table.len() && (#[trigger] table[i]).0 == pid && within(
                table,
                me,
                root,
                (n - 1) as nat,
                table[i].1,
            )
    }
}

/// Whether `pid` is `root` or one of its descendants.
pub open spec fn in_tree(table: Seq<(u32, u32)>, me: u32, root: u32, pid: u32) -> bool {
    exists|n: nat| #[trigger] within(table, me, root, n, pid)
}

/// Whether `pid` is at least as close to `root` as `other`.
pub open spec fn as_close(
    table: Seq<(u32, u32)>,
    me: u32,
    root: u32,
    pid: u32,
    other: u32,
) -> bool {
    forall|n: nat| #[trigger]
        within(table, me, root, n, other) ==> within(table, me, root, n, pid)
}

/// Whether the table lists `pid` with parent `parent`.
pub open spec fn is_child(table: Seq<(u32, u32)>, pid: u32, parent: u32) -> bool {
    exists|i: int| 0 <= i < table.len() && #[trigger] table[i] == (pid, parent)
}

/// A listing of the tree below `root`: every process of it once, the root
/// first, and each process after the parent that leads to it.
pub open spec fn tree_listing(
    table: Seq<(u32, u32)>,
    me: u32,
    root: u32,
    order: Seq<u32>,
) -> bool {
    &&& order.len() > 0
    &&& order[0] == root
    &&& order.no_duplicates()
    &&& forall|pid: u32| order.contains(pid) <==> #[trigger] in_tree(table, me, root, pid)
    &&& forall|j: int|
        0 < j < order.len() ==> order[j] != me && exists|i: int|
            0 <= i < j && is_child(table, #[trigger] order[j], #[trigger] order[i])
    &&& forall|i: int, j: int|
        0 <= i < j < order.len() ==> #[trigger] as_close(table, me, root, order[i], order[j])
}

/// The depth of each listed process is its distance from the root, and the
/// depths do not fall.
spec fn depths_ok(
    table: Seq<(u32, u32)>,
    me: u32,
    root: u32,
    order: Seq<u32>,
    depth: Seq<nat>,
) -> bool {
    &&& depth.len() == order.len()
    &&& order.len() > 0
    &&& order[0] == root
    &&& depth[0] == 0
    &&& forall|j: int|
        0 <= j < order.len() ==> within(table, me, root, depth[j], #[trigger] order[j])
    &&& forall|j: int, n: nat|
        0 <= j < order.len() && n < depth[j] ==> !(#[trigger] within(
            table,
            me,
            root,
            n,
            #[trigger] order[j],
        ))
    &&& forall|i: int, j: int| 0 <= i <= j < order.len() ==> depth[i] <= depth[j]
}

/// The children of the first `i` listed processes are listed.
spec fn closed_upto(table: Seq<(u32, u32)>, me: u32, order: Seq<u32>, i: int) -> bool {
    forall|r: int, j: int|
        0 <= r < table.len() && 0 <= j < i && (#[trigger] table[r]).1 == (#[trigger] order[j])
            && table[r].0 != me ==> order.contains(table[r].0)
}

/// Everything closer to the root than `d` is among the first `i` listed processes.
spec fn swept(
    table: Seq<(u32, u32)>,
    me: u32,
    root: u32,
    order: Seq<u32>,
    i: int,
    d: nat,
) -> bool {
    forall|q: u32, n: nat|
        n < d && #[trigger] within(table, me, root, n, q) ==> order.take(i).contains(q)
}

/// Each listed process but the root has a listed parent before it.
spec fn parents_ok(table: Seq<(u32, u32)>, me: u32, order: Seq<u32>) -> bool {
    forall|j: int|
        0 < j < order.len() ==> order[j] != me && exists|i: int|
            0 <= i < j && is_child(table, #[trigger] order[j], #[trigger] order[i])
}

/// The state of the search before the children of the `i`-th process are added.
#[verifier::opaque]
spec fn sweeping(
    table: Seq<(u32, u32)>,
    me: u32,
    root: u32,
    order: Seq<u32>,
    depth: Seq<nat>,
    i: int,
) -> bool {
    &&& 0 <= i <= order.len()
    &&& order.no_duplicates()
    &&& depths_ok(table, me, root, order, depth)
    &&& closed_upto(table, me, order, i)
    &&& parents_ok(table, me, order)
    &&& i < order.len() ==> swept(table, me, root, order, i, depth[i])
    &&& i < order.len() ==> depth.last() <= depth[i] + 1
}

proof fn lemma_within_grows(table: Seq<(u32, u32)>, me: u32, root: u32, n: nat, m: nat, pid: u32)
    requires
        n <= m,
        within(table, me, root, n, pid),
    ensures
        within(table, me, root, m, pid),
    decreases m,
{
    if n < m {
        lemma_within_grows(table, me, root, n, (m - 1) as nat, pid);
    }
}

/// Everything at distance at most `d` is listed, where the first `i` processes
/// hold everything closer and their children are listed.
proof fn lemma_level_listed(
    table: Seq<(u32, u32)>,
    me: u32,
    root: u32,
    order: Seq<u32>,
    i: int,
    d: nat,
    n: nat,
    q: u32,
)
    requires
        0 <= i <= order.len(),
        order.len() > 0,
        order[0] == root,
        closed_upto(table, me, order, i),
        swept(table, me, root, order, i, d),
        n <= d,
        within(table, me, root, n, q),
    ensures
        order.contains(q),
    decreases n,
{
    if n == 0 {
        assert(order[0] == q);
    } else if within(table, me, root, (n - 1) as nat, q) {
        lemma_level_listed(table, me, root, order, i, d, (n - 1) as nat, q);
    } else {
        let r = choose|r: int|
            0 <= r < table.len() && (#[trigger] table[r]).0 == q && within(
                table,
                me,
                root,
                (n - 1) as nat,
                table[r].1,
            );
        let p = table[r].1;
        assert(order.take(i).contains(p));
        let j = choose|j: int| 0 <= j < i && order.take(i)[j] == p;
        assert(order[j] == p);
        assert(order.contains(table[r].0));
    }
}

/// When all listed processes have their children listed, the whole tree is listed.
proof fn lemma_tree_listed(
    table: Seq<(u32, u32)>,
    me: u32,
    root: u32,
    order: Seq<u32>,
    n: nat,
    q: u32,
)
    requires
        order.len() > 0,
        order[0] == root,
        closed_upto(table, me, order, order.len() as int),
        within(table, me, root, n, q),
    ensures
        order.contains(q),
    decreases n,
{
    if n == 0 {
        assert(order[0] == q);
    } else if within(table, me, root, (n - 1) as nat, q) {
        lemma_tree_listed(table, me, root, order, (n - 1) as nat, q);
    } else {
        let r = choose|r: int|
            0 <= r < table.len() && (#[trigger] table[r]).0 == q && within(
                table,
                me,
                root,
                (n - 1) as nat,
                table[r].1,
            );
        lemma_tree_listed(table, me, root, order, (n - 1) as nat, table[r].1);
        let j = choose|j: int| 0 <= j < order.len() && order[j] == table[r].1;
        assert(order[j] == table[r].1);
    }
}

/// A child that is not listed yet is one step deeper than its parent, and no less.
proof fn lemma_new_depth(
    table: Seq<(u32, u32)>,
    me: u32,
    root: u32,
    order: Seq<u32>,
    depth: Seq<nat>,
    i: int,
    r: int,
)
    requires
        0 <= i < order.len(),
        depths_ok(table, me, root, order, depth),
        closed_upto(table, me, order, i),
        swept(table, me, root, order, i, depth[i]),
        0 <= r < table.len(),
        table[r].1 == order[i],
        table[r].0 != me,
        !order.contains(table[r].0),
    ensures
        within(table, me, root, depth[i] + 1, table[r].0),
        forall|n: nat| n < depth[i] + 1 ==> !(#[trigger] within(table, me, root, n, table[r].0)),
{
    let pid = table[r].0;
    assert(within(table, me, root, depth[i], order[i]));
    assert(((depth[i] + 1) - 1) as nat == depth[i]);
    assert(within(table, me, root, depth[i] + 1, pid));
    assert forall|n: nat| n < depth[i] + 1 implies !(#[trigger] within(
        table,
        me,
        root,
        n,
        pid,
    )) by {
        if within(table, me, root, n, pid) {
            lemma_level_listed(table, me, root, order, i, depth[i], n, pid);
        }
    }
}

/// The sweep moves on to the next listed process.
proof fn lemma_sweep_next(
    table: Seq<(u32, u32)>,
    me: u32,
    root: u32,
    order: Seq<u32>,
    depth: Seq<nat>,
    i: int,
)
    requires
        0 <= i,
        i + 1 < order.len(),
        depths_ok(table, me, root, order, depth),
        depth[i + 1] <= depth[i] + 1,
        closed_upto(table, me, order, i + 1),
        swept(table, me, root, order, i, depth[i]),
    ensures
        swept(table, me, root, order, i + 1, depth[i + 1]),
{
    assert forall|q: u32, n: nat|
        n < depth[i + 1] && #[trigger] within(table, me, root, n, q) implies order.take(
        i + 1,
    ).contains(q) by {
        if n < depth[i] {
            assert(order.take(i).contains(q));
            let j = choose|j: int| 0 <= j < i && order.take(i)[j] == q;
            assert(order.take(i + 1)[j] == q);
        } else {
            assert(closed_upto(table, me, order, i));
            lemma_level_listed(table, me, root, order, i, depth[i], n, q);
            let j = choose|j: int| 0 <= j < order.len() && order[j] == q;
            if j > i {
                assert(depth[i + 1] <= depth[j]);
                assert(!within(table, me, root, n, order[j]));
            }
            assert(order.take(i + 1)[j] == q);
        }
    }
}

/// Whether the table lists `pid` at all.
spec fn has_parent(table: Seq<(u32, u32)>, pid: u32) -> bool {
    exists|p: u32| is_child(table, pid, p)
}

/// A list without repetition out of the root and the listed processes is no
/// longer than the table and the root.
proof fn lemma_listing_len(table: Seq<(u32, u32)>, root: u32, order: Seq<u32>)
    requires
        order.no_duplicates(),
        order.len() > 0,
        order[0] == root,
        forall|j: int| 0 < j < order.len() ==> has_parent(table, #[trigger] order[j]),
    ensures
        order.len() <= table.len() + 1,
{
    let pool = seq![root] + table.map_values(|row: (u32, u32)| row.0);
    order.unique_seq_to_set();
    pool.lemma_cardinality_of_set();
    assert(order.to_set().subset_of(pool.to_set())) by {
        assert forall|q: u32| order.to_set().contains(q) implies pool.to_set().contains(q) by {
            let j = choose|j: int| 0 <= j < order.len() && order[j] == q;
            if j == 0 {
                assert(pool[0] == q);
            } else {
                assert(has_parent(table, order[j]));
                let p = choose|p: u32| is_child(table, order[j], p);
                let r = choose|r: int| 0 <= r < table.len() && #[trigger] table[r] == (q, p);
                assert(pool[r + 1] == q);
            }
        }
    }
    vstd::set_lib::lemma_len_subset(order.to_set(), pool.to_set());
}

fn has_pid(list: &Vec<u32>, pid: u32) -> (yes: bool)
    ensures
        yes == list@.contains(pid),
{
    let mut i: usize = 0;
    while i < list.len()
        invariant
            i <= list@.len(),
            forall|k: int| 0 <= k < i ==> list@[k] != pid,
        decreases list@.len() - i,
    {
        if list[i] == pid {
            return true;
        }
        i = i + 1;
    }
    false
}

/// A child that is not listed yet can be added behind the listing.
proof fn lemma_child_added(
    table: Seq<(u32, u32)>,
    me: u32,
    root: u32,
    order: Seq<u32>,
    depth: Seq<nat>,
    i: int,
    r: int,
)
    requires
        sweeping(table, me, root, order, depth, i),
        i < order.len(),
        0 <= r < table.len(),
        table[r].1 == order[i],
        table[r].0 != me,
        !order.contains(table[r].0),
    ensures
        sweeping(table, me, root, order.push(table[r].0), depth.push(depth[i] + 1), i),
{
    reveal(sweeping);
    let pid = table[r].0;
    let more = order.push(pid);
    let deeper = depth.push(depth[i] + 1);
    lemma_new_depth(table, me, root, order, depth, i, r);
    assert forall|q: u32| order.contains(q) implies more.contains(q) by {
        let j = choose|j: int| 0 <= j < order.len() && order[j] == q;
        assert(more[j] == q);
    }
    assert(more.take(i) =~= order.take(i));
    assert forall|a: int, b: int|
        0 <= a < more.len() && 0 <= b < more.len() && a != b implies more[a] != more[b] by {
        if a < order.len() && b < order.len() {
            assert(order[a] != order[b]);
        } else if a < order.len() {
            assert(order.contains(order[a]));
        } else {
            assert(order.contains(order[b]));
        }
    }
    assert forall|a: int, b: int| 0 <= a <= b < more.len() implies deeper[a] <= deeper[b] by {
        if b < order.len() {
            assert(depth[a] <= depth[b]);
        } else if a < order.len() {
            assert(depth[a] <= depth[order.len() - 1]);
        }
    }
    assert(parents_ok(table, me, more)) by {
        assert forall|j: int| 0 < j < more.len() implies more[j] != me && exists|k: int|
            0 <= k < j && is_child(table, #[trigger] more[j], #[trigger] more[k]) by {
            if j < order.len() {
                assert(order[j] != me);
                let k = choose|k: int|
                    0 <= k < j && is_child(table, order[j], #[trigger] order[k]);
                assert(is_child(table, more[j], more[k]));
            } else {
                assert(table[r] == (pid, order[i]));
                assert(is_child(table, more[j], more[i]));
            }
        }
    }
    assert forall|j: int| 0 <= j < more.len() implies within(
        table,
        me,
        root,
        deeper[j],
        #[trigger] more[j],
    ) by {
        if j < order.len() {
            assert(within(table, me, root, depth[j], order[j]));
        }
    }
    assert forall|j: int, n: nat| 0 <= j < more.len() && n < deeper[j] implies !(
    #[trigger] within(table, me, root, n, #[trigger] more[j])) by {
        if j < order.len() {
            assert(!within(table, me, root, n, order[j]));
        }
    }
    assert forall|k: int, j: int|
        0 <= k < table.len() && 0 <= j < i && (#[trigger] table[k]).1 == (#[trigger] more[j])
            && table[k].0 != me implies more.contains(table[k].0) by {
        assert(order[j] == more[j]);
    }
}

/// The search starts with the root alone.
proof fn lemma_sweep_start(table: Seq<(u32, u32)>, me: u32, root: u32)
    ensures
        sweeping(table, me, root, seq![root], seq![0nat], 0),
{
    reveal(sweeping);
    assert(within(table, me, root, 0, root));
}

/// Once its children are listed, the search moves on to the next process.
proof fn lemma_parent_done(
    table: Seq<(u32, u32)>,
    me: u32,
    root: u32,
    order: Seq<u32>,
    depth: Seq<nat>,
    i: int,
)
    requires
        sweeping(table, me, root, order, depth, i),
        i < order.len(),
        forall|k: int|
            0 <= k < table.len() && (#[trigger] table[k]).1 == order[i] && table[k].0 != me
                ==> order.contains(table[k].0),
    ensures
        sweeping(table, me, root, order, depth, i + 1),
{
    reveal(sweeping);
    assert(closed_upto(table, me, order, i + 1)) by {
        assert forall|k: int, j: int|
            0 <= k < table.len() && 0 <= j < i + 1 && (#[trigger] table[k]).1 == (
            #[trigger] order[j]) && table[k].0 != me implies order.contains(table[k].0) by {}
    }
    if i + 1 < order.len() {
        assert(depth[i + 1] <= depth[order.len() - 1]);
        assert(depth[i] <= depth[i + 1]);
        lemma_sweep_next(table, me, root, order, depth, i);
    }
}

/// The listing stays within the table and the root.
proof fn lemma_sweep_len(
    table: Seq<(u32, u32)>,
    me: u32,
    root: u32,
    order: Seq<u32>,
    depth: Seq<nat>,
    i: int,
)
    requires
        sweeping(table, me, root, order, depth, i),
    ensures
        order.len() <= table.len() + 1,
{
    reveal(sweeping);
    assert forall|j: int| 0 < j < order.len() implies has_parent(table, #[trigger] order[j]) by {
        let k = choose|k: int| 0 <= k < j && is_child(table, order[j], #[trigger] order[k]);
        assert(is_child(table, order[j], order[k]));
    }
    lemma_listing_len(table, root, order);
}

/// A search that has passed every listed process has listed the tree.
proof fn lemma_sweep_end(
    table: Seq<(u32, u32)>,
    me: u32,
    root: u32,
    order: Seq<u32>,
    depth: Seq<nat>,
)
    requires
        sweeping(table, me, root, order, depth, order.len() as int),
    ensures
        tree_listing(table, me, root, order),
{
    reveal(sweeping);
    assert forall|pid: u32| order.contains(pid) <==> #[trigger] in_tree(table, me, root, pid) by {
        if order.contains(pid) {
            let j = choose|j: int| 0 <= j < order.len() && order[j] == pid;
            assert(within(table, me, root, depth[j], order[j]));
        }
        if in_tree(table, me, root, pid) {
            let n = choose|n: nat| #[trigger] within(table, me, root, n, pid);
            lemma_tree_listed(table, me, root, order, n, pid);
        }
    }
    assert forall|a: int, b: int| 0 <= a < b < order.len() implies #[trigger] as_close(
        table,
        me,
        root,
        order[a],
        order[b],
    ) by {
        assert forall|n: nat| #[trigger] within(table, me, root, n, order[b]) implies within(
            table,
            me,
            root,
            n,
            order[a],
        ) by {
            if n < depth[b] {
                assert(!within(table, me, root, n, order[b]));
            }
            lemma_within_grows(table, me, root, depth[a], n, order[a]);
        }
    }
}

/// The listing after the first `r` rows were searched for children of `parent`.
pub open spec fn with_children(
    table: Seq<(u32, u32)>,
    me: u32,
    order: Seq<u32>,
    parent: u32,
    r: nat,
) -> Seq<u32>
    decreases r,
{
    if r == 0 {
        order
    } else {
        let rest = with_children(table, me, order, parent, (r - 1) as nat);
        let row = table[r - 1];
        if row.1 == parent && row.0 != me && !rest.contains(row.0) {
            rest.push(row.0)
        } else {
            rest
        }
    }
}

/// The listing after the children of its first `k` processes were added, in
/// the order of the table.
pub open spec fn tree_sweep(table: Seq<(u32, u32)>, me: u32, root: u32, k: nat) -> Seq<u32>
    decreases k,
{
    if k == 0 {
        seq![root]
    } else {
        let rest = tree_sweep(table, me, root, (k - 1) as nat);
        with_children(table, me, rest, rest[k - 1], table.len())
    }
}

/// Lists `root` and its descendants, the closest first, siblings in the order
/// of the table.
pub fn tree_order(table: &Vec<(u32, u32)>, root: u32, me: u32) -> (ordered: Vec<u32>)
    ensures
        tree_listing(table@, me, root, ordered@),
        ordered@ == tree_sweep(table@, me, root, ordered@.len()),
{
    let mut ordered: Vec<u32> = Vec::new();
    ordered.push(root);
    let ghost mut depth: Seq<nat> = seq![0nat];
    let mut i: usize = 0;
    proof {
        lemma_sweep_start(table@, me, root);
        assert(ordered@ =~= seq![root]);
    }
    while i < ordered.len()
        invariant
            i <= ordered@.len(),
            ordered@ == tree_sweep(table@, me, root, i as nat),
            sweeping(table@, me, root, ordered@, depth, i as int),
        decreases table@.len() + 1 - i,
    {
        proof {
            lemma_sweep_len(table@, me, root, ordered@, depth, i as int);
        }
        let parent = ordered[i];
        let ghost outset = ordered@;
        let mut r: usize = 0;
        while r < table.len()
            invariant
                r <= table@.len(),
                ordered@ == with_children(table@, me, outset, parent, r as nat),
                i < ordered@.len(),
                parent == ordered@[i as int],
                sweeping(table@, me, root, ordered@, depth, i as int),
                forall|k: int|
                    0 <= k < r && (#[trigger] table@[k]).1 == parent && table@[k].0 != me
                        ==> ordered@.contains(table@[k].0),
            decreases table@.len() - r,
        {
            let (pid, ppid) = table[r];
            if ppid == parent && pid != me && !has_pid(&ordered, pid) {
                let ghost before = ordered@;
                proof {
                    lemma_child_added(table@, me, root, ordered@, depth, i as int, r as int);
                    depth = depth.push(depth[i as int] + 1);
                }
                ordered.push(pid);
                assert forall|q: u32| before.contains(q) implies ordered@.contains(q) by {
                    let j = choose|j: int| 0 <= j < before.len() && before[j] == q;
                    assert(ordered@[j] == q);
                }
                assert(ordered@[before.len() as int] == pid);
            }
            r = r + 1;
        }
        proof {
            lemma_parent_done(table@, me, root, ordered@, depth, i as int);
        }
        i = i + 1;
    }
    proof {
        lemma_sweep_end(table@, me, root, ordered@, depth);
    }
    ordered
}

/// Whether a process may be terminated: never the idle or system process, and
/// never this one.
pub open spec fn may_terminate(pid: u32, me: u32) -> bool {
    pid != 0 && pid != 4 && pid != me
}

/// Whether a process may be terminated.
pub fn can_terminate(pid: u32, me: u32) -> (yes: bool)
    ensures
        yes == may_terminate(pid, me),
{
    pid != 0 && pid != 4 && pid != me
}

/// The processes of a listing in the order in which they are terminated: from
/// the last to the first, without this process and the system's own.
pub open spec fn doomed(order: Seq<u32>, me: u32) -> Seq<u32>
    decreases order.len(),
{
    if order.len() == 0 {
        Seq::empty()
    } else {
        let rest = doomed(order.skip(1), me);
        if order[0] != me && order[0] > 4 {
            rest.push(order[0])
        } else {
            rest
        }
    }
}

/// The processes to terminate, in order, to kill the tree of `root`.
pub fn kill_order(table: &Vec<(u32, u32)>, root: u32, me: u32) -> (out: Vec<u32>)
    ensures
        !may_terminate(root, me) ==> out@ == Seq::<u32>::empty(),
        may_terminate(root, me) ==> exists|order: Seq<u32>| #[trigger]
            tree_listing(table@, me, root, order) && order == tree_sweep(
                table@,
                me,
                root,
                order.len(),
            ) && out@ == doomed(order, me),
{
    let mut out: Vec<u32> = Vec::new();
    if !can_terminate(root, me) {
        return out;
    }
    let ordered = tree_order(table, root, me);
    let mut j: usize = ordered.len();
    assert(ordered@.skip(ordered@.len() as int) =~= Seq::<u32>::empty());
    while j > 0
        invariant
            j <= ordered@.len(),
            out@ == doomed(ordered@.skip(j as int), me),
        decreases j,
    {
        j = j - 1;
        let pid = ordered[j];
        assert(ordered@.skip(j as int).skip(1) =~= ordered@.skip(j + 1));
        if pid != me && pid > 4 {
            out.push(pid);
        }
    }
    assert(ordered@.skip(0) =~= ordered@);
    out
}

proof fn lemma_doomed(order: Seq<u32>, me: u32)
    requires
        order.no_duplicates(),
    ensures
        doomed(order, me).no_duplicates(),
        forall|p: u32| #[trigger]
            doomed(order, me).contains(p) <==> order.contains(p) && p != me && p > 4,
        forall|a: int, b: int|
            0 <= a < b < doomed(order, me).len() ==> order.index_of(
                #[trigger] doomed(order, me)[a],
            ) > order.index_of(#[trigger] doomed(order, me)[b]),
    decreases order.len(),
{
    if order.len() > 0 {
        let tail = order.skip(1);
        let rest = doomed(tail, me);
        let all = doomed(order, me);
        assert forall|a: int, b: int|
            0 <= a < tail.len() && 0 <= b < tail.len() && a != b implies tail[a] != tail[b] by {
            assert(order[a + 1] != order[b + 1]);
        }
        lemma_doomed(tail, me);
        assert forall|p: u32| tail.contains(p) implies order.contains(p) && order.index_of(p)
            == tail.index_of(p) + 1 && p != order[0] by {
            let k = tail.index_of(p);
            assert(order[k + 1] == p);
            assert(order.contains(p));
            let m = order.index_of(p);
            assert(m == k + 1);
            assert(order[0] != order[k + 1]);
        }
        assert(order.contains(order[0]));
        assert(order.index_of(order[0]) == 0);
        assert forall|p: u32| #[trigger] all.contains(p) <==> order.contains(p) && p != me && p
            > 4 by {
            if all.contains(p) {
                let k = choose|k: int| 0 <= k < all.len() && all[k] == p;
                if k < rest.len() {
                    assert(rest[k] == p);
                    assert(rest.contains(p));
                }
            }
            if order.contains(p) && p != me && p > 4 {
                let k = choose|k: int| 0 <= k < order.len() && order[k] == p;
                if k > 0 {
                    assert(tail[k - 1] == p);
                    assert(rest.contains(p));
                    let m = choose|m: int| 0 <= m < rest.len() && rest[m] == p;
                    assert(all[m] == p);
                } else {
                    assert(all[rest.len() as int] == p);
                }
            }
        }
        assert forall|a: int, b: int| 0 <= a < b < all.len() implies order.index_of(
            #[trigger] all[a],
        ) > order.index_of(#[trigger] all[b]) by {
            assert(rest[a] == all[a]);
            assert(rest.contains(rest[a]));
            assert(tail.contains(rest[a]));
            if b < rest.len() {
                assert(rest.contains(rest[b]));
                assert(tail.contains(rest[b]));
                assert(rest[b] == all[b]);
            }
        }
        assert forall|a: int, b: int|
            0 <= a < all.len() && 0 <= b < all.len() && a != b implies all[a] != all[b] by {
            if a < b {
                assert(order.index_of(all[a]) > order.index_of(all[b]));
            } else {
                assert(order.index_of(all[b]) > order.index_of(all[a]));
            }
        }
    }
}

/// Killing a tree terminates exactly its processes, each once, and never this
/// process nor the system's own.
pub proof fn law_kill_takes_the_whole_tree(
    table: Seq<(u32, u32)>,
    me: u32,
    root: u32,
    order: Seq<u32>,
)
    requires
        tree_listing(table, me, root, order),
    ensures
        doomed(order, me).no_duplicates(),
        forall|p: u32| #[trigger]
            doomed(order, me).contains(p) <==> in_tree(table, me, root, p) && p != me && p > 4,
{
    lemma_doomed(order, me);
}

/// Killing a tree takes the deepest processes first.
pub proof fn law_kill_goes_deepest_first(
    table: Seq<(u32, u32)>,
    me: u32,
    root: u32,
    order: Seq<u32>,
    a: int,
    b: int,
)
    requires
        tree_listing(table, me, root, order),
        0 <= a < b < doomed(order, me).len(),
    ensures
        as_close(table, me, root, doomed(order, me)[b], doomed(order, me)[a]),
{
    lemma_doomed(order, me);
    let kill = doomed(order, me);
    assert(kill.contains(kill[a]));
    assert(kill.contains(kill[b]));
    let x = order.index_of(kill[a]);
    let y = order.index_of(kill[b]);
    assert(order[x] == kill[a] && order[y] == kill[b]);
    assert(as_close(table, me, root, order[y], order[x]));
}

/// Where the table lists each process once, a process is terminated before its
/// parent, so that no parent is left to start it again.
pub proof fn law_children_die_before_their_parent(
    table: Seq<(u32, u32)>,
    me: u32,
    root: u32,
    order: Seq<u32>,
    a: int,
    b: int,
)
    requires
        tree_listing(table, me, root, order),
        forall|r: int, s: int|
            0 <= r < table.len() && 0 <= s < table.len() && (#[trigger] table[r]).0 == (
            #[trigger] table[s]).0 ==> r == s,
        0 <= a < doomed(order, me).len(),
        0 <= b < doomed(order, me).len(),
        doomed(order, me)[a] != root,
        is_child(table, doomed(order, me)[a], doomed(order, me)[b]),
    ensures
        a < b || doomed(order, me)[a] == doomed(order, me)[b],
{
    lemma_doomed(order, me);
    let kill = doomed(order, me);
    let child = kill[a];
    let parent = kill[b];
    assert(kill.contains(child));
    assert(kill.contains(parent));
    let x = order.index_of(child);
    assert(order[x] == child);
    let i = choose|i: int| 0 <= i < x && is_child(table, order[x], #[trigger] order[i]);
    let r = choose|r: int| 0 <= r < table.len() && #[trigger] table[r] == (child, order[i]);
    let s = choose|s: int| 0 <= s < table.len() && #[trigger] table[s] == (child, parent);
    assert(table[r].0 == table[s].0);
    assert(order[i] == parent);
    assert(order.index_of(parent) == i);
    if a > b {
        assert(order.index_of(kill[b]) > order.index_of(kill[a]));
    }
}

/// The milliseconds to wait for a process, as far as the system can count them.
pub fn wait_millis(budget: u128) -> (ms: u32)
    ensures
        ms == (if budget < u32::MAX {
            budget as int
        } else {
            u32::MAX as int
        }),
{
    if budget < u32::MAX as u128 {
        budget as u32
    } else {
        u32::MAX
    }
}

// ---------------------------------------------------------------------------
// Listeners
// ---------------------------------------------------------------------------

/// The process that a `netstat -ano -p tcp` line names, where the line is of a
/// TCP socket on the local port. The state column is not read: its text
/// depends on the locale.
pub open spec fn row_pid(line: Seq<char>, port: u16) -> Option<u32> {
    let fields = crate::text::words(line);
    if fields.len() >= 5 && fields[0] == "TCP"@ && crate::text::ends_with(
        fields[1],
        ":"@ + crate::text::decimal(port as nat),
    ) && fields[4] != "0"@ {
        crate::text::parse_u32(fields[4])
    } else {
        None
    }
}

/// The processes that the first `n` lines name, in order.
pub open spec fn row_pids(lines: Seq<Seq<char>>, port: u16, n: nat) -> Seq<u32>
    decreases n,
{
    if n == 0 {
        Seq::empty()
    } else {
        let rest = row_pids(lines, port, (n - 1) as nat);
        match row_pid(lines[n - 1], port) {
            Some(pid) => rest.push(pid),
            None => rest,
        }
    }
}

/// The processes that a `netstat` output names for a port, in order.
pub open spec fn netstat_pids(output: Seq<char>, port: u16) -> Seq<u32> {
    let lines = crate::text::lines(output);
    row_pids(lines, port, lines.len())
}

/// The first occurrences in a list, in order.
pub open spec fn firsts(s: Seq<u32>) -> Seq<u32>
    decreases s.len(),
{
    if s.len() == 0 {
        Seq::empty()
    } else {
        let rest = firsts(s.drop_last());
        if rest.contains(s.last()) {
            rest
        } else {
            rest.push(s.last())
        }
    }
}

fn read_row(line: &Vec<char>, port: u16) -> (pid: Option<u32>)
    ensures
        pid == row_pid(line@, port),
{
    let fields = split_words(line);
    let ghost words = crate::text::texts(fields@);
    if fields.len() < 5 {
        return None;
    }
    let suffix = cat(":", decimal_string(port as u64).as_str());
    assert(words[0] == fields@[0]@ && words[1] == fields@[1]@ && words[4] == fields@[4]@);
    if chars_eq(&fields[0], &chars_of("TCP")) && chars_end_with(
        &fields[1],
        &chars_of(suffix.as_str()),
    ) && !chars_eq(&fields[4], &chars_of("0")) {
        read_u32(&fields[4])
    } else {
        None
    }
}

/// Every process that a `netstat` output names for a port, in order.
pub fn port_rows(output: &str, port: u16) -> (pids: Vec<u32>)
    ensures
        pids@ == netstat_pids(output@, port),
{
    let lines = split_lines(&chars_of(output));
    let ghost all = crate::text::texts(lines@);
    let mut pids: Vec<u32> = Vec::new();
    let mut i: usize = 0;
    while i < lines.len()
        invariant
            i <= lines@.len(),
            all == crate::text::texts(lines@),
            pids@ == row_pids(all, port, i as nat),
        decreases lines@.len() - i,
    {
        assert(all[i as int] == lines@[i as int]@);
        match read_row(&lines[i], port) {
            Some(pid) => pids.push(pid),
            None => {},
        }
        i = i + 1;
    }
    pids
}

/// The first process that a `netstat` output names for a port.
pub fn port_listener_pid(output: &str, port: u16) -> (pid: Option<u32>)
    ensures
        pid == (if netstat_pids(output@, port).len() > 0 {
            Some(netstat_pids(output@, port)[0])
        } else {
            None
        }),
{
    let pids = port_rows(output, port);
    if pids.len() > 0 {
        Some(pids[0])
    } else {
        None
    }
}

fn distinct(list: &Vec<u32>) -> (out: Vec<u32>)
    ensures
        out@ == firsts(list@),
{
    let mut out: Vec<u32> = Vec::new();
    let mut i: usize = 0;
    while i < list.len()
        invariant
            i <= list@.len(),
            out@ == firsts(list@.take(i as int)),
        decreases list@.len() - i,
    {
        assert(list@.take(i + 1).drop_last() =~= list@.take(i as int));
        if !has_pid(&out, list[i]) {
            out.push(list[i]);
        }
        i = i + 1;
    }
    assert(list@.take(list@.len() as int) =~= list@);
    out
}

/// The processes that a `netstat` output names for a port, each once.
pub fn listener_pids(output: &str, port: u16) -> (pids: Vec<u32>)
    ensures
        pids@ == firsts(netstat_pids(output@, port)),
{
    distinct(&port_rows(output, port))
}

/// A list of first occurrences holds the same processes, each once.
pub proof fn law_listeners_are_listed_once(s: Seq<u32>)
    ensures
        firsts(s).no_duplicates(),
        forall|p: u32| #[trigger] firsts(s).contains(p) <==> s.contains(p),
    decreases s.len(),
{
    if s.len() > 0 {
        let front = s.drop_last();
        let rest = firsts(front);
        let all = firsts(s);
        law_listeners_are_listed_once(front);
        assert forall|p: u32| #[trigger] all.contains(p) <==> s.contains(p) by {
            if all.contains(p) {
                let k = choose|k: int| 0 <= k < all.len() && all[k] == p;
                if k < rest.len() {
                    assert(rest[k] == p);
                    assert(rest.contains(p));
                    let m = choose|m: int| 0 <= m < front.len() && front[m] == p;
                    assert(s[m] == p);
                } else {
                    assert(s[s.len() - 1] == p);
                }
            }
            if s.contains(p) {
                let m = choose|m: int| 0 <= m < s.len() && s[m] == p;
                if m < front.len() {
                    assert(front[m] == p);
                    assert(rest.contains(p));
                }
                if rest.contains(p) {
                    let k = choose|k: int| 0 <= k < rest.len() && rest[k] == p;
                    assert(all[k] == p);
                } else {
                    assert(all[rest.len() as int] == p);
                }
            }
        }
        assert forall|a: int, b: int|
            0 <= a < all.len() && 0 <= b < all.len() && a != b implies all[a] != all[b] by {
            if a < rest.len() && b < rest.len() {
                assert(rest[a] != rest[b]);
            } else if a < rest.len() {
                assert(rest.contains(rest[a]));
            } else {
                assert(rest.contains(rest[b]));
            }
        }
    }
}

/// The 32-bit number at `at`, least significant byte first.
pub open spec fn le32(buf: Seq<u8>, at: int) -> int {
    buf[at] + 256 * buf[at + 1] + 65536 * buf[at + 2] + 16777216 * buf[at + 3]
}

/// The port field of a row on port `port`: 16 bits in network byte order.
pub open spec fn port_field(port: u16) -> int {
    (port % 256) * 256 + port / 256
}

/// The number of rows that a listener table both claims and holds. A table is
/// a row count of 4 bytes and rows of 24 bytes.
pub open spec fn table_rows(buf: Seq<u8>) -> int {
    if buf.len() < 4 {
        0
    } else {
        let held = (buf.len() - 4) / 24;
        if le32(buf, 0) < held {
            le32(buf, 0)
        } else {
            held
        }
    }
}

/// The owners of the first `n` rows that listen on `port`, in order. A row
/// holds state, local address, local port, remote address, remote port and
/// owner; state 2 is listening.
pub open spec fn table_owners(buf: Seq<u8>, port: u16, n: nat) -> Seq<u32>
    decreases n,
{
    if n == 0 {
        Seq::empty()
    } else {
        let rest = table_owners(buf, port, (n - 1) as nat);
        let at = 4 + 24 * (n - 1);
        if le32(buf, at) == 2 && le32(buf, at + 8) == port_field(port) {
            rest.push(le32(buf, at + 20) as u32)
        } else {
            rest
        }
    }
}

fn read_le32(buf: &[u8], at: usize) -> (n: u32)
    requires
        at + 4 <= buf@.len(),
        at + 4 <= usize::MAX,
    ensures
        n == le32(buf@, at as int),
{
    buf[at] as u32 + 256 * buf[at + 1] as u32 + 65536 * buf[at + 2] as u32 + 16777216
        * buf[at + 3] as u32
}

/// The processes that listen on `port`, each once, out of the system's table
/// of listeners with their owners.
pub fn table_listener_pids(buf: &[u8], port: u16) -> (pids: Vec<u32>)
    ensures
        pids@ == firsts(table_owners(buf@, port, table_rows(buf@) as nat)),
{
    let len: usize = buf.len();
    let mut owners: Vec<u32> = Vec::new();
    if len < 4 {
        assert(table_owners(buf@, port, 0) =~= Seq::<u32>::empty());
        return owners;
    }
    let claimed: u32 = read_le32(buf, 0);
    let held: usize = (len - 4) / 24;
    let count: usize = if (claimed as u64) < held as u64 {
        claimed as usize
    } else {
        held
    };
    let wanted: u32 = (port % 256) as u32 * 256 + (port / 256) as u32;
    let mut i: usize = 0;
    while i < count
        invariant
            i <= count <= held,
            held * 24 + 4 <= len == buf@.len(),
            wanted == port_field(port),
            owners@ == table_owners(buf@, port, i as nat),
        decreases count - i,
    {
        let at: usize = 4 + 24 * i;
        if read_le32(buf, at) == 2 && read_le32(buf, at + 8) == wanted {
            owners.push(read_le32(buf, at + 20));
        }
        i = i + 1;
    }
    distinct(&owners)
}

// ---------------------------------------------------------------------------
// What the tables say
// ---------------------------------------------------------------------------

/// The tree of a process holds the process itself and every child of what it
/// holds, but for this process; and whatever else it holds is such a child.
pub proof fn law_a_tree_is_closed_under_children(
    table: Seq<(u32, u32)>,
    me: u32,
    root: u32,
    pid: u32,
)
    ensures
        in_tree(table, me, root, root),
        forall|i: int|
            0 <= i < table.len() && (#[trigger] table[i]).0 != me && in_tree(
                table,
                me,
                root,
                table[i].1,
            ) ==> in_tree(table, me, root, table[i].0),
        in_tree(table, me, root, pid) && pid != root ==> pid != me && exists|i: int|
            0 <= i < table.len() && (#[trigger] table[i]).0 == pid && in_tree(
                table,
                me,
                root,
                table[i].1,
            ),
{
    assert(within(table, me, root, 0, root));
    assert forall|i: int|
        0 <= i < table.len() && (#[trigger] table[i]).0 != me && in_tree(
            table,
            me,
            root,
            table[i].1,
        ) implies in_tree(table, me, root, table[i].0) by {
        let n = choose|n: nat| #[trigger] within(table, me, root, n, table[i].1);
        assert(within(table, me, root, n + 1, table[i].0));
    }
    if in_tree(table, me, root, pid) && pid != root {
        let n = choose|n: nat| #[trigger] within(table, me, root, n, pid);
        lemma_within_has_parent(table, me, root, n, pid);
    }
}

proof fn lemma_within_has_parent(
    table: Seq<(u32, u32)>,
    me: u32,
    root: u32,
    n: nat,
    pid: u32,
)
    requires
        within(table, me, root, n, pid),
        pid != root,
    ensures
        pid != me,
        exists|i: int|
            0 <= i < table.len() && (#[trigger] table[i]).0 == pid && in_tree(
                table,
                me,
                root,
                table[i].1,
            ),
    decreases n,
{
    if within(table, me, root, (n - 1) as nat, pid) {
        lemma_within_has_parent(table, me, root, (n - 1) as nat, pid);
    } else {
        let i = choose|i: int|
            0 <= i < table.len() && (#[trigger] table[i]).0 == pid && within(
                table,
                me,
                root,
                (n - 1) as nat,
                table[i].1,
            );
        assert(in_tree(table, me, root, table[i].1));
    }
}

/// Neither the idle process, the system nor this process is ever terminated.
/// Every other process may be.
pub proof fn law_the_system_is_never_terminated(pid: u32, me: u32)
    ensures
        !may_terminate(0, me),
        !may_terminate(4, me),
        !may_terminate(me, me),
        pid > 4 && pid != me ==> may_terminate(pid, me),
{
}

/// Whether a text holds no whitespace, and something.
pub open spec fn is_word(s: Seq<char>) -> bool {
    s.len() > 0 && forall|k: int| 0 <= k < s.len() ==> !crate::text::is_white(#[trigger] s[k])
}

proof fn lemma_words_of_join(fields: Seq<Seq<char>>)
    requires
        fields.len() > 0,
        forall|i: int| 0 <= i < fields.len() ==> is_word(#[trigger] fields[i]),
    ensures
        crate::text::words(crate::text::join(fields, seq![' '])) == fields,
    decreases fields.len(),
{
    let first = fields[0];
    assert(is_word(first));
    crate::text::law_visible_characters_are_no_whitespace(' ');
    if fields.len() == 1 {
        crate::text::law_words_stand_between_whitespace(first, ' ', first);
        assert(fields =~= seq![first]);
    } else {
        let rest = fields.skip(1);
        assert forall|i: int| 0 <= i < rest.len() implies is_word(#[trigger] rest[i]) by {
            assert(rest[i] == fields[i + 1]);
        }
        lemma_words_of_join(rest);
        crate::text::law_joins_are_joined(seq![first], rest, seq![' ']);
        assert(seq![first] + rest =~= fields);
        crate::text::law_words_stand_between_whitespace(
            first,
            ' ',
            crate::text::join(rest, seq![' ']),
        );
    }
}

/// An address ends with a port exactly where that is the number behind its
/// last colon: `:3080` is not found in `:13080`.
proof fn lemma_port_at_end(address: Seq<char>, q: u16, port: u16)
    ensures
        crate::text::ends_with(
            address + seq![':'] + crate::text::decimal(q as nat),
            ":"@ + crate::text::decimal(port as nat),
        ) <==> q == port,
{
    reveal_strlit(":");
    let dq = crate::text::decimal(q as nat);
    let dp = crate::text::decimal(port as nat);
    let s = address + seq![':'] + dq;
    let pat = ":"@ + dp;
    crate::text::law_numerals_read_back(q as nat);
    crate::text::law_numerals_read_back(port as nat);
    if crate::text::ends_with(s, pat) {
        let k = s.len() - pat.len();
        let piece = s.subrange(k, k + pat.len());
        assert(piece[0] == ':');
        assert(s[k] == ':');
        if dp.len() < dq.len() {
            assert(s[k] == dq[k - address.len() - 1]);
        }
        let c = address.len() as int;
        assert(s[c] == ':');
        if dp.len() > dq.len() {
            assert(piece[c - k] == s[c]);
            assert(pat[c - k] == dp[c - k - 1]);
        }
        assert(dp.len() == dq.len());
        assert forall|j: int| 0 <= j < dp.len() implies dp[j] == dq[j] by {
            assert(piece[j + 1] == pat[j + 1]);
            assert(s[k + j + 1] == dq[j]);
        }
        assert(dp =~= dq);
    }
    if q == port {
        let k = s.len() - pat.len();
        assert(s.subrange(k, k + pat.len()) =~= pat);
    }
}

/// A line of `netstat` names a process for a port exactly where it is of a TCP
/// socket, the number behind the last colon of its local address is the port,
/// and the fifth column is the number of a process other than zero. The other
/// columns may hold anything.
pub proof fn law_a_row_names_the_owner_of_its_port(
    fields: Seq<Seq<char>>,
    address: Seq<char>,
    q: u16,
    pid: u32,
    port: u16,
)
    requires
        fields.len() >= 5,
        forall|i: int| 0 <= i < fields.len() ==> is_word(#[trigger] fields[i]),
        fields[1] == address + seq![':'] + crate::text::decimal(q as nat),
        fields[4] == crate::text::decimal(pid as nat),
    ensures
        row_pid(crate::text::join(fields, seq![' ']), port) == (if fields[0] == "TCP"@ && q == port
            && pid != 0 {
            Some(pid)
        } else {
            None
        }),
{
    lemma_words_of_join(fields);
    lemma_port_at_end(address, q, port);
    crate::text::law_numerals_read_back(pid as nat);
    reveal_strlit("0");
    if pid == 0 {
        assert(fields[4] =~= "0"@);
    } else if fields[4] == "0"@ {
        assert(fields[4][0] == '0');
    }
}

/// A short line names no process.
pub proof fn law_a_short_row_names_nobody(fields: Seq<Seq<char>>, port: u16)
    requires
        0 < fields.len() < 5,
        forall|i: int| 0 <= i < fields.len() ==> is_word(#[trigger] fields[i]),
    ensures
        row_pid(crate::text::join(fields, seq![' ']), port) is None,
{
    lemma_words_of_join(fields);
}

proof fn lemma_row_pids_front(line: Seq<char>, rest: Seq<Seq<char>>, port: u16, n: nat)
    requires
        n <= rest.len(),
    ensures
        row_pids(seq![line] + rest, port, n + 1) == (match row_pid(line, port) {
            Some(pid) => seq![pid],
            None => Seq::empty(),
        }) + row_pids(rest, port, n),
    decreases n,
{
    let all = seq![line] + rest;
    let head = match row_pid(line, port) {
        Some(pid) => seq![pid],
        None => Seq::empty(),
    };
    if n == 0 {
        assert(all[0] == line);
        assert(row_pids(all, port, 0) =~= Seq::<u32>::empty());
        assert(row_pids(all, port, 1) =~= head + row_pids(rest, port, 0));
    } else {
        lemma_row_pids_front(line, rest, port, (n - 1) as nat);
        assert(all[n as int] == rest[n - 1]);
        assert(row_pids(all, port, n + 1) =~= head + row_pids(rest, port, n));
    }
}

/// Every line of the output counts, in order.
pub proof fn law_every_row_counts(line: Seq<char>, rest: Seq<char>, port: u16)
    requires
        !line.contains('\n'),
    ensures
        netstat_pids(line + seq!['\r', '\n'] + rest, port) == (match row_pid(line, port) {
            Some(pid) => seq![pid],
            None => Seq::empty(),
        }) + netstat_pids(rest, port),
        netstat_pids(Seq::empty(), port).len() == 0,
{
    crate::text::law_lines_end_at_line_feeds(line, rest);
    let lines = crate::text::lines(rest);
    lemma_row_pids_front(line, lines, port, lines.len());
}

/// One more process is listed behind the others, unless it is listed already.
pub proof fn law_a_known_listener_is_not_listed_again(s: Seq<u32>, p: u32)
    ensures
        firsts(s.push(p)) == (if s.contains(p) {
            firsts(s)
        } else {
            firsts(s).push(p)
        }),
        firsts(Seq::empty()) == Seq::<u32>::empty(),
{
    assert(s.push(p).drop_last() =~= s);
    law_listeners_are_listed_once(s);
    assert(firsts(s).contains(p) <==> s.contains(p));
}

/// A row of the listener table counts exactly where its state is that of a
/// listener and its port field holds the port, the high byte first. The
/// process is the number in its last four bytes, the low byte first.
pub proof fn law_a_listening_row_names_its_owner(buf: Seq<u8>, port: u16, n: nat)
    requires
        4 + 24 * (n + 1) <= buf.len(),
    ensures
        ({
            let at = 4 + 24 * n as int;
            let listening = buf[at] == 2 && buf[at + 1] == 0 && buf[at + 2] == 0 && buf[at + 3] == 0;
            let on_port = buf[at + 8] == port / 256 && buf[at + 9] == port % 256 && buf[at + 10] == 0
                && buf[at + 11] == 0;
            let owner = buf[at + 20] + 256 * buf[at + 21] + 65536 * buf[at + 22] + 16777216 * buf[at
                + 23];
            &&& table_owners(buf, port, n + 1).len() == table_owners(buf, port, n).len() + (
            if listening && on_port {
                1int
            } else {
                0int
            })
            &&& table_owners(buf, port, n + 1).take(table_owners(buf, port, n).len() as int)
                == table_owners(buf, port, n)
            &&& listening && on_port ==> table_owners(buf, port, n + 1).last() == owner
        }),
{
    let rest = table_owners(buf, port, n);
    let all = table_owners(buf, port, n + 1);
    assert(all.take(rest.len() as int) =~= rest);
}

/// A table holds as many rows as it claims, as far as they are there whole.
pub proof fn law_only_whole_rows_count(buf: Seq<u8>, claimed: int)
    requires
        buf.len() >= 4,
        claimed == buf[0] + 256 * buf[1] + 65536 * buf[2] + 16777216 * buf[3],
    ensures
        table_rows(buf) <= claimed,
        4 + 24 * table_rows(buf) <= buf.len(),
        table_rows(buf) == claimed || 4 + 24 * (table_rows(buf) + 1) > buf.len(),
{
}

} // verus!
