//! The tree of blocked and allowed names. A node stands for a name; its
//! children stand for the names with one more label in front, so that names
//! with a common ending share a path from the root.

use crate::name::{bytes_equal, copy_bytes, DomainName};
use vstd::prelude::*;

verus! {

/// The last `count` labels of `name`.
pub open spec fn suffix(name: Seq<Seq<u8>>, count: int) -> Seq<Seq<u8>> {
    name.subrange(name.len() - count, name.len() as int)
}

/// Whether `name` is blocked, given the blocked and the allowed names: some
/// ending of it is blocked, and neither that ending nor a longer one is
/// allowed. So the more specific entry wins, and an allowed entry wins over
/// a blocked one for the same name.
pub open spec fn blocked_by(
    blocked: Set<Seq<Seq<u8>>>,
    allowed: Set<Seq<Seq<u8>>>,
    name: Seq<Seq<u8>>,
) -> bool {
    exists|k: int|
        0 <= k <= name.len() && #[trigger] blocked.contains(suffix(name, k)) && forall|j: int|
            k <= j <= name.len() ==> !allowed.contains(#[trigger] suffix(name, j))
}

/// Of the endings of `name` with fewer than `limit` labels, the longest in
/// `set` has `depth` labels if `found`; none is in `set` if not.
pub open spec fn deepest_below(
    set: Set<Seq<Seq<u8>>>,
    name: Seq<Seq<u8>>,
    limit: int,
    found: bool,
    depth: int,
) -> bool {
    &&& found ==> 0 <= depth < limit && set.contains(suffix(name, depth))
    &&& forall|j: int|
        (if found {
            depth < j
        } else {
            0 <= j
        }) && j < limit ==> !set.contains(#[trigger] suffix(name, j))
}

/// A name is blocked exactly if its longest blocked ending is longer than
/// its longest allowed ending.
pub proof fn lemma_blocked_by_depths(
    blocked: Set<Seq<Seq<u8>>>,
    allowed: Set<Seq<Seq<u8>>>,
    name: Seq<Seq<u8>>,
    has_block: bool,
    block_depth: int,
    has_allow: bool,
    allow_depth: int,
)
    requires
        deepest_below(blocked, name, name.len() as int + 1, has_block, block_depth),
        deepest_below(allowed, name, name.len() as int + 1, has_allow, allow_depth),
    ensures
        blocked_by(blocked, allowed, name) == (has_block && !(has_allow && allow_depth
            >= block_depth)),
{
    if has_block && !(has_allow && allow_depth >= block_depth) {
        assert(blocked.contains(suffix(name, block_depth)));
    } else {
        if blocked_by(blocked, allowed, name) {
            let k = choose|k: int|
                0 <= k <= name.len() && #[trigger] blocked.contains(suffix(name, k)) && forall|
                    j: int,
                |
                    k <= j <= name.len() ==> !allowed.contains(#[trigger] suffix(name, j));
            assert(has_block && k <= block_depth);
            assert(allowed.contains(suffix(name, allow_depth)));
        }
    }
}

/// Blocking a name blocks every name under it, unless an ending of that
/// name at least as long as the blocked one is allowed.
pub proof fn lemma_block_covers_subdomains(
    blocked: Set<Seq<Seq<u8>>>,
    allowed: Set<Seq<Seq<u8>>>,
    entry: Seq<Seq<u8>>,
    name: Seq<Seq<u8>>,
)
    requires
        blocked.contains(entry),
        entry.len() <= name.len(),
        suffix(name, entry.len() as int) == entry,
        forall|j: int| entry.len() <= j <= name.len() ==> !allowed.contains(suffix(name, j)),
    ensures
        blocked_by(blocked, allowed, name),
{
    assert(blocked.contains(suffix(name, entry.len() as int)));
}

/// A name none of whose endings is blocked is not blocked.
pub proof fn lemma_unlisted_not_blocked(
    blocked: Set<Seq<Seq<u8>>>,
    allowed: Set<Seq<Seq<u8>>>,
    name: Seq<Seq<u8>>,
)
    requires
        forall|k: int| 0 <= k <= name.len() ==> !blocked.contains(suffix(name, k)),
    ensures
        !blocked_by(blocked, allowed, name),
{
}

/// Allowing a name allows every name under it, unless a longer ending of
/// that name is blocked.
pub proof fn lemma_allow_covers_subdomains(
    blocked: Set<Seq<Seq<u8>>>,
    allowed: Set<Seq<Seq<u8>>>,
    entry: Seq<Seq<u8>>,
    name: Seq<Seq<u8>>,
)
    requires
        allowed.contains(entry),
        entry.len() <= name.len(),
        suffix(name, entry.len() as int) == entry,
        forall|j: int| entry.len() < j <= name.len() ==> !blocked.contains(suffix(name, j)),
    ensures
        !blocked_by(blocked, allowed, name),
{
    if blocked_by(blocked, allowed, name) {
        let k = choose|k: int|
            0 <= k <= name.len() && #[trigger] blocked.contains(suffix(name, k)) && forall|j: int|
                k <= j <= name.len() ==> !allowed.contains(#[trigger] suffix(name, j));
        assert(k <= entry.len());
        assert(allowed.contains(suffix(name, entry.len() as int)));
    }
}

/// Allowing a name changes nothing for the names that are not under it.
pub proof fn lemma_allow_leaves_others(
    blocked: Set<Seq<Seq<u8>>>,
    allowed: Set<Seq<Seq<u8>>>,
    entry: Seq<Seq<u8>>,
    name: Seq<Seq<u8>>,
)
    requires
        !(entry.len() <= name.len() && suffix(name, entry.len() as int) == entry),
    ensures
        blocked_by(blocked, allowed.insert(entry), name) == blocked_by(blocked, allowed, name),
{
    let more = allowed.insert(entry);
    assert forall|j: int| 0 <= j <= name.len() implies more.contains(suffix(name, j))
        == allowed.contains(suffix(name, j)) by {
        if suffix(name, j) == entry {
            assert(entry.len() == j);
        }
    }
    if blocked_by(blocked, allowed, name) {
        let k = choose|k: int|
            0 <= k <= name.len() && #[trigger] blocked.contains(suffix(name, k)) && forall|j: int|
                k <= j <= name.len() ==> !allowed.contains(#[trigger] suffix(name, j));
        assert(blocked.contains(suffix(name, k)));
        assert(blocked_by(blocked, more, name));
    }
    if blocked_by(blocked, more, name) {
        let k = choose|k: int|
            0 <= k <= name.len() && #[trigger] blocked.contains(suffix(name, k)) && forall|j: int|
                k <= j <= name.len() ==> !more.contains(#[trigger] suffix(name, j));
        assert(blocked.contains(suffix(name, k)));
        assert(blocked_by(blocked, allowed, name));
    }
}

/// A node of the tree: the label that leads to it from its parent, its
/// children, and whether its name is blocked or explicitly allowed.
pub struct FilterNode {
    label: Vec<u8>,
    parent: usize,
    children: Vec<usize>,
    blocked: bool,
    allowed: bool,
}

/// The tree of blocked and allowed names.
pub struct DomainFilterTree {
    nodes: Vec<FilterNode>,
}

/// The name that node `i` stands for: its label, then the name of its
/// parent. The root, node 0, stands for the empty name.
pub closed spec fn node_path(nodes: Seq<FilterNode>, i: int) -> Seq<Seq<u8>>
    decreases i,
{
    if 0 < i < nodes.len() && nodes[i].parent < i {
        seq![nodes[i].label@] + node_path(nodes, nodes[i].parent as int)
    } else {
        Seq::empty()
    }
}

/// Node `c` is listed among the children of node `p`.
spec fn lists_child(nodes: Seq<FilterNode>, p: int, c: int) -> bool {
    exists|m: int| 0 <= m < nodes[p].children@.len() && #[trigger] nodes[p].children@[m] == c
}

/// Every node but the root is a child of its parent, which comes before it;
/// every child names its parent; and no two nodes stand for the same name.
pub closed spec fn links_ok(nodes: Seq<FilterNode>) -> bool {
    &&& nodes.len() >= 1
    &&& forall|i: int|
        0 < i < nodes.len() ==> {
            &&& (#[trigger] nodes[i]).parent < i
            &&& lists_child(nodes, nodes[i].parent as int, i)
        }
    &&& forall|p: int, k: int|
        0 <= p < nodes.len() && 0 <= k < nodes[p].children@.len() ==> {
            let c = #[trigger] nodes[p].children@[k];
            p < c < nodes.len() && nodes[c as int].parent == p
        }
    &&& forall|i: int, j: int|
        0 <= i < nodes.len() && 0 <= j < nodes.len() && #[trigger] node_path(nodes, i)
            == #[trigger] node_path(nodes, j) ==> i == j
}

/// The names of the nodes marked as blocked.
pub closed spec fn blocked_names(nodes: Seq<FilterNode>) -> Set<Seq<Seq<u8>>> {
    Set::new(
        |name: Seq<Seq<u8>>|
            exists|i: int|
                0 <= i < nodes.len() && nodes[i].blocked && #[trigger] node_path(nodes, i) == name,
    )
}

/// The names of the nodes marked as allowed.
pub closed spec fn allowed_names(nodes: Seq<FilterNode>) -> Set<Seq<Seq<u8>>> {
    Set::new(
        |name: Seq<Seq<u8>>|
            exists|i: int|
                0 <= i < nodes.len() && nodes[i].allowed && #[trigger] node_path(nodes, i) == name,
    )
}

/// Two trees agree on the labels and parents of their first nodes.
spec fn same_shape_upto(a: Seq<FilterNode>, b: Seq<FilterNode>, count: int) -> bool {
    forall|j: int|
        0 <= j < count ==> (#[trigger] b[j]).label == a[j].label && b[j].parent == a[j].parent
}

proof fn lemma_path_stable(a: Seq<FilterNode>, b: Seq<FilterNode>, i: int)
    requires
        0 <= i < a.len() <= b.len(),
        same_shape_upto(a, b, i + 1),
    ensures
        node_path(b, i) == node_path(a, i),
    decreases i,
{
    assert(b[i].label == a[i].label && b[i].parent == a[i].parent);
    if 0 < i && a[i].parent < i {
        lemma_path_stable(a, b, a[i].parent as int);
    }
}

/// A node whose name is a label in front of the name of `cur` is a child of
/// `cur` with that label.
proof fn lemma_child_of(nodes: Seq<FilterNode>, y: int, cur: int, label: Seq<u8>)
    requires
        links_ok(nodes),
        0 <= cur < nodes.len(),
        0 <= y < nodes.len(),
        node_path(nodes, y) == seq![label] + node_path(nodes, cur),
    ensures
        0 < y,
        nodes[y].parent == cur,
        nodes[y].label@ == label,
        lists_child(nodes, cur, y),
{
    let whole = node_path(nodes, y);
    assert(whole.len() >= 1);
    assert(y != 0);
    assert(nodes[y].parent < y);
    let mine = seq![nodes[y].label@] + node_path(nodes, nodes[y].parent as int);
    let other = seq![label] + node_path(nodes, cur);
    assert(mine == other);
    assert(mine[0] == other[0]);
    assert(mine.drop_first() =~= node_path(nodes, nodes[y].parent as int));
    assert(other.drop_first() =~= node_path(nodes, cur));
}

/// Every ending of the name of a node is the name of a node.
proof fn lemma_ancestor(nodes: Seq<FilterNode>, x: int, count: int) -> (y: int)
    requires
        links_ok(nodes),
        0 <= x < nodes.len(),
        0 <= count <= node_path(nodes, x).len(),
    ensures
        0 <= y < nodes.len(),
        node_path(nodes, y) == suffix(node_path(nodes, x), count),
    decreases x,
{
    let path = node_path(nodes, x);
    if count == path.len() {
        assert(suffix(path, count) =~= path);
        x
    } else {
        assert(0 < x && nodes[x].parent < x);
        let parent = nodes[x].parent as int;
        let y = lemma_ancestor(nodes, parent, count);
        assert(suffix(node_path(nodes, parent), count) =~= suffix(path, count));
        y
    }
}

/// Where `cur` stands for the last `k` labels of `name` and has no child
/// for the label before them, no node stands for a longer ending of `name`.
proof fn lemma_absent_below(nodes: Seq<FilterNode>, name: Seq<Seq<u8>>, k: int, cur: int)
    requires
        links_ok(nodes),
        0 <= cur < nodes.len(),
        0 <= k < name.len(),
        node_path(nodes, cur) == suffix(name, k),
        forall|m: int|
            0 <= m < nodes[cur].children@.len() ==> nodes[(#[trigger] nodes[cur].children@[m]) as int].label@
                != name[name.len() - 1 - k],
    ensures
        forall|j: int, x: int|
            k < j <= name.len() && 0 <= x < nodes.len() ==> #[trigger] node_path(nodes, x)
                != #[trigger] suffix(name, j),
{
    assert forall|j: int, x: int| k < j <= name.len() && 0 <= x < nodes.len() implies #[trigger] node_path(
        nodes,
        x,
    ) != #[trigger] suffix(name, j) by {
        if node_path(nodes, x) == suffix(name, j) {
            let label = name[name.len() - 1 - k];
            let y = lemma_ancestor(nodes, x, k + 1);
            assert(suffix(suffix(name, j), k + 1) =~= suffix(name, k + 1));
            assert(suffix(name, k + 1) =~= seq![label] + suffix(name, k));
            lemma_child_of(nodes, y, cur, label);
            let m = choose|m: int|
                0 <= m < nodes[cur].children@.len() && #[trigger] nodes[cur].children@[m] == y;
            assert(nodes[nodes[cur].children@[m] as int].label@ == label);
        }
    }
}

/// The name of a node is among the blocked names exactly if the node is
/// marked as blocked, and among the allowed names exactly if it is marked
/// as allowed.
proof fn lemma_member(nodes: Seq<FilterNode>, i: int)
    requires
        links_ok(nodes),
        0 <= i < nodes.len(),
    ensures
        blocked_names(nodes).contains(node_path(nodes, i)) == nodes[i].blocked,
        allowed_names(nodes).contains(node_path(nodes, i)) == nodes[i].allowed,
{
}

/// A name that no node stands for is neither blocked nor allowed.
proof fn lemma_not_member(nodes: Seq<FilterNode>, name: Seq<Seq<u8>>)
    requires
        forall|x: int| 0 <= x < nodes.len() ==> #[trigger] node_path(nodes, x) != name,
    ensures
        !blocked_names(nodes).contains(name),
        !allowed_names(nodes).contains(name),
{
}

/// A new, unmarked child under `cur` keeps the tree in order, stands for
/// its label in front of the name of `cur`, and leaves the names as they
/// were.
proof fn lemma_grown(
    before: Seq<FilterNode>,
    after: Seq<FilterNode>,
    cur: int,
    label: Seq<u8>,
    new: usize,
)
    requires
        links_ok(before),
        new == before.len(),
        0 <= cur < before.len(),
        after.len() == before.len() + 1,
        forall|j: int| 0 <= j < before.len() && j != cur ==> #[trigger] after[j] == before[j],
        after[cur].label == before[cur].label,
        after[cur].parent == before[cur].parent,
        after[cur].blocked == before[cur].blocked,
        after[cur].allowed == before[cur].allowed,
        after[cur].children@ == before[cur].children@.push(new),
        after[before.len() as int].label@ == label,
        after[before.len() as int].parent == cur,
        after[before.len() as int].children@.len() == 0,
        !after[before.len() as int].blocked,
        !after[before.len() as int].allowed,
        forall|x: int|
            0 <= x < before.len() ==> #[trigger] node_path(before, x) != seq![label] + node_path(
                before,
                cur,
            ),
    ensures
        links_ok(after),
        node_path(after, before.len() as int) == seq![label] + node_path(before, cur),
        blocked_names(after) == blocked_names(before),
        allowed_names(after) == allowed_names(before),
{
    let added = before.len() as int;
    assert(same_shape_upto(before, after, added));
    assert forall|x: int| 0 <= x < added implies #[trigger] node_path(after, x) == node_path(
        before,
        x,
    ) by {
        lemma_path_stable(before, after, x);
    }
    assert(node_path(after, added) == seq![label] + node_path(after, cur));
    assert forall|i: int| 0 < i < after.len() implies {
        &&& (#[trigger] after[i]).parent < i
        &&& lists_child(after, after[i].parent as int, i)
    } by {
        if i < added {
            assert(before[i].parent < i);
            let p = before[i].parent as int;
            assert(after[i].parent == p);
            assert(lists_child(before, p, i));
            let m = choose|m: int|
                0 <= m < before[p].children@.len() && #[trigger] before[p].children@[m] == i;
            if p == cur {
                assert(after[p].children@[m] == i);
            } else {
                assert(after[p] == before[p]);
                assert(after[p].children@[m] == i);
            }
        } else {
            assert(after[cur].children@[before[cur].children@.len() as int] == added);
        }
    }
    assert forall|p: int, k: int| 0 <= p < after.len() && 0 <= k < after[p].children@.len() implies {
        let c = #[trigger] after[p].children@[k];
        p < c < after.len() && after[c as int].parent == p
    } by {
        if p == cur {
            if k < before[cur].children@.len() {
                let c = before[cur].children@[k];
                assert(after[cur].children@[k] == c);
                assert(cur < c < before.len() && before[c as int].parent == cur);
                assert(after[c as int] == before[c as int]);
            }
        } else if p < added {
            assert(after[p] == before[p]);
            let c = before[p].children@[k];
            assert(p < c < before.len() && before[c as int].parent == p);
            if c != cur {
                assert(after[c as int] == before[c as int]);
            }
        }
    }
    assert forall|i: int, j: int|
        0 <= i < after.len() && 0 <= j < after.len() && #[trigger] node_path(after, i)
            == #[trigger] node_path(after, j) implies i == j by {
        if i < added && j < added {
            assert(node_path(before, i) == node_path(before, j));
        }
    }
    assert(blocked_names(after) =~= blocked_names(before)) by {
        assert forall|name: Seq<Seq<u8>>| blocked_names(after).contains(name)
            == blocked_names(before).contains(name) by {
            if blocked_names(after).contains(name) {
                let i = choose|i: int|
                    0 <= i < after.len() && after[i].blocked && #[trigger] node_path(after, i)
                        == name;
                assert(before[i].blocked && node_path(before, i) == name);
            }
            if blocked_names(before).contains(name) {
                let i = choose|i: int|
                    0 <= i < before.len() && before[i].blocked && #[trigger] node_path(before, i)
                        == name;
                assert(after[i].blocked && node_path(after, i) == name);
            }
        }
    }
    assert(allowed_names(after) =~= allowed_names(before)) by {
        assert forall|name: Seq<Seq<u8>>| allowed_names(after).contains(name)
            == allowed_names(before).contains(name) by {
            if allowed_names(after).contains(name) {
                let i = choose|i: int|
                    0 <= i < after.len() && after[i].allowed && #[trigger] node_path(after, i)
                        == name;
                assert(before[i].allowed && node_path(before, i) == name);
            }
            if allowed_names(before).contains(name) {
                let i = choose|i: int|
                    0 <= i < before.len() && before[i].allowed && #[trigger] node_path(before, i)
                        == name;
                assert(after[i].allowed && node_path(after, i) == name);
            }
        }
    }
}

/// Changing the marks of one node keeps the tree in order; the blocked
/// names are those marked before, with or without the name of that node as
/// its new mark says, and so for the allowed names.
proof fn lemma_marked(before: Seq<FilterNode>, after: Seq<FilterNode>, at: int)
    requires
        links_ok(before),
        0 <= at < before.len(),
        after.len() == before.len(),
        forall|j: int| 0 <= j < before.len() && j != at ==> #[trigger] after[j] == before[j],
        after[at].label == before[at].label,
        after[at].parent == before[at].parent,
        after[at].children == before[at].children,
    ensures
        links_ok(after),
        node_path(after, at) == node_path(before, at),
        after[at].blocked ==> blocked_names(after) == blocked_names(before).insert(
            node_path(before, at),
        ),
        after[at].blocked == before[at].blocked ==> blocked_names(after) == blocked_names(before),
        after[at].allowed ==> allowed_names(after) == allowed_names(before).insert(
            node_path(before, at),
        ),
        after[at].allowed == before[at].allowed ==> allowed_names(after) == allowed_names(before),
{
    assert(same_shape_upto(before, after, before.len() as int));
    assert forall|x: int| 0 <= x < before.len() implies #[trigger] node_path(after, x)
        == node_path(before, x) by {
        lemma_path_stable(before, after, x);
    }
    assert forall|i: int| 0 < i < after.len() implies {
        &&& (#[trigger] after[i]).parent < i
        &&& lists_child(after, after[i].parent as int, i)
    } by {
        assert(before[i].parent < i);
        let p = before[i].parent as int;
        assert(after[i].parent == p);
        assert(lists_child(before, p, i));
        let m = choose|m: int|
            0 <= m < before[p].children@.len() && #[trigger] before[p].children@[m] == i;
        assert(after[p].children == before[p].children);
        assert(after[p].children@[m] == i);
    }
    assert forall|p: int, k: int| 0 <= p < after.len() && 0 <= k < after[p].children@.len() implies {
        let c = #[trigger] after[p].children@[k];
        p < c < after.len() && after[c as int].parent == p
    } by {
        assert(after[p].children == before[p].children);
        let c = before[p].children@[k];
        assert(p < c < before.len() && before[c as int].parent == p);
        assert(after[c as int].parent == before[c as int].parent);
    }
    assert forall|i: int, j: int|
        0 <= i < after.len() && 0 <= j < after.len() && #[trigger] node_path(after, i)
            == #[trigger] node_path(after, j) implies i == j by {
        assert(node_path(before, i) == node_path(before, j));
    }
    let here = node_path(before, at);
    assert forall|name: Seq<Seq<u8>>| #![auto] blocked_names(after).contains(name) == ((
    after[at].blocked && name == here) || (name != here || after[at].blocked
        == before[at].blocked) && blocked_names(before).contains(name)) by {
        if blocked_names(after).contains(name) {
            let i = choose|i: int|
                0 <= i < after.len() && after[i].blocked && #[trigger] node_path(after, i) == name;
            if i != at {
                assert(before[i].blocked && node_path(before, i) == name);
            }
        }
        if blocked_names(before).contains(name) {
            let i = choose|i: int|
                0 <= i < before.len() && before[i].blocked && #[trigger] node_path(before, i)
                    == name;
            if i != at {
                assert(after[i].blocked && node_path(after, i) == name);
            } else if after[at].blocked {
                assert(after[at].blocked && node_path(after, at) == name);
            }
        }
        if after[at].blocked && name == here {
            assert(after[at].blocked && node_path(after, at) == name);
        }
    }
    if after[at].blocked {
        assert(blocked_names(after) =~= blocked_names(before).insert(here));
    }
    if after[at].blocked == before[at].blocked {
        assert(blocked_names(after) =~= blocked_names(before));
    }
    assert forall|name: Seq<Seq<u8>>| #![auto] allowed_names(after).contains(name) == ((
    after[at].allowed && name == here) || (name != here || after[at].allowed
        == before[at].allowed) && allowed_names(before).contains(name)) by {
        if allowed_names(after).contains(name) {
            let i = choose|i: int|
                0 <= i < after.len() && after[i].allowed && #[trigger] node_path(after, i) == name;
            if i != at {
                assert(before[i].allowed && node_path(before, i) == name);
            }
        }
        if allowed_names(before).contains(name) {
            let i = choose|i: int|
                0 <= i < before.len() && before[i].allowed && #[trigger] node_path(before, i)
                    == name;
            if i != at {
                assert(after[i].allowed && node_path(after, i) == name);
            } else if after[at].allowed {
                assert(after[at].allowed && node_path(after, at) == name);
            }
        }
        if after[at].allowed && name == here {
            assert(after[at].allowed && node_path(after, at) == name);
        }
    }
    if after[at].allowed {
        assert(allowed_names(after) =~= allowed_names(before).insert(here));
    }
    if after[at].allowed == before[at].allowed {
        assert(allowed_names(after) =~= allowed_names(before));
    }
}

impl DomainFilterTree {
    /// The tree is in order.
    pub closed spec fn wf(&self) -> bool {
        links_ok(self.nodes@)
    }

    /// The blocked names.
    pub closed spec fn blocked(&self) -> Set<Seq<Seq<u8>>> {
        blocked_names(self.nodes@)
    }

    /// The explicitly allowed names.
    pub closed spec fn allowed(&self) -> Set<Seq<Seq<u8>>> {
        allowed_names(self.nodes@)
    }

    /// A tree without blocked or allowed names.
    pub fn new() -> (tree: DomainFilterTree)
        ensures
            tree.wf(),
            tree.blocked() == Set::<Seq<Seq<u8>>>::empty(),
            tree.allowed() == Set::<Seq<Seq<u8>>>::empty(),
    {
        let root = FilterNode {
            label: Vec::new(),
            parent: 0,
            children: Vec::new(),
            blocked: false,
            allowed: false,
        };
        let mut nodes: Vec<FilterNode> = Vec::new();
        nodes.push(root);
        let tree = DomainFilterTree { nodes };
        assert(tree.blocked() =~= Set::<Seq<Seq<u8>>>::empty());
        assert(tree.allowed() =~= Set::<Seq<Seq<u8>>>::empty());
        tree
    }

    /// The child of `cur` for `label`, if it has one.
    fn find_child(&self, cur: usize, label: &[u8]) -> (found: Option<usize>)
        requires
            links_ok(self.nodes@),
            cur < self.nodes@.len(),
        ensures
            match found {
                Some(c) => {
                    &&& cur < c < self.nodes@.len()
                    &&& self.nodes@[c as int].parent == cur
                    &&& self.nodes@[c as int].label@ == label@
                },
                None => forall|m: int|
                    0 <= m < self.nodes@[cur as int].children@.len() ==> self.nodes@[(
                    #[trigger] self.nodes@[cur as int].children@[m]) as int].label@ != label@,
            },
    {
        let children = &self.nodes[cur].children;
        let mut m: usize = 0;
        while m < children.len()
            invariant
                links_ok(self.nodes@),
                cur < self.nodes@.len(),
                children == &self.nodes@[cur as int].children,
                m <= children@.len(),
                forall|q: int|
                    0 <= q < m ==> self.nodes@[(#[trigger] children@[q]) as int].label@ != label@,
            decreases children@.len() - m,
        {
            let c = children[m];
            assert(c == self.nodes@[cur as int].children@[m as int]);
            if bytes_equal(self.nodes[c].label.as_slice(), label) {
                return Some(c);
            }
            m = m + 1;
        }
        None
    }

    /// The node that stands for `name`, made with the nodes on the way to
    /// it where the tree did not have them.
    fn locate_or_create(&mut self, name: &DomainName) -> (index: usize)
        requires
            links_ok(old(self).nodes@),
        ensures
            links_ok(final(self).nodes@),
            index < final(self).nodes@.len(),
            node_path(final(self).nodes@, index as int) == name@,
            blocked_names(final(self).nodes@) == blocked_names(old(self).nodes@),
            allowed_names(final(self).nodes@) == allowed_names(old(self).nodes@),
    {
        let count = name.label_count();
        let mut cur: usize = 0;
        let mut k: usize = 0;
        assert(suffix(name@, 0) =~= Seq::<Seq<u8>>::empty());
        while k < count
            invariant
                k <= count == name@.len(),
                links_ok(self.nodes@),
                cur < self.nodes@.len(),
                node_path(self.nodes@, cur as int) == suffix(name@, k as int),
                blocked_names(self.nodes@) == blocked_names(old(self).nodes@),
                allowed_names(self.nodes@) == allowed_names(old(self).nodes@),
            decreases count - k,
        {
            let label = name.label(count - 1 - k);
            assert(suffix(name@, k + 1) =~= seq![label@] + suffix(name@, k as int));
            match self.find_child(cur, label) {
                Some(c) => {
                    cur = c;
                },
                None => {
                    let ghost before = self.nodes@;
                    proof {
                        lemma_absent_below(before, name@, k as int, cur as int);
                        assert forall|x: int| 0 <= x < before.len() implies #[trigger] node_path(
                            before,
                            x,
                        ) != seq![label@] + node_path(before, cur as int) by {
                            assert(node_path(before, x) != suffix(name@, k + 1));
                        }
                    }
                    let added = self.nodes.len();
                    let node = FilterNode {
                        label: copy_bytes(label),
                        parent: cur,
                        children: Vec::new(),
                        blocked: false,
                        allowed: false,
                    };
                    self.nodes.push(node);
                    self.nodes[cur].children.push(added);
                    proof {
                        lemma_grown(before, self.nodes@, cur as int, label@, added);
                    }
                    cur = added;
                },
            }
            k = k + 1;
        }
        assert(suffix(name@, count as int) =~= name@);
        cur
    }

    /// Blocks `name` and with it the names under it.
    pub fn insert_blocked(&mut self, name: &DomainName)
        requires
            old(self).wf(),
        ensures
            final(self).wf(),
            final(self).blocked() == old(self).blocked().insert(name@),
            final(self).allowed() == old(self).allowed(),
    {
        let at = self.locate_or_create(name);
        let ghost before = self.nodes@;
        self.nodes[at].blocked = true;
        proof {
            lemma_marked(before, self.nodes@, at as int);
        }
    }

    /// Allows `name` and with it the names under it.
    pub fn insert_allowed(&mut self, name: &DomainName)
        requires
            old(self).wf(),
        ensures
            final(self).wf(),
            final(self).blocked() == old(self).blocked(),
            final(self).allowed() == old(self).allowed().insert(name@),
    {
        let at = self.locate_or_create(name);
        let ghost before = self.nodes@;
        self.nodes[at].allowed = true;
        proof {
            lemma_marked(before, self.nodes@, at as int);
        }
    }

    /// Whether `name` is blocked: whether its longest blocked ending is
    /// longer than its longest allowed ending.
    pub fn is_blocked(&self, name: &DomainName) -> (blocked: bool)
        requires
            self.wf(),
        ensures
            blocked == blocked_by(self.blocked(), self.allowed(), name@),
    {
        let count = name.label_count();
        let ghost nodes = self.nodes@;
        let ghost all_blocked = blocked_names(nodes);
        let ghost all_allowed = allowed_names(nodes);
        let mut cur: usize = 0;
        let mut k: usize = 0;
        let mut done: bool = false;
        let mut has_block: bool = false;
        let mut block_depth: usize = 0;
        let mut has_allow: bool = false;
        let mut allow_depth: usize = 0;
        assert(suffix(name@, 0) =~= Seq::<Seq<u8>>::empty());
        while !done
            invariant
                nodes == self.nodes@,
                all_blocked == blocked_names(nodes),
                all_allowed == allowed_names(nodes),
                links_ok(nodes),
                k <= count == name@.len(),
                cur < nodes.len(),
                !done ==> node_path(nodes, cur as int) == suffix(name@, k as int),
                deepest_below(
                    all_blocked,
                    name@,
                    if done {
                        count + 1
                    } else {
                        k as int
                    },
                    has_block,
                    block_depth as int,
                ),
                deepest_below(
                    all_allowed,
                    name@,
                    if done {
                        count + 1
                    } else {
                        k as int
                    },
                    has_allow,
                    allow_depth as int,
                ),
            decreases
                    (if done {
                        0
                    } else {
                        count - k + 1
                    }),
        {
            proof {
                lemma_member(nodes, cur as int);
            }
            if self.nodes[cur].blocked {
                has_block = true;
                block_depth = k;
            }
            if self.nodes[cur].allowed {
                has_allow = true;
                allow_depth = k;
            }
            if k == count {
                done = true;
            } else {
                let label = name.label(count - 1 - k);
                match self.find_child(cur, label) {
                    Some(c) => {
                        assert(suffix(name@, k + 1) =~= seq![label@] + suffix(name@, k as int));
                        cur = c;
                        k = k + 1;
                    },
                    None => {
                        proof {
                            lemma_absent_below(nodes, name@, k as int, cur as int);
                            assert forall|j: int| k < j <= count implies !all_blocked.contains(
                                #[trigger] suffix(name@, j),
                            ) && !all_allowed.contains(suffix(name@, j)) by {
                                lemma_not_member(nodes, suffix(name@, j));
                            }
                        }
                        done = true;
                    },
                }
            }
        }
        proof {
            lemma_blocked_by_depths(
                all_blocked,
                all_allowed,
                name@,
                has_block,
                block_depth as int,
                has_allow,
                allow_depth as int,
            );
        }
        has_block && !(has_allow && allow_depth >= block_depth)
    }
}

} // verus!
