//! The layout engine: a level-based placement of a parsed tree.
//!
//! Every root (a node that appears in no child sequence) sits at depth 0;
//! a child sits one level below its parent. Levels are filled left to right
//! in the order children were attached to their parents, with fixed box
//! size and gaps from the [`LayoutConfig`]. A node that a scan from the
//! roots never reaches, or reaches twice, makes the layout fail with
//! [`LayoutError::CyclicTree`].

use vstd::prelude::*;
use vstd::string::*;

use crate::parser::{tree_wf, Node, Tree};
use crate::text::str_eq;

verus! {

/// Box size and spacing for the level-based layout, in canvas units.
#[derive(Clone, Copy, Debug, PartialEq, Eq, Structural)]
pub struct LayoutConfig {
    pub box_width: i64,
    pub box_height: i64,
    pub h_gap: i64,
    pub v_gap: i64,
}

impl Default for LayoutConfig {
    /// The default layout: 100-unit boxes with 60-unit gaps.
    fn default() -> (cfg: LayoutConfig)
        ensures
            cfg == (LayoutConfig {
                box_width: 100i64,
                box_height: 100i64,
                h_gap: 60i64,
                v_gap: 60i64,
            }),
    {
        LayoutConfig { box_width: 100, box_height: 100, h_gap: 60, v_gap: 60 }
    }
}

/// A node with its computed position and size; never mutated after layout.
#[derive(Clone, Debug, PartialEq)]
pub struct PositionedNode {
    pub name: String,
    pub x: i64,
    pub y: i64,
    pub width: i64,
    pub height: i64,
    pub depth: usize,
}

/// Why layout failed: a scan from the roots either never reaches the named
/// node (it hangs on or under a parent cycle) or reaches it twice.
#[derive(Clone, Debug, PartialEq)]
pub enum LayoutError {
    CyclicTree(String),
}

/// Bound on configuration values and node count that keeps every computed
/// coordinate small enough for exact connector arithmetic.
pub const LAYOUT_LIMIT: i64 = 0x4000;

/// The configuration is non-negative and within the layout bound.
pub open spec fn config_ok(cfg: LayoutConfig) -> bool {
    &&& 0 <= cfg.box_width <= LAYOUT_LIMIT
    &&& 0 <= cfg.box_height <= LAYOUT_LIMIT
    &&& 0 <= cfg.h_gap <= LAYOUT_LIMIT
    &&& 0 <= cfg.v_gap <= LAYOUT_LIMIT
}

/// Some node's child sequence holds this name: the named node has a parent.
pub open spec fn has_parent_in(nodes: Seq<Node>, name: Seq<char>) -> bool {
    exists|i: int, c: int|
        0 <= i < nodes.len() && 0 <= c < nodes[i].children@.len() && nodes[i].children@[c]@
            == name
}

/// Some visited node bears this name.
pub open spec fn visited_name(nodes: Seq<Node>, vis: Seq<bool>, name: Seq<char>) -> bool {
    exists|a: int|
        0 <= a < nodes.len() && 0 <= a < vis.len() && vis[a] && nodes[a].name@ == name
}

/// Some node of the tree bears this name.
pub open spec fn names_node(nodes: Seq<Node>, name: Seq<char>) -> bool {
    exists|i: int| 0 <= i < nodes.len() && nodes[i].name@ == name
}

/// Some node listed in this level bears this name.
pub open spec fn level_has_name(nodes: Seq<Node>, level: Seq<usize>, name: Seq<char>) -> bool {
    exists|j: int|
        0 <= j < level.len() && level[j] < nodes.len() && nodes[level[j] as int].name@ == name
}

/// Some row of the layout bears this name.
pub open spec fn placed_name(out: Seq<PositionedNode>, name: Seq<char>) -> bool {
    exists|k: int| 0 <= k < out.len() && out[k].name@ == name
}

/// The node index `a` is listed in this level.
pub open spec fn in_level(level: Seq<usize>, a: int) -> bool {
    exists|j: int| 0 <= j < level.len() && level[j] == a
}

/// The node at index `i` hangs under a root within `fuel` parent steps: its
/// name appears in no child sequence, or some node whose child sequence
/// names it is itself rooted one step lower.
pub open spec fn rooted(nodes: Seq<Node>, i: int, fuel: int) -> bool
    decreases fuel,
{
    if !has_parent_in(nodes, nodes[i].name@) {
        true
    } else if fuel <= 0 {
        false
    } else {
        exists|j: int, c: int|
            0 <= j < nodes.len() && 0 <= c < nodes[j].children@.len() && nodes[j].children@[c]@
                == nodes[i].name@ && rooted(nodes, j, fuel - 1)
    }
}

proof fn lemma_rooted_mono(nodes: Seq<Node>, i: int, f: int, g: int)
    requires
        rooted(nodes, i, f),
        f <= g,
    ensures
        rooted(nodes, i, g),
    decreases f,
{
    if !has_parent_in(nodes, nodes[i].name@) {
    } else {
        let (j, c) = choose|j: int, c: int|
            0 <= j < nodes.len() && 0 <= c < nodes[j].children@.len() && nodes[j].children@[c]@
                == nodes[i].name@ && rooted(nodes, j, f - 1);
        lemma_rooted_mono(nodes, j, f - 1, g - 1);
        assert(0 <= j < nodes.len() && 0 <= c < nodes[j].children@.len()
            && nodes[j].children@[c]@ == nodes[i].name@ && rooted(nodes, j, g - 1));
    }
}

/// The number of set flags.
pub open spec fn count_true(s: Seq<bool>) -> int
    decreases s.len(),
{
    if s.len() == 0 {
        0
    } else {
        (if s[0] {
            1int
        } else {
            0int
        }) + count_true(s.drop_first())
    }
}

proof fn lemma_count_true_update(s: Seq<bool>, i: int)
    requires
        0 <= i < s.len(),
        !s[i],
    ensures
        count_true(s.update(i, true)) == count_true(s) + 1,
    decreases s.len(),
{
    let upd = s.update(i, true);
    if i == 0 {
        assert(upd.drop_first() =~= s.drop_first());
    } else {
        assert(upd[0] == s[0]);
        assert(upd.drop_first() =~= s.drop_first().update(i - 1, true));
        lemma_count_true_update(s.drop_first(), i - 1);
    }
}

proof fn lemma_count_true_bound(s: Seq<bool>)
    ensures
        0 <= count_true(s) <= s.len(),
    decreases s.len(),
{
    if s.len() > 0 {
        lemma_count_true_bound(s.drop_first());
    }
}

proof fn lemma_count_push(s: Seq<bool>, b: bool)
    ensures
        count_true(s.push(b)) == count_true(s) + (if b {
            1int
        } else {
            0int
        }),
    decreases s.len(),
{
    let p = s.push(b);
    assert(p.len() == s.len() + 1);
    if s.len() == 0 {
        assert(p[0] == b);
        assert(p.drop_first() =~= Seq::<bool>::empty());
        assert(count_true(Seq::<bool>::empty()) == 0);
    } else {
        assert(p[0] == s[0]);
        assert(p.drop_first() =~= s.drop_first().push(b));
        lemma_count_push(s.drop_first(), b);
    }
}

proof fn lemma_count_true_all(s: Seq<bool>)
    requires
        forall|a: int| 0 <= a < s.len() ==> s[a],
    ensures
        count_true(s) == s.len(),
    decreases s.len(),
{
    if s.len() > 0 {
        assert(forall|a: int| 0 <= a < s.drop_first().len() ==> s.drop_first()[a]);
        lemma_count_true_all(s.drop_first());
    }
}

/// The well-formedness of the tree, restated over the executable node
/// vector: names unique, every child entry registered.
proof fn lemma_wf_exec(tree: Tree)
    requires
        tree_wf(tree@),
    ensures
        forall|i: int, j: int|
            #![trigger tree.nodes@[i].name, tree.nodes@[j].name]
            0 <= i < j < tree.nodes@.len() ==> tree.nodes@[i].name@ != tree.nodes@[j].name@,
        forall|i: int, c: int|
            #![trigger tree.nodes@[i].children@[c]]
            0 <= i < tree.nodes@.len() && 0 <= c < tree.nodes@[i].children@.len() ==> exists|
                k: int,
            | 0 <= k < tree.nodes@.len() && tree.nodes@[k].name@ == tree.nodes@[i].children@[c]@,
{
    assert forall|i: int, j: int|
        #![trigger tree.nodes@[i].name, tree.nodes@[j].name]
        0 <= i < j < tree.nodes@.len() implies tree.nodes@[i].name@
        != tree.nodes@[j].name@ by {
        assert(tree@.nodes[i].name == tree.nodes@[i].name@);
        assert(tree@.nodes[j].name == tree.nodes@[j].name@);
    }
    assert forall|i: int, c: int|
        #![trigger tree.nodes@[i].children@[c]]
        0 <= i < tree.nodes@.len() && 0 <= c < tree.nodes@[i].children@.len() implies exists|
        k: int,
    | 0 <= k < tree.nodes@.len() && tree.nodes@[k].name@ == tree.nodes@[i].children@[c]@ by {
        assert(tree@.nodes[i].children[c] == tree.nodes@[i].children@[c]@);
        assert(crate::parser::has_node_named(tree@.nodes, tree@.nodes[i].children[c]));
        let k = choose|k: int|
            0 <= k < tree@.nodes.len() && tree@.nodes[k].name == tree@.nodes[i].children[c];
        assert(tree.nodes@[k].name@ == tree.nodes@[i].children@[c]@);
    }
}

/// First node with this name, or nothing.
fn lookup_name(nodes: &Vec<Node>, name: &str) -> (r: Option<usize>)
    ensures
        match r {
            Some(k) => k < nodes@.len() && nodes@[k as int].name@ == name@,
            None => forall|i: int| 0 <= i < nodes@.len() ==> nodes@[i].name@ != name@,
        },
{
    let n = nodes.len();
    let mut j: usize = 0;
    while j < n
        invariant
            j <= n == nodes@.len(),
            forall|i: int| 0 <= i < j ==> nodes@[i].name@ != name@,
        decreases n - j,
    {
        if str_eq(nodes[j].name.as_str(), name) {
            return Some(j);
        }
        j = j + 1;
    }
    None
}

/// Whether any node's child sequence holds this name.
fn has_parent_exec(nodes: &Vec<Node>, name: &str) -> (r: bool)
    ensures
        r == has_parent_in(nodes@, name@),
{
    let n = nodes.len();
    let mut i: usize = 0;
    while i < n
        invariant
            i <= n == nodes@.len(),
            forall|a: int, c: int|
                0 <= a < i && 0 <= c < nodes@[a].children@.len() ==> nodes@[a].children@[c]@
                    != name@,
        decreases n - i,
    {
        let node = &nodes[i];
        let m = node.children.len();
        let mut c: usize = 0;
        while c < m
            invariant
                c <= m == nodes@[i as int].children@.len(),
                i < n == nodes@.len(),
                node == &nodes@[i as int],
                forall|cc: int| 0 <= cc < c ==> nodes@[i as int].children@[cc]@ != name@,
            decreases m - c,
        {
            if str_eq(node.children[c].as_str(), name) {
                return true;
            }
            c = c + 1;
        }
        i = i + 1;
    }
    false
}

/// Everything the layout promises of its rows. Each entry keeps the
/// configured box size; its vertical position follows its depth exactly;
/// every child sits exactly one depth below its parent; entries at one depth
/// never overlap horizontally; names are unique and come from the tree.
pub open spec fn layout_ok(out: Seq<PositionedNode>, nodes: Seq<Node>, cfg: LayoutConfig) -> bool {
    &&& out.len() == nodes.len()
    &&& forall|k: int|
        0 <= k < out.len() ==> (#[trigger] out[k]).width == cfg.box_width && out[k].height
            == cfg.box_height
    &&& forall|k: int|
        0 <= k < out.len() ==> (#[trigger] out[k]).y == (out[k].depth as int) * (cfg.box_height
            + cfg.v_gap) && (out[k].depth as int) < nodes.len() && 0 <= out[k].x
            <= 0x2000_0000i64 && 0 <= out[k].y <= 0x2000_0000i64
    &&& forall|k1: int, k2: int|
        #![trigger out[k1].name, out[k2].name]
        0 <= k1 < k2 < out.len() ==> out[k1].name@ != out[k2].name@
    &&& forall|k: int|
        0 <= k < out.len() ==> names_node(nodes, (#[trigger] out[k]).name@)
    &&& forall|k: int, i: int, c: int|
        #![trigger out[k].name, nodes[i].children@[c]]
        0 <= k < out.len() && 0 <= i < nodes.len() && nodes[i].name@ == out[k].name@ && 0 <= c
            < nodes[i].children@.len() ==> exists|k2: int|
            0 <= k2 < out.len() && (#[trigger] out[k2]).name@ == nodes[i].children@[c]@
                && out[k2].depth == out[k].depth + 1
    &&& forall|k1: int, k2: int|
        #![trigger out[k1].x, out[k2].x]
        0 <= k1 < out.len() && 0 <= k2 < out.len() && k1 != k2 && out[k1].depth == out[k2].depth
            ==> (out[k1].x + cfg.box_width <= out[k2].x || out[k2].x + cfg.box_width <= out[k1].x)
    &&& forall|k: int|
        0 <= k < out.len() ==> ((#[trigger] out[k]).depth == 0 <==> !has_parent_in(
            nodes,
            out[k].name@,
        ))
    &&& forall|i: int|
        0 <= i < nodes.len() && !has_parent_in(nodes, #[trigger] nodes[i].name@) ==> placed_name(
            out,
            nodes[i].name@,
        )
}

/// Push one positioned row: the level's nodes left to right at the given
/// depth, each box `step_x` apart.
fn place_level(
    out: &mut Vec<PositionedNode>,
    tree: &Tree,
    level: &Vec<usize>,
    depth: usize,
    y: i64,
    cfg: &LayoutConfig,
    step_x: i64,
) -> (nothing: ())
    requires
        config_ok(*cfg),
        step_x == cfg.box_width + cfg.h_gap,
        level@.len() <= LAYOUT_LIMIT,
        0 <= y <= 0x2000_0000i64,
        forall|j: int| 0 <= j < level@.len() ==> (#[trigger] level@[j]) < tree.nodes@.len(),
    ensures
        final(out)@.len() == old(out)@.len() + level@.len(),
        forall|k: int| 0 <= k < old(out)@.len() ==> #[trigger] final(out)@[k] == old(out)@[k],
        forall|u: int|
            0 <= u < level@.len() ==> (#[trigger] final(out)@[old(out)@.len() + u]).name@
                == tree.nodes@[level@[u] as int].name@ && final(out)@[old(out)@.len() + u].depth
                == depth && final(out)@[old(out)@.len() + u].y == y && final(out)@[old(out)@.len()
                + u].x == u * step_x && final(out)@[old(out)@.len() + u].width == cfg.box_width
                && final(out)@[old(out)@.len() + u].height == cfg.box_height
                && 0 <= final(out)@[old(out)@.len() + u].x <= 0x2000_0000i64,
{
    let m = level.len();
    let mut t: usize = 0;
    while t < m
        invariant
            t <= m == level@.len() <= LAYOUT_LIMIT,
            config_ok(*cfg),
            step_x == cfg.box_width + cfg.h_gap,
            0 <= y <= 0x2000_0000i64,
            forall|j: int| 0 <= j < level@.len() ==> (#[trigger] level@[j]) < tree.nodes@.len(),
            out@.len() == old(out)@.len() + t,
            forall|k: int| 0 <= k < old(out)@.len() ==> #[trigger] out@[k] == old(out)@[k],
            forall|u: int|
                0 <= u < t ==> (#[trigger] out@[old(out)@.len() + u]).name@
                    == tree.nodes@[level@[u] as int].name@ && out@[old(out)@.len() + u].depth
                    == depth && out@[old(out)@.len() + u].y == y && out@[old(out)@.len() + u].x
                    == u * step_x && out@[old(out)@.len() + u].width == cfg.box_width && out@[old(out)@.len() + u].height == cfg.box_height && 0 <= out@[old(out)@.len() + u].x
                    <= 0x2000_0000i64,
        decreases m - t,
    {
        proof {
            assert((t as int) * (step_x as int) <= 0x2000_0000int && (t as int) * (step_x as int)
                >= 0) by (nonlinear_arith)
                requires
                    0 <= t < 0x4000,
                    0 <= step_x <= 0x8000,
            ;
        }
        let x = (t as i64) * step_x;
        let idx = level[t];
        out.push(
            PositionedNode {
                name: tree.nodes[idx].name.clone(),
                x,
                y,
                width: cfg.box_width,
                height: cfg.box_height,
                depth,
            },
        );
        t = t + 1;
    }
}

/// Mark and enqueue the children of one node for the next level; fail if a
/// child was already reached once.
fn enqueue_children(
    tree: &Tree,
    idx: usize,
    visited: &mut Vec<bool>,
    next: &mut Vec<usize>,
    placed: Ghost<Seq<PositionedNode>>,
    lvl: Ghost<int>,
) -> (r: Result<(), LayoutError>)
    requires
        tree_wf(tree@),
        idx < tree.nodes@.len(),
        rooted(tree.nodes@, idx as int, lvl@),
        0 <= lvl@ && lvl@ + 1 <= tree.nodes@.len(),
        forall|a: int|
            0 <= a < tree.nodes@.len() && old(visited)@[a] ==> rooted(
                tree.nodes@,
                a,
                tree.nodes@.len() as int,
            ),
        old(visited)@.len() == tree.nodes@.len(),
        forall|j: int| 0 <= j < old(next)@.len() ==> (#[trigger] old(next)@[j])
            < tree.nodes@.len(),
        forall|j: int|
            0 <= j < old(next)@.len() ==> old(visited)@[(#[trigger] old(next)@[j]) as int],
        forall|j1: int, j2: int|
            0 <= j1 < j2 < old(next)@.len() ==> #[trigger] old(next)@[j1] != #[trigger] old(next)@[j2],
        forall|j: int|
            0 <= j < old(next)@.len() ==> rooted(
                tree.nodes@,
                (#[trigger] old(next)@[j]) as int,
                lvl@ + 1,
            ) && has_parent_in(tree.nodes@, tree.nodes@[old(next)@[j] as int].name@),
        forall|k: int|
            0 <= k < placed@.len() ==> visited_name(
                tree.nodes@,
                old(visited)@,
                (#[trigger] placed@[k]).name@,
            ),
        forall|j: int, k: int|
            0 <= j < old(next)@.len() && 0 <= k < placed@.len() ==> (#[trigger] placed@[k]).name@
                != tree.nodes@[(#[trigger] old(next)@[j]) as int].name@,
    ensures
        match r {
            Ok(_) => {
                let n = tree.nodes@.len();
                &&& final(visited)@.len() == n
                &&& final(next)@.len() >= old(next)@.len()
                &&& forall|j: int|
                    0 <= j < old(next)@.len() ==> #[trigger] final(next)@[j] == old(next)@[j]
                &&& count_true(final(visited)@) - count_true(old(visited)@) == final(next)@.len()
                    - old(next)@.len()
                &&& forall|a: int|
                    0 <= a < n && old(visited)@[a] ==> #[trigger] final(visited)@[a]
                &&& forall|j: int| 0 <= j < final(next)@.len() ==> (#[trigger] final(next)@[j])
                    < n
                &&& forall|j: int|
                    0 <= j < final(next)@.len() ==> final(visited)@[(#[trigger] final(next)@[j]) as int]
                &&& forall|j1: int, j2: int|
                    0 <= j1 < j2 < final(next)@.len() ==> #[trigger] final(next)@[j1]
                        != #[trigger] final(next)@[j2]
                &&& forall|j: int, k: int|
                    0 <= j < final(next)@.len() && 0 <= k < placed@.len() ==> (
                    #[trigger] placed@[k]).name@ != tree.nodes@[(#[trigger] final(next)@[j]) as int].name@
                &&& forall|c: int|
                    #![trigger tree.nodes@[idx as int].children@[c]]
                    0 <= c < tree.nodes@[idx as int].children@.len() ==> level_has_name(
                        tree.nodes@,
                        final(next)@,
                        tree.nodes@[idx as int].children@[c]@,
                    )
                &&& forall|a: int|
                    0 <= a < n && final(visited)@[a] ==> rooted(tree.nodes@, a, n as int)
                &&& forall|j: int|
                    0 <= j < final(next)@.len() ==> rooted(
                        tree.nodes@,
                        (#[trigger] final(next)@[j]) as int,
                        lvl@ + 1,
                    ) && has_parent_in(
                        tree.nodes@,
                        tree.nodes@[final(next)@[j] as int].name@,
                    )
            },
            Err(e) => e matches LayoutError::CyclicTree(name) && (exists|i: int|
                0 <= i < tree.nodes@.len() && tree.nodes@[i].name@ == name@) && has_parent_in(
                tree.nodes@,
                name@,
            ),
        },
{
    proof {
        lemma_wf_exec(*tree);
    }
    let ghost n = tree.nodes@.len();
    let node_children_len = tree.nodes[idx].children.len();
    let mut c: usize = 0;
    while c < node_children_len
        invariant
            c <= node_children_len == tree.nodes@[idx as int].children@.len(),
            idx < tree.nodes@.len() == n,
            tree_wf(tree@),
            visited@.len() == n,
            forall|a: int, b: int|
                #![trigger tree.nodes@[a].name, tree.nodes@[b].name]
                0 <= a < b < n ==> tree.nodes@[a].name@ != tree.nodes@[b].name@,
            forall|a: int, cc: int|
                #![trigger tree.nodes@[a].children@[cc]]
                0 <= a < n && 0 <= cc < tree.nodes@[a].children@.len() ==> exists|k: int|
                    0 <= k < n && tree.nodes@[k].name@ == tree.nodes@[a].children@[cc]@,
            next@.len() >= old(next)@.len(),
            forall|j: int| 0 <= j < old(next)@.len() ==> #[trigger] next@[j] == old(next)@[j],
            count_true(visited@) - count_true(old(visited)@) == next@.len() - old(next)@.len(),
            forall|a: int| 0 <= a < n && old(visited)@[a] ==> #[trigger] visited@[a],
            forall|j: int| 0 <= j < next@.len() ==> (#[trigger] next@[j]) < n,
            forall|j: int| 0 <= j < next@.len() ==> visited@[(#[trigger] next@[j]) as int],
            forall|j1: int, j2: int|
                0 <= j1 < j2 < next@.len() ==> #[trigger] next@[j1] != #[trigger] next@[j2],
            forall|k: int|
                0 <= k < placed@.len() ==> visited_name(
                    tree.nodes@,
                    old(visited)@,
                    (#[trigger] placed@[k]).name@,
                ),
            forall|j: int, k: int|
                0 <= j < next@.len() && 0 <= k < placed@.len() ==> (#[trigger] placed@[k]).name@
                    != tree.nodes@[(#[trigger] next@[j]) as int].name@,
            forall|cc: int|
                #![trigger tree.nodes@[idx as int].children@[cc]]
                0 <= cc < c ==> level_has_name(
                    tree.nodes@,
                    next@,
                    tree.nodes@[idx as int].children@[cc]@,
                ),
            rooted(tree.nodes@, idx as int, lvl@),
            0 <= lvl@ && lvl@ + 1 <= n,
            forall|j: int|
                0 <= j < next@.len() ==> rooted(
                    tree.nodes@,
                    (#[trigger] next@[j]) as int,
                    lvl@ + 1,
                ) && has_parent_in(tree.nodes@, tree.nodes@[next@[j] as int].name@),
            forall|a: int|
                0 <= a < n && visited@[a] ==> rooted(tree.nodes@, a, n as int),
        decreases node_children_len - c,
    {
        let cname = &tree.nodes[idx].children[c];
        match lookup_name(&tree.nodes, cname.as_str()) {
            None => {
                // unreachable: the tree is well-formed, every child entry
                // names a node
                proof {
                    let k = choose|k: int|
                        0 <= k < n && tree.nodes@[k].name@ == tree.nodes@[idx as int].children@[
                            c as int
                        ]@;
                    assert(tree.nodes@[k].name@ != cname@);
                    assert(false);
                }
                return Err(LayoutError::CyclicTree(cname.clone()));
            },
            Some(ci) => {
                if visited[ci] {
                    // the scan reached this node twice
                    proof {
                        assert(has_parent_in(tree.nodes@, cname@)) by {
                            assert(tree.nodes@[idx as int].children@[c as int]@ == cname@);
                        }
                    }
                    return Err(LayoutError::CyclicTree(cname.clone()));
                }
                proof {
                    // an unvisited node cannot already be placed: placed
                    // names belong to visited nodes and names are unique
                    assert forall|k: int| 0 <= k < placed@.len() implies (
                    #[trigger] placed@[k]).name@ != tree.nodes@[ci as int].name@ by {
                        let a = choose|a: int|
                            0 <= a < tree.nodes@.len() && 0 <= a < old(visited)@.len() && old(visited)@[a] && tree.nodes@[a].name@ == placed@[k].name@;
                        if tree.nodes@[ci as int].name@ == placed@[k].name@ {
                            assert(visited@[a]);
                            if a < ci as int {
                                assert(tree.nodes@[a].name@ != tree.nodes@[ci as int].name@);
                            } else if a > ci as int {
                                assert(tree.nodes@[ci as int].name@ != tree.nodes@[a].name@);
                            }
                            assert(a == ci as int);
                            assert(false);
                        }
                    }
                }
                let ghost prev = visited@;
                let ghost nextprev = next@;
                next.push(ci);
                visited[ci] = true;
                proof {
                    lemma_count_true_update(prev, ci as int);
                    assert(next@[next@.len() - 1] == ci);
                    assert(tree.nodes@[ci as int].name@ == tree.nodes@[idx as int].children@[
                        c as int
                    ]@);
                    assert(has_parent_in(tree.nodes@, tree.nodes@[ci as int].name@)) by {
                        assert(tree.nodes@[idx as int].children@[c as int]@
                            == tree.nodes@[ci as int].name@);
                    }
                    assert(rooted(tree.nodes@, ci as int, lvl@ + 1)) by {
                        assert(0 <= idx < tree.nodes@.len() && 0 <= c
                            < tree.nodes@[idx as int].children@.len()
                            && tree.nodes@[idx as int].children@[c as int]@
                            == tree.nodes@[ci as int].name@ && rooted(
                            tree.nodes@,
                            idx as int,
                            lvl@ + 1 - 1,
                        ));
                    }
                    lemma_rooted_mono(tree.nodes@, ci as int, lvl@ + 1, n as int);
                    assert forall|cc: int|
                        #![trigger tree.nodes@[idx as int].children@[cc]]
                        0 <= cc < c + 1 implies level_has_name(
                        tree.nodes@,
                        next@,
                        tree.nodes@[idx as int].children@[cc]@,
                    ) by {
                        if cc < c {
                            let j = choose|j: int|
                                0 <= j < nextprev.len() && nextprev[j] < tree.nodes@.len()
                                    && tree.nodes@[nextprev[j] as int].name@
                                    == tree.nodes@[idx as int].children@[cc]@;
                            assert(next@[j] == nextprev[j]);
                        } else {
                            assert(next@[next@.len() - 1] == ci);
                        }
                    }
                }
            },
        }
        c = c + 1;
    }
    Ok(())
}

/// Collect the roots — the nodes named in no child sequence — in node
/// order, marking each visited.
fn collect_roots(tree: &Tree, visited: &mut Vec<bool>) -> (frontier: Vec<usize>)
    requires
        old(visited)@.len() == tree.nodes@.len(),
        forall|a: int| 0 <= a < old(visited)@.len() ==> !old(visited)@[a],
        count_true(old(visited)@) == 0,
    ensures
        final(visited)@.len() == tree.nodes@.len(),
        count_true(final(visited)@) == frontier@.len(),
        forall|j: int| 0 <= j < frontier@.len() ==> (#[trigger] frontier@[j])
            < tree.nodes@.len(),
        forall|j: int|
            0 <= j < frontier@.len() ==> final(visited)@[(#[trigger] frontier@[j]) as int],
        forall|j1: int, j2: int|
            0 <= j1 < j2 < frontier@.len() ==> #[trigger] frontier@[j1]
                != #[trigger] frontier@[j2],
        forall|j: int|
            0 <= j < frontier@.len() ==> !has_parent_in(
                tree.nodes@,
                tree.nodes@[(#[trigger] frontier@[j]) as int].name@,
            ),
        forall|a: int|
            0 <= a < tree.nodes@.len() && !has_parent_in(
                tree.nodes@,
                #[trigger] tree.nodes@[a].name@,
            ) ==> final(visited)@[a] && in_level(frontier@, a),
        forall|a: int|
            0 <= a < tree.nodes@.len() && #[trigger] final(visited)@[a] ==> !has_parent_in(
                tree.nodes@,
                tree.nodes@[a].name@,
            ),
{
    let n = tree.nodes.len();
    let mut frontier: Vec<usize> = Vec::new();
    let mut i: usize = 0;
    while i < n
        invariant
            i <= n == tree.nodes@.len(),
            visited@.len() == n,
            count_true(visited@) == frontier@.len(),
            forall|j: int| 0 <= j < frontier@.len() ==> (#[trigger] frontier@[j]) < i,
            forall|j: int|
                0 <= j < frontier@.len() ==> visited@[(#[trigger] frontier@[j]) as int],
            forall|a: int| i <= a < n ==> !visited@[a],
            forall|j1: int, j2: int|
                0 <= j1 < j2 < frontier@.len() ==> #[trigger] frontier@[j1]
                    != #[trigger] frontier@[j2],
            forall|j: int|
                0 <= j < frontier@.len() ==> !has_parent_in(
                    tree.nodes@,
                    tree.nodes@[(#[trigger] frontier@[j]) as int].name@,
                ),
            forall|a: int|
                0 <= a < i && !has_parent_in(tree.nodes@, #[trigger] tree.nodes@[a].name@)
                    ==> visited@[a] && in_level(frontier@, a),
            forall|a: int|
                0 <= a < n && #[trigger] visited@[a] ==> !has_parent_in(
                    tree.nodes@,
                    tree.nodes@[a].name@,
                ),
        decreases n - i,
    {
        let is_root = !has_parent_exec(&tree.nodes, tree.nodes[i].name.as_str());
        if is_root {
            let ghost prev = visited@;
            let ghost prevf = frontier@;
            frontier.push(i);
            visited[i] = true;
            proof {
                lemma_count_true_update(prev, i as int);
                assert(frontier@[frontier@.len() - 1] == i);
                assert forall|a: int|
                    0 <= a < i + 1 && !has_parent_in(
                        tree.nodes@,
                        #[trigger] tree.nodes@[a].name@,
                    ) implies visited@[a] && in_level(frontier@, a) by {
                    if a < i {
                        let j = choose|j: int| 0 <= j < prevf.len() && prevf[j] == a;
                        assert(frontier@[j] == prevf[j]);
                        assert(frontier@[j] == a);
                    } else {
                        assert(frontier@[frontier@.len() - 1] == a);
                    }
                }
            }
        }
        i = i + 1;
    }
    frontier
}

/// After one level is placed: the new rows carry visited names, all names
/// stay unique, the geometry and root clauses hold of every row, rows of one
/// depth do not overlap, and every root is placed.
#[verifier::rlimit(100)]
proof fn lemma_level_placed(
    tree: Tree,
    cfg: LayoutConfig,
    out0: Seq<PositionedNode>,
    out: Seq<PositionedNode>,
    front0: Seq<usize>,
    visited: Seq<bool>,
    depth: usize,
    y: i64,
    step_x: i64,
    step_y: i64,
)
    requires
        tree.nodes@.len() <= LAYOUT_LIMIT,
        visited.len() == tree.nodes@.len(),
        config_ok(cfg),
        step_x == cfg.box_width + cfg.h_gap,
        step_y == cfg.box_height + cfg.v_gap,
        y == (depth as int) * step_y,
        0 <= y <= 0x2000_0000i64,
        depth <= out0.len(),
        front0.len() > 0,
        forall|a: int, b: int|
            #![trigger tree.nodes@[a].name, tree.nodes@[b].name]
            0 <= a < b < tree.nodes@.len() ==> tree.nodes@[a].name@ != tree.nodes@[b].name@,
        forall|j: int| 0 <= j < front0.len() ==> (#[trigger] front0[j]) < tree.nodes@.len(),
        forall|j: int| 0 <= j < front0.len() ==> visited[(#[trigger] front0[j]) as int],
        forall|j1: int, j2: int|
            0 <= j1 < j2 < front0.len() ==> #[trigger] front0[j1] != #[trigger] front0[j2],
        forall|j: int, k: int|
            0 <= j < front0.len() && 0 <= k < out0.len() ==> (#[trigger] out0[k]).name@
                != tree.nodes@[(#[trigger] front0[j]) as int].name@,
        forall|k: int|
            0 <= k < out0.len() ==> visited_name(tree.nodes@, visited, (#[trigger] out0[k]).name@),
        forall|k1: int, k2: int|
            #![trigger out0[k1].name, out0[k2].name]
            0 <= k1 < k2 < out0.len() ==> out0[k1].name@ != out0[k2].name@,
        forall|k: int|
            0 <= k < out0.len() ==> (#[trigger] out0[k]).width == cfg.box_width && out0[k].height
                == cfg.box_height,
        forall|k: int|
            0 <= k < out0.len() ==> (#[trigger] out0[k]).depth < depth && out0[k].y == (
            out0[k].depth as int) * step_y && 0 <= out0[k].x <= 0x2000_0000i64 && 0 <= out0[k].y
                <= 0x2000_0000i64,
        forall|k1: int, k2: int|
            #![trigger out0[k1].x, out0[k2].x]
            0 <= k1 < out0.len() && 0 <= k2 < out0.len() && k1 != k2 && out0[k1].depth
                == out0[k2].depth ==> (out0[k1].x + cfg.box_width <= out0[k2].x || out0[k2].x
                + cfg.box_width <= out0[k1].x),
        forall|j: int|
            0 <= j < front0.len() && depth == 0 ==> !has_parent_in(
                tree.nodes@,
                tree.nodes@[(#[trigger] front0[j]) as int].name@,
            ),
        forall|j: int|
            0 <= j < front0.len() && depth > 0 ==> has_parent_in(
                tree.nodes@,
                tree.nodes@[(#[trigger] front0[j]) as int].name@,
            ),
        forall|k: int|
            0 <= k < out0.len() ==> ((#[trigger] out0[k]).depth == 0 <==> !has_parent_in(
                tree.nodes@,
                out0[k].name@,
            )),
        forall|a: int|
            0 <= a < tree.nodes@.len() && !has_parent_in(
                tree.nodes@,
                #[trigger] tree.nodes@[a].name@,
            ) ==> placed_name(out0, tree.nodes@[a].name@) || (depth == 0 && in_level(front0, a)),
        // what placing the level produced
        out.len() == out0.len() + front0.len(),
        forall|k: int| 0 <= k < out0.len() ==> #[trigger] out[k] == out0[k],
        forall|u: int|
            0 <= u < front0.len() ==> (#[trigger] out[out0.len() + u]).name@
                == tree.nodes@[front0[u] as int].name@ && out[out0.len() + u].depth == depth
                && out[out0.len() + u].y == y && out[out0.len() + u].x == u * step_x && out[out0.len()
                + u].width == cfg.box_width && out[out0.len() + u].height == cfg.box_height && 0
                <= out[out0.len() + u].x <= 0x2000_0000i64,
    ensures
        forall|k: int|
            0 <= k < out.len() ==> visited_name(tree.nodes@, visited, (#[trigger] out[k]).name@),
        forall|k1: int, k2: int|
            #![trigger out[k1].name, out[k2].name]
            0 <= k1 < k2 < out.len() ==> out[k1].name@ != out[k2].name@,
        forall|k: int|
            0 <= k < out.len() ==> (#[trigger] out[k]).width == cfg.box_width && out[k].height
                == cfg.box_height,
        forall|k: int|
            0 <= k < out.len() ==> (#[trigger] out[k]).depth <= depth && out[k].y == (
            out[k].depth as int) * step_y && 0 <= out[k].x <= 0x2000_0000i64 && 0 <= out[k].y
                <= 0x2000_0000i64,
        forall|k1: int, k2: int|
            #![trigger out[k1].x, out[k2].x]
            0 <= k1 < out.len() && 0 <= k2 < out.len() && k1 != k2 && out[k1].depth
                == out[k2].depth ==> (out[k1].x + cfg.box_width <= out[k2].x || out[k2].x
                + cfg.box_width <= out[k1].x),
        forall|k: int|
            0 <= k < out.len() ==> ((#[trigger] out[k]).depth == 0 <==> !has_parent_in(
                tree.nodes@,
                out[k].name@,
            )),
        forall|a: int|
            0 <= a < tree.nodes@.len() && !has_parent_in(
                tree.nodes@,
                #[trigger] tree.nodes@[a].name@,
            ) ==> placed_name(out, tree.nodes@[a].name@),
{
    // the new row: names from the frontier, hence visited, distinct
    // from each other and from everything placed before
    assert forall|k: int| 0 <= k < out.len() implies visited_name(
        tree.nodes@,
        visited,
        (#[trigger] out[k]).name@,
    ) by {
        if k < out0.len() {
            assert(out[k] == out0[k]);
        } else {
            let u = k - out0.len();
            assert(out[out0.len() + u].name@ == tree.nodes@[front0[u] as int].name@);
            assert(k == out0.len() + u);
            assert(visited[front0[u] as int]);
        }
    }
    assert forall|k1: int, k2: int|
        #![trigger out[k1].name, out[k2].name]
        0 <= k1 < k2 < out.len() implies out[k1].name@ != out[k2].name@ by {
        if k2 < out0.len() {
        } else if k1 < out0.len() {
            let u = k2 - out0.len();
            assert(out[out0.len() + u].name@ == tree.nodes@[front0[u] as int].name@);
            assert(k2 == out0.len() + u);
            assert(out[k1] == out0[k1]);
            assert(out[k1].name@ != tree.nodes@[front0[u] as int].name@);
        } else {
            let u1 = k1 - out0.len();
            let u2 = k2 - out0.len();
            assert(out[out0.len() + u1].name@ == tree.nodes@[front0[u1] as int].name@);
            assert(out[out0.len() + u2].name@ == tree.nodes@[front0[u2] as int].name@);
            assert(front0[u1] != front0[u2]);
            if front0[u1] < front0[u2] {
                assert(tree.nodes@[front0[u1] as int].name@
                    != tree.nodes@[front0[u2] as int].name@);
            } else {
                assert(tree.nodes@[front0[u2] as int].name@
                    != tree.nodes@[front0[u1] as int].name@);
            }
        }
    }
    assert forall|k: int| 0 <= k < out.len() implies (#[trigger] out[k]).width
        == cfg.box_width && out[k].height == cfg.box_height && out[k].depth <= depth
        && out[k].y == (out[k].depth as int) * step_y && 0 <= out[k].x
        <= 0x2000_0000i64 && 0 <= out[k].y <= 0x2000_0000i64 by {
        if k < out0.len() {
            assert(out[k] == out0[k]);
        } else {
            let u = k - out0.len();
            assert(out[out0.len() + u].width == cfg.box_width);
            assert(k == out0.len() + u);
        }
    }
    assert forall|k1: int, k2: int|
        #![trigger out[k1].x, out[k2].x]
        0 <= k1 < out.len() && 0 <= k2 < out.len() && k1 != k2 && out[k1].depth
            == out[k2].depth implies (out[k1].x + cfg.box_width <= out[k2].x
        || out[k2].x + cfg.box_width <= out[k1].x) by {
        if k1 >= out0.len() && k2 >= out0.len() {
            let u1 = k1 - out0.len();
            let u2 = k2 - out0.len();
            let sx = step_x as int;
            assert(out[out0.len() + u1].x == u1 * step_x);
            assert(out[out0.len() + u2].x == u2 * step_x);
            if u1 < u2 {
                assert(u1 * sx + sx <= u2 * sx) by (nonlinear_arith)
                    requires
                        0 <= u1 < u2,
                        0 <= sx,
                ;
            } else {
                assert(u2 * sx + sx <= u1 * sx) by (nonlinear_arith)
                    requires
                        0 <= u2 < u1,
                        0 <= sx,
                ;
            }
        } else if k1 >= out0.len() || k2 >= out0.len() {
            // one old, one new: their depths differ
            if k1 < out0.len() {
                assert(out[k1] == out0[k1]);
                assert(out[out0.len() + (k2 - out0.len())].depth == depth);
                assert(false);
            } else {
                assert(out[k2] == out0[k2]);
                assert(out[out0.len() + (k1 - out0.len())].depth == depth);
                assert(false);
            }
        }
    }
    // a row of the level just placed sits at depth 0 exactly when it
    // is a root: the first level holds the roots, later ones hold
    // children only
    assert forall|k: int| 0 <= k < out.len() implies ((#[trigger] out[k]).depth == 0
        <==> !has_parent_in(tree.nodes@, out[k].name@)) by {
        if k < out0.len() {
            assert(out[k] == out0[k]);
        } else {
            let u = k - out0.len();
            assert(out[out0.len() + u].name@ == tree.nodes@[front0[u] as int].name@);
            assert(out[out0.len() + u].depth == depth);
            assert(k == out0.len() + u);
        }
    }
    // every root is placed once the first level is down
    assert forall|a: int|
        0 <= a < tree.nodes@.len() && !has_parent_in(
            tree.nodes@,
            #[trigger] tree.nodes@[a].name@,
        ) implies placed_name(out, tree.nodes@[a].name@) by {
        if placed_name(out0, tree.nodes@[a].name@) {
            let k = choose|k: int|
                0 <= k < out0.len() && out0[k].name@ == tree.nodes@[a].name@;
            assert(out[k].name@ == tree.nodes@[a].name@);
        } else {
            let j = choose|j: int| 0 <= j < front0.len() && front0[j] == a;
            assert(out[out0.len() + j].name@ == tree.nodes@[front0[j] as int].name@);
        }
    }
}

/// After one level is placed and the next gathered: every edge of a placed
/// parent is placed one level lower, or its child waits in the new frontier.
#[verifier::rlimit(100)]
proof fn lemma_edges_after_level(
    tree: Tree,
    out0: Seq<PositionedNode>,
    out: Seq<PositionedNode>,
    front0: Seq<usize>,
    frontier: Seq<usize>,
    depth: usize,
)
    requires
        depth >= 1,
        front0.len() > 0,
        out.len() == out0.len() + front0.len(),
        forall|k: int| 0 <= k < out0.len() ==> #[trigger] out[k] == out0[k],
        forall|u: int|
            0 <= u < front0.len() ==> (#[trigger] out[out0.len() + u]).name@
                == tree.nodes@[front0[u] as int].name@ && out[out0.len() + u].depth == depth - 1,
        forall|j: int| 0 <= j < front0.len() ==> (#[trigger] front0[j]) < tree.nodes@.len(),
        forall|a: int, b: int|
            #![trigger tree.nodes@[a].name, tree.nodes@[b].name]
            0 <= a < b < tree.nodes@.len() ==> tree.nodes@[a].name@ != tree.nodes@[b].name@,
        forall|k: int, a: int, c: int|
            #![trigger out0[k].name, tree.nodes@[a].children@[c]]
            0 <= k < out0.len() && 0 <= a < tree.nodes@.len() && tree.nodes@[a].name@
                == out0[k].name@ && 0 <= c < tree.nodes@[a].children@.len() ==> (exists|k2: int|
                0 <= k2 < out0.len() && (#[trigger] out0[k2]).name@
                    == tree.nodes@[a].children@[c]@ && out0[k2].depth == out0[k].depth + 1) || (
            out0[k].depth + 1 == depth - 1 && level_has_name(
                tree.nodes@,
                front0,
                tree.nodes@[a].children@[c]@,
            )),
        forall|uu: int, c: int|
            #![trigger tree.nodes@[front0[uu] as int].children@[c]]
            0 <= uu < front0.len() && 0 <= c
                < tree.nodes@[front0[uu] as int].children@.len() ==> level_has_name(
                tree.nodes@,
                frontier,
                tree.nodes@[front0[uu] as int].children@[c]@,
            ),
    ensures
        forall|k: int, a: int, c: int|
            #![trigger out[k].name, tree.nodes@[a].children@[c]]
            0 <= k < out.len() && 0 <= a < tree.nodes@.len() && tree.nodes@[a].name@
                == out[k].name@ && 0 <= c < tree.nodes@[a].children@.len() ==> (exists|k2: int|
                0 <= k2 < out.len() && (#[trigger] out[k2]).name@ == tree.nodes@[a].children@[c]@
                    && out[k2].depth == out[k].depth + 1) || (out[k].depth + 1 == depth
                && level_has_name(tree.nodes@, frontier, tree.nodes@[a].children@[c]@)),
{
    let n = tree.nodes@.len();
    assert forall|k: int, a: int, c: int|
        #![trigger out[k].name, tree.nodes@[a].children@[c]]
        0 <= k < out.len() && 0 <= a < n && tree.nodes@[a].name@ == out[k].name@ && 0 <= c
            < tree.nodes@[a].children@.len() implies (exists|k2: int|
        0 <= k2 < out.len() && (#[trigger] out[k2]).name@ == tree.nodes@[a].children@[c]@
            && out[k2].depth == out[k].depth + 1) || (out[k].depth + 1 == depth && level_has_name(
        tree.nodes@,
        frontier,
        tree.nodes@[a].children@[c]@,
    )) by {

            if k < out0.len() {
                // an edge of an earlier level: it was either placed or
                // in the batch that this iteration has just placed
                assert(out0[k] == out[k]);
                let placed_already = exists|k2: int|
                0 <= k2 < out0.len() && (#[trigger] out0[k2]).name@
                    == tree.nodes@[a].children@[c]@ && out0[k2].depth == out0[k].depth
                    + 1;
                if placed_already {
                let k2 = choose|k2: int|
                    0 <= k2 < out0.len() && (#[trigger] out0[k2]).name@
                        == tree.nodes@[a].children@[c]@ && out0[k2].depth == out0[k].depth
                        + 1;
                assert(out[k2].name@ == tree.nodes@[a].children@[c]@);
                } else {
                let j = choose|j: int|
                    0 <= j < front0.len() && front0[j] < tree.nodes@.len()
                        && tree.nodes@[front0[j] as int].name@
                        == tree.nodes@[a].children@[c]@;
                assert(out[out0.len() + j].name@
                    == tree.nodes@[front0[j] as int].name@);
                assert(out[out0.len() + j].depth == depth - 1);
                assert(out[k].depth + 1 == depth - 1 + 1 || true);
                assert(out0[k].depth + 1 == depth - 1);
                assert(out[out0.len() + j].depth == out[k].depth + 1);
                }
            } else {
                // an edge of the level just placed: its child waits in
                // the new frontier
                let uidx = k - out0.len();
                assert(out[out0.len() + uidx].name@
                == tree.nodes@[front0[uidx] as int].name@);
                assert(k == out0.len() + uidx);
                if a != front0[uidx] as int {
                if a < front0[uidx] as int {
                    assert(tree.nodes@[a].name@
                        != tree.nodes@[front0[uidx] as int].name@);
                } else {
                    assert(tree.nodes@[front0[uidx] as int].name@
                        != tree.nodes@[a].name@);
                }
                }
                assert(a == front0[uidx]);
                assert(out[out0.len() + uidx].depth == depth - 1);
                assert(level_has_name(
                tree.nodes@,
                frontier,
                tree.nodes@[front0[uidx] as int].children@[c]@,
                ));
            }
    }
}

/// Assign every node a position: depth 0 for the roots (exactly them, and
/// all of them), each child one level below its parent, levels filled left
/// to right in child order with the configured box size and gaps. Fails with
/// `CyclicTree` naming a node that a scan from the roots reaches twice or
/// never reaches; such a node always has a parent, since every parent-less
/// node is reached. On success every node provably hangs under a root
/// (`rooted`); that a name is attached as a child at most once is checked by
/// the scan but is not part of this contract.
#[verifier::rlimit(100)]
pub fn layout(tree: &Tree, cfg: &LayoutConfig) -> (r: Result<Vec<PositionedNode>, LayoutError>)
    requires
        tree_wf(tree@),
        config_ok(*cfg),
        tree.nodes@.len() <= LAYOUT_LIMIT,
    ensures
        match r {
            Ok(out) => layout_ok(out@, tree.nodes@, *cfg) && forall|i: int|
                0 <= i < tree.nodes@.len() ==> rooted(tree.nodes@, i, tree.nodes@.len() as int),
            Err(e) => e matches LayoutError::CyclicTree(name) && (exists|i: int|
                0 <= i < tree.nodes@.len() && tree.nodes@[i].name@ == name@) && has_parent_in(
                tree.nodes@,
                name@,
            ),
        },
{
    proof {
        lemma_wf_exec(*tree);
    }
    let n = tree.nodes.len();
    let step_x = cfg.box_width + cfg.h_gap;
    let step_y = cfg.box_height + cfg.v_gap;
    let mut visited: Vec<bool> = Vec::new();
    let mut z: usize = 0;
    while z < n
        invariant
            z <= n,
            visited@.len() == z,
            forall|a: int| 0 <= a < z ==> !visited@[a],
            count_true(visited@) == 0,
        decreases n - z,
    {
        let ghost pre = visited@;
        visited.push(false);
        proof {
            lemma_count_push(pre, false);
        }
        z = z + 1;
    }
    let frontier_init = collect_roots(tree, &mut visited);
    let mut frontier = frontier_init;
    let mut out: Vec<PositionedNode> = Vec::new();
    let mut depth: usize = 0;
    proof {
        // the collected facts, in the shapes the scan's invariants use
        assert forall|a: int|
            0 <= a < n && !has_parent_in(tree.nodes@, #[trigger] tree.nodes@[a].name@) implies (
        placed_name(out@, tree.nodes@[a].name@) || (depth == 0 && in_level(frontier@, a))) by {
            assert(visited@[a] && in_level(frontier@, a));
        }
        assert forall|j: int| 0 <= j < frontier@.len() implies rooted(
            tree.nodes@,
            (#[trigger] frontier@[j]) as int,
            depth as int,
        ) by {
            assert(!has_parent_in(tree.nodes@, tree.nodes@[frontier@[j] as int].name@));
        }
        assert forall|a: int| 0 <= a < n && #[trigger] visited@[a] implies rooted(
            tree.nodes@,
            a,
            n as int,
        ) by {
            assert(!has_parent_in(tree.nodes@, tree.nodes@[a].name@));
        }
        assert forall|a: int| 0 <= a < n && !(#[trigger] visited@[a]) implies has_parent_in(
            tree.nodes@,
            tree.nodes@[a].name@,
        ) by {
            if !has_parent_in(tree.nodes@, tree.nodes@[a].name@) {
                assert(visited@[a] && in_level(frontier@, a));
            }
        }
    }
    while frontier.len() > 0
        invariant
            n == tree.nodes@.len() <= LAYOUT_LIMIT,
            config_ok(*cfg),
            tree_wf(tree@),
            step_x == cfg.box_width + cfg.h_gap,
            step_y == cfg.box_height + cfg.v_gap,
            visited@.len() == n,
            // restatement of well-formedness over the executable vector
            forall|a: int, b: int|
                #![trigger tree.nodes@[a].name, tree.nodes@[b].name]
                0 <= a < b < n ==> tree.nodes@[a].name@ != tree.nodes@[b].name@,
            forall|a: int, c: int|
                #![trigger tree.nodes@[a].children@[c]]
                0 <= a < n && 0 <= c < tree.nodes@[a].children@.len() ==> exists|k: int|
                    0 <= k < n && tree.nodes@[k].name@ == tree.nodes@[a].children@[c]@,
            // bookkeeping
            count_true(visited@) == out@.len() + frontier@.len(),
            depth <= out@.len(),
            // frontier sanity
            forall|j: int| 0 <= j < frontier@.len() ==> (#[trigger] frontier@[j]) < n,
            forall|j: int|
                0 <= j < frontier@.len() ==> visited@[(#[trigger] frontier@[j]) as int],
            forall|j1: int, j2: int|
                0 <= j1 < j2 < frontier@.len() ==> #[trigger] frontier@[j1]
                    != #[trigger] frontier@[j2],
            forall|j: int, k: int|
                0 <= j < frontier@.len() && 0 <= k < out@.len() ==> (#[trigger] out@[k]).name@
                    != tree.nodes@[(#[trigger] frontier@[j]) as int].name@,
            // placed names are names of visited nodes, and unique
            forall|k: int|
                0 <= k < out@.len() ==> visited_name(
                    tree.nodes@,
                    visited@,
                    (#[trigger] out@[k]).name@,
                ),
            forall|k1: int, k2: int|
                #![trigger out@[k1].name, out@[k2].name]
                0 <= k1 < k2 < out@.len() ==> out@[k1].name@ != out@[k2].name@,
            // geometry of what is placed
            forall|k: int|
                0 <= k < out@.len() ==> (#[trigger] out@[k]).width == cfg.box_width
                    && out@[k].height == cfg.box_height,
            forall|k: int|
                0 <= k < out@.len() ==> (#[trigger] out@[k]).depth < depth && out@[k].y == (
                out@[k].depth as int) * step_y && 0 <= out@[k].x <= 0x2000_0000i64 && 0
                    <= out@[k].y <= 0x2000_0000i64,
            forall|k1: int, k2: int|
                #![trigger out@[k1].x, out@[k2].x]
                0 <= k1 < out@.len() && 0 <= k2 < out@.len() && k1 != k2 && out@[k1].depth
                    == out@[k2].depth ==> (out@[k1].x + cfg.box_width <= out@[k2].x || out@[k2].x
                    + cfg.box_width <= out@[k1].x),
            // every edge of a placed parent is either placed one level lower
            // or waits in the frontier for the level that comes next
            forall|k: int, a: int, c: int|
                #![trigger out@[k].name, tree.nodes@[a].children@[c]]
                0 <= k < out@.len() && 0 <= a < n && tree.nodes@[a].name@ == out@[k].name@ && 0
                    <= c < tree.nodes@[a].children@.len() ==> (exists|k2: int|
                    0 <= k2 < out@.len() && (#[trigger] out@[k2]).name@
                        == tree.nodes@[a].children@[c]@ && out@[k2].depth == out@[k].depth + 1) || (
                out@[k].depth + 1 == depth && level_has_name(
                    tree.nodes@,
                    frontier@,
                    tree.nodes@[a].children@[c]@,
                )),
            // roots sit in the first level and only there
            forall|j: int|
                0 <= j < frontier@.len() && depth == 0 ==> !has_parent_in(
                    tree.nodes@,
                    tree.nodes@[(#[trigger] frontier@[j]) as int].name@,
                ),
            forall|j: int|
                0 <= j < frontier@.len() && depth > 0 ==> has_parent_in(
                    tree.nodes@,
                    tree.nodes@[(#[trigger] frontier@[j]) as int].name@,
                ),
            forall|k: int|
                0 <= k < out@.len() ==> ((#[trigger] out@[k]).depth == 0 <==> !has_parent_in(
                    tree.nodes@,
                    out@[k].name@,
                )),
            forall|a: int|
                0 <= a < n && !has_parent_in(tree.nodes@, #[trigger] tree.nodes@[a].name@)
                    ==> placed_name(out@, tree.nodes@[a].name@) || (depth == 0 && in_level(
                    frontier@,
                    a,
                )),
            // everything reached hangs under a root
            forall|j: int|
                0 <= j < frontier@.len() ==> rooted(
                    tree.nodes@,
                    (#[trigger] frontier@[j]) as int,
                    depth as int,
                ),
            forall|a: int|
                0 <= a < n && #[trigger] visited@[a] ==> rooted(tree.nodes@, a, n as int),
            forall|a: int|
                0 <= a < n && !(#[trigger] visited@[a]) ==> has_parent_in(
                    tree.nodes@,
                    tree.nodes@[a].name@,
                ),
        decreases n - out@.len(),
    {
        proof {
            lemma_count_true_bound(visited@);
        }
        let m = frontier.len();
        let ghost out0 = out@;
        let ghost front0 = frontier@;
        let ghost vis0 = visited@;
        proof {
            assert((depth as int) * (step_y as int) <= 0x2000_0000int && (depth as int) * (
            step_y as int) >= 0) by (nonlinear_arith)
                requires
                    0 <= depth <= 0x4000,
                    0 <= step_y <= 0x8000,
            ;
        }
        let y = (depth as i64) * step_y;
        // place this level, left to right
        place_level(&mut out, tree, &frontier, depth, y, cfg, step_x);
        proof {
            lemma_level_placed(
                *tree,
                *cfg,
                out0,
                out@,
                front0,
                visited@,
                depth,
                y,
                step_x,
                step_y,
            );
        }
        // gather the next level: the children of this level, in order
        proof {
            assert(depth + 1 <= n);
        }
        let mut next: Vec<usize> = Vec::new();
        let mut u: usize = 0;
        while u < m
            invariant
                u <= m == front0.len(),
                frontier@ == front0,
                visited@.len() == n,
                out@.len() == out0.len() + m,
                depth + 1 <= n,
                forall|j: int|
                    0 <= j < front0.len() ==> rooted(
                        tree.nodes@,
                        (#[trigger] front0[j]) as int,
                        depth as int,
                    ),
                forall|j: int|
                    0 <= j < next@.len() ==> rooted(
                        tree.nodes@,
                        (#[trigger] next@[j]) as int,
                        depth + 1,
                    ) && has_parent_in(tree.nodes@, tree.nodes@[next@[j] as int].name@),
                forall|a: int|
                    0 <= a < n && #[trigger] visited@[a] ==> rooted(tree.nodes@, a, n as int),
                forall|a: int|
                    0 <= a < n && !(#[trigger] visited@[a]) ==> has_parent_in(
                        tree.nodes@,
                        tree.nodes@[a].name@,
                    ),
                n == tree.nodes@.len() <= LAYOUT_LIMIT,
                tree_wf(tree@),
                count_true(visited@) == out@.len() + next@.len(),
                forall|a: int, b: int|
                    #![trigger tree.nodes@[a].name, tree.nodes@[b].name]
                    0 <= a < b < n ==> tree.nodes@[a].name@ != tree.nodes@[b].name@,
                forall|a: int, c: int|
                    #![trigger tree.nodes@[a].children@[c]]
                    0 <= a < n && 0 <= c < tree.nodes@[a].children@.len() ==> exists|k: int|
                        0 <= k < n && tree.nodes@[k].name@ == tree.nodes@[a].children@[c]@,
                forall|j: int| 0 <= j < front0.len() ==> (#[trigger] front0[j]) < n,
                forall|j: int| 0 <= j < next@.len() ==> (#[trigger] next@[j]) < n,
                forall|j: int| 0 <= j < next@.len() ==> visited@[(#[trigger] next@[j]) as int],
                forall|a: int| 0 <= a < n && vis0[a] ==> #[trigger] visited@[a],
                forall|j1: int, j2: int|
                    0 <= j1 < j2 < next@.len() ==> #[trigger] next@[j1] != #[trigger] next@[j2],
                forall|k: int|
                    0 <= k < out@.len() ==> visited_name(
                        tree.nodes@,
                        visited@,
                        (#[trigger] out@[k]).name@,
                    ),
                forall|j: int, k: int|
                    0 <= j < next@.len() && 0 <= k < out@.len() ==> (#[trigger] out@[k]).name@
                        != tree.nodes@[(#[trigger] next@[j]) as int].name@,
                forall|uu: int, c: int|
                    #![trigger tree.nodes@[front0[uu] as int].children@[c]]
                    0 <= uu < u && 0 <= c
                        < tree.nodes@[front0[uu] as int].children@.len() ==> level_has_name(
                        tree.nodes@,
                        next@,
                        tree.nodes@[front0[uu] as int].children@[c]@,
                    ),
            decreases m - u,
        {
            let idx = frontier[u];
            let ghost visbefore = visited@;
            let ghost nextbefore = next@;
            match enqueue_children(tree, idx, &mut visited, &mut next, Ghost(out@), Ghost(
                depth as int,
            )) {
                Err(e) => {
                    return Err(e);
                },
                Ok(_) => {},
            }
            proof {
                // marking only grows, and names already placed stay names of
                // visited nodes; the coverage of earlier entries carries
                // over as next grows
                assert forall|a: int| 0 <= a < n && vis0[a] implies #[trigger] visited@[a] by {
                    assert(visbefore[a]);
                }
                assert forall|k: int| 0 <= k < out@.len() implies visited_name(
                    tree.nodes@,
                    visited@,
                    (#[trigger] out@[k]).name@,
                ) by {
                    let a = choose|a: int|
                        0 <= a < tree.nodes@.len() && 0 <= a < visbefore.len() && visbefore[a]
                            && tree.nodes@[a].name@ == out@[k].name@;
                    assert(visited@[a]);
                }
                assert forall|uu: int, c: int|
                    #![trigger tree.nodes@[front0[uu] as int].children@[c]]
                    0 <= uu < u + 1 && 0 <= c
                        < tree.nodes@[front0[uu] as int].children@.len() implies level_has_name(
                    tree.nodes@,
                    next@,
                    tree.nodes@[front0[uu] as int].children@[c]@,
                ) by {
                    if uu < u {
                        let j = choose|j: int|
                            0 <= j < nextbefore.len() && nextbefore[j] < tree.nodes@.len()
                                && tree.nodes@[nextbefore[j] as int].name@
                                == tree.nodes@[front0[uu] as int].children@[c]@;
                        assert(next@[j] == nextbefore[j]);
                    }
                }
            }
            u = u + 1;
        }
        frontier = next;
        depth = depth + 1;
        proof {
            lemma_edges_after_level(*tree, out0, out@, front0, frontier@, depth);
        }
    }
    // every node must have been reached
    let mut w: usize = 0;
    while w < n
        invariant
            w <= n == tree.nodes@.len(),
            visited@.len() == n,
            forall|a: int| 0 <= a < w ==> visited@[a],
            forall|a: int|
                0 <= a < n && !(#[trigger] visited@[a]) ==> has_parent_in(
                    tree.nodes@,
                    tree.nodes@[a].name@,
                ),
        decreases n - w,
    {
        if !visited[w] {
            return Err(LayoutError::CyclicTree(tree.nodes[w].name.clone()));
        }
        w = w + 1;
    }
    proof {
        lemma_count_true_all(visited@);
        assert(out@.len() == n);
        assert forall|k: int| 0 <= k < out@.len() implies names_node(
            tree.nodes@,
            (#[trigger] out@[k]).name@,
        ) by {
            let a = choose|a: int|
                0 <= a < tree.nodes@.len() && 0 <= a < visited@.len() && visited@[a]
                    && tree.nodes@[a].name@ == out@[k].name@;
            assert(0 <= a < tree.nodes@.len() && tree.nodes@[a].name@ == out@[k].name@);
        }
        assert forall|k: int| 0 <= k < out@.len() implies ((#[trigger] out@[k]).depth as int)
            < tree.nodes@.len() by {
            assert(out@[k].depth < depth);
        }
        // with the scan complete, every node is visited, hence rooted, and
        // every root is placed (the frontier is spent)
        assert forall|i2: int| 0 <= i2 < tree.nodes@.len() implies rooted(
            tree.nodes@,
            i2,
            tree.nodes@.len() as int,
        ) by {
            assert(visited@[i2]);
        }
        assert forall|a: int|
            0 <= a < n && !has_parent_in(tree.nodes@, #[trigger] tree.nodes@[a].name@)
                implies placed_name(out@, tree.nodes@[a].name@) by {
            assert(frontier@.len() == 0);
            assert(!in_level(frontier@, a));
        }
    }
    Ok(out)
}

} // verus!
