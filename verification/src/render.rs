//! Rendering a tree back into the clause grammar.
//!
//! The renderer is the inverse direction of the parser: a directive line
//! carrying the tree attributes, one clause line per node carrying its
//! attributes, one `child(parent)` line per edge in child order, and the
//! closing directive. The round-trip lemmas (`render_attrs_round_trip`,
//! `node_clause_round_trip`, `clause_round_trip`, `directive_round_trip`)
//! prove, layer by layer, that re-parsing what was rendered yields the
//! structure that was rendered.

use vstd::prelude::*;
use vstd::string::*;

use crate::parser::{
    amap_insert, end_marker, lemma_amap_insert_absent, pairs_view, parse_attr_list, parse_attrs,
    parse_clause, process_start_line, split_first_eq, start_marker, ClauseV, NodeV, PStateV,
    ParseErrorV, Tree, TreeV,
};
use crate::text::{find_char, find_char_from, is_wsp, split_char, trim_of};

verus! {

/// A character that may stand in a rendered name, attribute key or value:
/// not whitespace and none of the grammar's separators.
pub open spec fn plain_char(c: char) -> bool {
    !is_wsp(c) && c != ',' && c != '=' && c != ';' && c != '(' && c != ')' && c != '[' && c != ']'
        && c != ':'
}

/// Every character of the fragment is plain.
pub open spec fn plain(s: Seq<char>) -> bool {
    forall|i: int| 0 <= i < s.len() ==> plain_char(#[trigger] s[i])
}

/// One rendered attribute pair: `key=value`.
pub open spec fn render_pair(p: (Seq<char>, Seq<char>)) -> Seq<char> {
    p.0 + seq!['='] + p.1
}

/// The rendered attribute list: `k=v,k=v,...`.
pub open spec fn render_attrs(m: Seq<(Seq<char>, Seq<char>)>) -> Seq<char>
    decreases m.len(),
{
    if m.len() == 0 {
        Seq::empty()
    } else if m.len() == 1 {
        render_pair(m[0])
    } else {
        render_pair(m[0]) + seq![','] + render_attrs(m.drop_first())
    }
}

proof fn lemma_render_attrs_push(s: Seq<(Seq<char>, Seq<char>)>, p: (Seq<char>, Seq<char>))
    ensures
        render_attrs(s.push(p)) =~= if s.len() == 0 {
            render_pair(p)
        } else {
            render_attrs(s) + seq![','] + render_pair(p)
        },
    decreases s.len(),
{
    let e = s.push(p);
    if s.len() == 0 {
        assert(e[0] == p);
    } else {
        assert(e[0] == s[0]);
        assert(e.drop_first() =~= s.drop_first().push(p));
        lemma_render_attrs_push(s.drop_first(), p);
        if s.len() == 1 {
            assert(render_attrs(s) =~= render_pair(s[0]));
        }
    }
}

/// Every character of a rendered pair is plain or the `=` between the two
/// halves.
proof fn lemma_pair_chars(k: Seq<char>, v: Seq<char>)
    requires
        plain(k),
        plain(v),
    ensures
        forall|i: int|
            0 <= i < render_pair((k, v)).len() ==> (#[trigger] render_pair((k, v))[i] == '='
                || plain_char(render_pair((k, v))[i])),
{
    let s = render_pair((k, v));
    assert forall|i: int| 0 <= i < s.len() implies (#[trigger] s[i] == '=' || plain_char(
        s[i],
    )) by {
        if i < k.len() {
            assert(s[i] == k[i]);
        } else if i == k.len() {
            assert(s[i] == '=');
        } else {
            assert(s[i] == v[i - k.len() - 1]);
        }
    }
}

// ---------------------------------------------------------------------------
// Round trips for the attribute-list and clause layers.
// ---------------------------------------------------------------------------
proof fn lemma_find_absent(s: Seq<char>, c: char, j: int)
    requires
        0 <= j <= s.len(),
        forall|i: int| j <= i < s.len() ==> s[i] != c,
    ensures
        find_char_from(s, c, j) is None,
    decreases s.len() - j,
{
    if j < s.len() {
        lemma_find_absent(s, c, j + 1);
    }
}

proof fn lemma_find_concat(a: Seq<char>, c: char, r: Seq<char>, j: int)
    requires
        0 <= j <= a.len(),
        forall|i: int| 0 <= i < a.len() ==> a[i] != c,
    ensures
        find_char_from(a + seq![c] + r, c, j) == Some(a.len() as int),
    decreases a.len() - j,
{
    let s = a + seq![c] + r;
    assert(s[a.len() as int] == c);
    if j == a.len() {
    } else {
        assert(s[j] == a[j]);
        lemma_find_concat(a, c, r, j + 1);
    }
}

proof fn lemma_trim_plain(s: Seq<char>)
    requires
        plain(s),
    ensures
        trim_of(s) == s,
{
    if s.len() > 0 {
        assert(!is_wsp(s[0]));
        assert(!is_wsp(s[s.len() - 1]));
    }
}

/// Splitting `key=value` at the first `=` recovers key and value.
proof fn lemma_pair_round_trip(k: Seq<char>, v: Seq<char>)
    requires
        plain(k),
    ensures
        split_first_eq(render_pair((k, v))) == Some((k, v)),
{
    let s = render_pair((k, v));
    lemma_find_concat(k, '=', v, 0);
    assert(find_char(s, '=') == Some(k.len() as int));
    assert(s.subrange(0, k.len() as int) =~= k);
    assert(s.subrange(k.len() as int + 1, s.len() as int) =~= v);
}

/// A well-formed attribute map: plain fragments and unique keys.
pub open spec fn attrs_wf(m: Seq<(Seq<char>, Seq<char>)>) -> bool {
    &&& forall|i: int| 0 <= i < m.len() ==> plain((#[trigger] m[i]).0) && plain(m[i].1)
    &&& forall|i: int, j: int|
        #![trigger m[i].0, m[j].0]
        0 <= i < j < m.len() ==> m[i].0 != m[j].0
}

proof fn lemma_split_render_attrs(m: Seq<(Seq<char>, Seq<char>)>)
    requires
        attrs_wf(m),
        m.len() > 0,
    ensures
        split_char(render_attrs(m), ',') =~= Seq::new(m.len(), |i: int| render_pair(m[i])),
    decreases m.len(),
{
    let s = render_attrs(m);
    lemma_pair_chars(m[0].0, m[0].1);
    if m.len() == 1 {
        assert(s =~= render_pair(m[0]));
        assert(forall|i: int| 0 <= i < s.len() ==> s[i] != ',');
        lemma_find_absent(s, ',', 0);
        assert(split_char(s, ',') =~= seq![s]);
    } else {
        let t = m.drop_first();
        let rest = render_attrs(t);
        assert(s =~= render_pair(m[0]) + seq![','] + rest);
        assert(forall|i: int| 0 <= i < render_pair(m[0]).len() ==> render_pair(m[0])[i] != ',');
        lemma_find_concat(render_pair(m[0]), ',', rest, 0);
        assert(find_char(s, ',') == Some(render_pair(m[0]).len() as int));
        let cut = render_pair(m[0]).len() as int;
        assert(s.subrange(0, cut) =~= render_pair(m[0]));
        assert(s.subrange(cut + 1, s.len() as int) =~= rest);
        assert(attrs_wf(t));
        lemma_split_render_attrs(t);
        assert(split_char(s, ',') =~= seq![render_pair(m[0])] + split_char(rest, ','));
        assert(split_char(s, ',') =~= Seq::new(m.len(), |i: int| render_pair(m[i])));
    }
}

proof fn lemma_parse_rendered_attrs(
    acc: Seq<(Seq<char>, Seq<char>)>,
    m: Seq<(Seq<char>, Seq<char>)>,
    frags: Seq<Seq<char>>,
    i: int,
)
    requires
        attrs_wf(acc + m),
        frags.len() == acc.len() + m.len(),
        0 <= i == acc.len(),
        forall|j: int| 0 <= j < frags.len() ==> #[trigger] frags[j] == render_pair((acc + m)[j]),
    ensures
        parse_attrs(acc, frags, i) == Ok::<_, Seq<char>>(acc + m),
    decreases m.len(),
{
    if m.len() == 0 {
        assert(acc + m =~= acc);
    } else {
        let all = acc + m;
        let p = m[0];
        assert(frags[i] == render_pair(all[i]));
        assert(all[i] == p);
        assert(plain(p.0) && plain(p.1));
        lemma_pair_round_trip(p.0, p.1);
        lemma_trim_plain(p.0);
        lemma_trim_plain(p.1);
        assert(forall|j: int| 0 <= j < acc.len() ==> (#[trigger] acc[j]).0 == all[j].0);
        assert(forall|j: int| 0 <= j < acc.len() ==> acc[j].0 != p.0);
        lemma_amap_insert_absent(acc, p.0, p.1);
        let acc2 = acc.push((p.0, p.1));
        assert(amap_insert(acc, trim_of(p.0), trim_of(p.1)) =~= acc2);
        assert(acc2 =~= acc + seq![p]);
        assert(acc2 + m.drop_first() =~= acc + m);
        lemma_parse_rendered_attrs(acc2, m.drop_first(), frags, i + 1);
    }
}

/// Round trip of the attribute-list layer: a rendered attribute map,
/// re-parsed, is the same map. (The grammar cannot express the empty list:
/// an empty block would read as one empty, malformed pair.)
pub proof fn render_attrs_round_trip(m: Seq<(Seq<char>, Seq<char>)>)
    requires
        attrs_wf(m),
        m.len() > 0,
    ensures
        parse_attr_list(Seq::empty(), render_attrs(m)) == Ok::<_, Seq<char>>(m),
{
    lemma_split_render_attrs(m);
    let frags = split_char(render_attrs(m), ',');
    assert(Seq::<(Seq<char>, Seq<char>)>::empty() + m =~= m);
    assert(forall|j: int|
        0 <= j < frags.len() ==> #[trigger] frags[j] == render_pair(
            (Seq::<(Seq<char>, Seq<char>)>::empty() + m)[j],
        ));
    lemma_parse_rendered_attrs(Seq::empty(), m, frags, 0);
}

/// One rendered edge clause: `child(parent)`.
pub open spec fn edge_clause(child: Seq<char>, parent: Seq<char>) -> Seq<char> {
    child + seq!['('] + parent + seq![')']
}

/// Round trip of the clause layer: a rendered `child(parent)` clause,
/// re-parsed, names exactly that child and parent, with no attributes.
pub proof fn clause_round_trip(child: Seq<char>, parent: Seq<char>)
    requires
        plain(child),
        plain(parent),
    ensures
        parse_clause(edge_clause(child, parent)) == Ok::<_, ParseErrorV>(
            ClauseV { name: child, parent: Some(parent), attributes: Seq::empty() },
        ),
{
    let s = edge_clause(child, parent);
    assert(forall|i: int| 0 <= i < s.len() ==> s[i] != '[');
    lemma_find_absent(s, '[', 0);
    lemma_find_concat(child, '(', parent + seq![')'], 0);
    assert(child + seq!['('] + (parent + seq![')']) =~= s);
    assert(find_char(s, '(') == Some(child.len() as int));
    let q0 = child.len() + 1 + parent.len();
    assert(s[q0 as int] == ')');
    assert forall|i: int| child.len() + 1 <= i < q0 implies s[i] != ')' by {
        assert(s[i] == parent[i - child.len() - 1]);
    }
    lemma_find_ranged(s, ')', child.len() as int + 1, q0 as int);
    assert(find_char_from(s, ')', child.len() as int + 1) == Some(q0 as int));
    assert(s.subrange(0, child.len() as int) =~= child);
    assert(s.subrange(child.len() as int + 1, q0 as int) =~= parent);
}

proof fn lemma_find_ranged(s: Seq<char>, c: char, from: int, at: int)
    requires
        0 <= from <= at < s.len(),
        s[at] == c,
        forall|i: int| from <= i < at ==> s[i] != c,
    ensures
        find_char_from(s, c, from) == Some(at),
    decreases at - from,
{
    if from < at {
        lemma_find_ranged(s, c, from + 1, at);
    }
}

proof fn lemma_render_attrs_chars(m: Seq<(Seq<char>, Seq<char>)>)
    requires
        attrs_wf(m),
    ensures
        forall|i: int|
            0 <= i < render_attrs(m).len() ==> (plain_char(#[trigger] render_attrs(m)[i])
                || render_attrs(m)[i] == '=' || render_attrs(m)[i] == ','),
    decreases m.len(),
{
    let s = render_attrs(m);
    if m.len() == 0 {
    } else if m.len() == 1 {
        lemma_pair_chars(m[0].0, m[0].1);
        assert(s =~= render_pair(m[0]));
    } else {
        lemma_pair_chars(m[0].0, m[0].1);
        let t = m.drop_first();
        assert(attrs_wf(t));
        lemma_render_attrs_chars(t);
        let first = render_pair(m[0]);
        let rest = render_attrs(t);
        assert(s =~= first + seq![','] + rest);
        assert forall|i: int| 0 <= i < s.len() implies (plain_char(#[trigger] s[i]) || s[i] == '='
            || s[i] == ',') by {
            if i < first.len() {
                assert(s[i] == first[i]);
            } else if i == first.len() {
                assert(s[i] == ',');
            } else {
                assert(s[i] == rest[i - first.len() - 1]);
            }
        }
    }
}

/// Round trip of the registration-clause layer: a rendered node clause,
/// re-parsed, names the node, carries its attributes and no parent.
pub proof fn node_clause_round_trip(n: NodeV)
    requires
        plain(n.name),
        attrs_wf(n.attributes),
    ensures
        parse_clause(node_clause(n)) == Ok::<_, ParseErrorV>(
            ClauseV { name: n.name, parent: None, attributes: n.attributes },
        ),
{
    if n.attributes.len() == 0 {
        let s = node_clause(n);
        assert(s == n.name);
        assert(forall|i: int| 0 <= i < s.len() ==> s[i] != '[');
        lemma_find_absent(s, '[', 0);
        assert(forall|i: int| 0 <= i < s.len() ==> s[i] != '(');
        lemma_find_absent(s, '(', 0);
        assert(n.attributes =~= Seq::<(Seq<char>, Seq<char>)>::empty());
    } else {
        let attrs = render_attrs(n.attributes);
        let s = node_clause(n);
        assert(n.name + seq!['['] + (attrs + seq![']']) =~= s);
        lemma_find_concat(n.name, '[', attrs + seq![']'], 0);
        assert(find_char(s, '[') == Some(n.name.len() as int));
        let close = n.name.len() + 1 + attrs.len();
        assert(s[close as int] == ']');
        lemma_render_attrs_chars(n.attributes);
        assert forall|i: int| n.name.len() + 1 <= i < close implies s[i] != ']' by {
            assert(s[i] == attrs[i - n.name.len() - 1]);
        }
        lemma_find_ranged(s, ']', n.name.len() as int + 1, close as int);
        assert(find_char_from(s, ']', n.name.len() as int + 1) == Some(close as int));
        assert(s.subrange(n.name.len() as int + 1, close as int) =~= attrs);
        render_attrs_round_trip(n.attributes);
        assert(s.subrange(0, n.name.len() as int) =~= n.name);
        assert(forall|i: int| 0 <= i < n.name.len() ==> n.name[i] != '(');
        lemma_find_absent(n.name, '(', 0);
    }
}

/// The directive line that opens the rendered tree.
pub open spec fn directive_line(m: Seq<(Seq<char>, Seq<char>)>) -> Seq<char> {
    if m.len() == 0 {
        start_marker() + seq![':']
    } else {
        start_marker() + seq!['['] + render_attrs(m) + seq![']', ':']
    }
}

/// Round trip of the directive layer: processing a rendered `:start-tree`
/// line opens the scope and records exactly the rendered attribute map.
pub proof fn directive_round_trip(st: PStateV, m: Seq<(Seq<char>, Seq<char>)>)
    requires
        attrs_wf(m),
        st.tattrs == Seq::<(Seq<char>, Seq<char>)>::empty(),
    ensures
        process_start_line(st, directive_line(m)) == Ok::<_, ParseErrorV>(
            PStateV { in_tree: true, tattrs: m, ..st },
        ),
{
    let line = directive_line(m);
    if m.len() == 0 {
        assert forall|i: int| 0 <= i < line.len() implies line[i] != '[' by {
            if i < start_marker().len() {
                assert(line[i] == start_marker()[i]);
            } else {
                assert(line[i] == ':');
            }
        }
        lemma_find_absent(line, '[', 0);
        assert(m =~= st.tattrs);
        assert(PStateV { in_tree: true, ..st } =~~= PStateV { in_tree: true, tattrs: m, ..st });
    } else {
        let attrs = render_attrs(m);
        assert(start_marker() + seq!['['] + (attrs + seq![']', ':']) =~= line);
        assert(forall|i: int|
            0 <= i < start_marker().len() ==> #[trigger] start_marker()[i] != '[');
        lemma_find_concat(start_marker(), '[', attrs + seq![']', ':'], 0);
        let open = start_marker().len() as int;
        assert(find_char(line, '[') == Some(open));
        let close = open + 1 + attrs.len();
        assert(line[close] == ']');
        lemma_render_attrs_chars(m);
        assert forall|i: int| open + 1 <= i < close implies line[i] != ']' by {
            assert(line[i] == attrs[i - open - 1]);
        }
        lemma_find_ranged(line, ']', open + 1, close);
        assert(find_char_from(line, ']', open + 1) == Some(close));
        assert(line.subrange(open + 1, close) =~= attrs);
        render_attrs_round_trip(m);
        assert(parse_attr_list(st.tattrs, attrs) == Ok::<_, Seq<char>>(m));
    }
}

// ---------------------------------------------------------------------------
// The executable renderer, proved against the spec functions above.
// ---------------------------------------------------------------------------
/// One node's registration clause: its name, then its attribute block if it
/// has attributes.
pub open spec fn node_clause(n: NodeV) -> Seq<char> {
    if n.attributes.len() == 0 {
        n.name
    } else {
        n.name + seq!['['] + render_attrs(n.attributes) + seq![']']
    }
}

/// The registration lines, one per node, from index `i` on.
pub open spec fn render_node_lines(nodes: Seq<NodeV>, i: int) -> Seq<char>
    decreases nodes.len() - i,
{
    if i < 0 || i >= nodes.len() {
        Seq::empty()
    } else {
        node_clause(nodes[i]) + seq!['\n'] + render_node_lines(nodes, i + 1)
    }
}

/// The edge lines of one node, `child(parent)`, in child order from `c` on.
pub open spec fn render_edges_of(n: NodeV, c: int) -> Seq<char>
    decreases n.children.len() - c,
{
    if c < 0 || c >= n.children.len() {
        Seq::empty()
    } else {
        edge_clause(n.children[c], n.name) + seq!['\n'] + render_edges_of(n, c + 1)
    }
}

/// All edge lines, nodes in order, each node's children in order.
pub open spec fn render_edge_lines(nodes: Seq<NodeV>, i: int) -> Seq<char>
    decreases nodes.len() - i,
{
    if i < 0 || i >= nodes.len() {
        Seq::empty()
    } else {
        render_edges_of(nodes[i], 0) + render_edge_lines(nodes, i + 1)
    }
}

/// What rendering a tree means: the opening directive with the tree
/// attributes, one registration line per node, one line per edge, and the
/// closing directive.
pub open spec fn render_tree_spec(t: TreeV) -> Seq<char> {
    directive_line(t.tree_attributes) + seq!['\n'] + render_node_lines(t.nodes, 0)
        + render_edge_lines(t.nodes, 0) + end_marker()
}

/// Append the rendered attribute list to `out`.
fn push_attrs(out: &mut String, m: &Vec<(String, String)>)
    ensures
        final(out)@ == old(out)@ + render_attrs(pairs_view(m@)),
{
    let ghost mv = pairs_view(m@);
    let n = m.len();
    let mut i: usize = 0;
    proof {
        assert(mv.take(0) =~= Seq::<(Seq<char>, Seq<char>)>::empty());
        assert(out@ =~= old(out)@ + render_attrs(mv.take(0)));
    }
    while i < n
        invariant
            i <= n == m@.len(),
            mv == pairs_view(m@),
            out@ =~= old(out)@ + render_attrs(mv.take(i as int)),
        decreases n - i,
    {
        let ghost before = out@;
        if i > 0 {
            out.append(",");
        }
        let pair = &m[i];
        out.append(pair.0.as_str());
        out.append("=");
        out.append(pair.1.as_str());
        proof {
            reveal_strlit(",");
            reveal_strlit("=");
            assert(","@ =~= seq![',']);
            assert("="@ =~= seq!['=']);
            assert(mv[i as int] == (m@[i as int].0@, m@[i as int].1@));
            lemma_render_attrs_push(mv.take(i as int), mv[i as int]);
            assert(mv.take(i as int).push(mv[i as int]) =~= mv.take(i + 1));
            if i > 0 {
                assert(out@ =~= before + seq![','] + render_pair(mv[i as int]));
                assert(out@ =~= old(out)@ + (render_attrs(mv.take(i as int)) + seq![',']
                    + render_pair(mv[i as int])));
                assert(out@ =~= old(out)@ + render_attrs(mv.take(i + 1)));
            } else {
                assert(out@ =~= before + render_pair(mv[0]));
                assert(mv.take(0).len() == 0);
                assert(out@ =~= old(out)@ + render_attrs(mv.take(1)));
            }
        }
        i = i + 1;
    }
    proof {
        assert(mv.take(n as int) =~= mv);
        assert(out@ =~= old(out)@ + render_attrs(mv));
    }
}

/// Render the tree back into the clause grammar, exactly as
/// `render_tree_spec` says.
pub fn render_tree(t: &Tree) -> (r: String)
    ensures
        r@ == render_tree_spec(t@),
{
    let mut out = String::new();
    proof {
        reveal_strlit(":start-tree");
        reveal_strlit(":end-tree:");
        reveal_strlit(":");
        reveal_strlit("[");
        reveal_strlit("]:");
        reveal_strlit("\n");
        reveal_strlit("(");
        reveal_strlit(")");
        assert(":start-tree"@ =~= start_marker());
        assert(":end-tree:"@ =~= end_marker());
        assert(":"@ =~= seq![':']);
        assert("["@ =~= seq!['[']);
        assert("]:"@ =~= seq![']', ':']);
        assert("\n"@ =~= seq!['\n']);
        assert("("@ =~= seq!['(']);
        assert(")"@ =~= seq![')']);
    }
    out.append(":start-tree");
    if t.tree_attributes.len() > 0 {
        out.append("[");
        push_attrs(&mut out, &t.tree_attributes);
        out.append("]:");
    } else {
        out.append(":");
    }
    out.append("\n");
    proof {
        assert(out@ =~= directive_line(t@.tree_attributes) + seq!['\n']);
    }
    let ghost head = out@;
    // registration lines
    let n = t.nodes.len();
    let mut i: usize = 0;
    proof {
        assert(out@ + render_node_lines(t@.nodes, 0) =~= head + render_node_lines(t@.nodes, 0));
    }
    while i < n
        invariant
            i <= n == t.nodes@.len(),
            t@.nodes.len() == n,
            out@ + render_node_lines(t@.nodes, i as int) =~= head + render_node_lines(
                t@.nodes,
                0,
            ),
        decreases n - i,
    {
        let ghost before = out@;
        let node = &t.nodes[i];
        out.append(node.name.as_str());
        if node.attributes.len() > 0 {
            out.append("[");
            push_attrs(&mut out, &node.attributes);
            out.append("]");
        }
        out.append("\n");
        proof {
            reveal_strlit("[");
            reveal_strlit("]");
            reveal_strlit("\n");
            assert("["@ =~= seq!['[']);
            assert("]"@ =~= seq![']']);
            assert("\n"@ =~= seq!['\n']);
            assert(t@.nodes[i as int] == t.nodes@[i as int]@);
            assert(t@.nodes[i as int].attributes == pairs_view(t.nodes@[i as int].attributes@));
            assert(out@ =~= before + node_clause(t@.nodes[i as int]) + seq!['\n']);
            assert(render_node_lines(t@.nodes, i as int) =~= node_clause(t@.nodes[i as int])
                + seq!['\n'] + render_node_lines(t@.nodes, i + 1));
            assert(out@ + render_node_lines(t@.nodes, i + 1) =~= before + render_node_lines(
                t@.nodes,
                i as int,
            ));
        }
        i = i + 1;
    }
    proof {
        assert(render_node_lines(t@.nodes, n as int) =~= Seq::<char>::empty());
        assert(out@ =~= head + render_node_lines(t@.nodes, 0));
    }
    let ghost head2 = out@;
    // edge lines
    let mut i2: usize = 0;
    proof {
        assert(out@ + render_edge_lines(t@.nodes, 0) =~= head2 + render_edge_lines(t@.nodes, 0));
    }
    while i2 < n
        invariant
            i2 <= n == t.nodes@.len(),
            t@.nodes.len() == n,
            out@ + render_edge_lines(t@.nodes, i2 as int) =~= head2 + render_edge_lines(
                t@.nodes,
                0,
            ),
        decreases n - i2,
    {
        let ghost before = out@;
        let node = &t.nodes[i2];
        let m = node.children.len();
        let mut c: usize = 0;
        proof {
            assert(t@.nodes[i2 as int] == t.nodes@[i2 as int]@);
            assert(out@ + render_edges_of(t@.nodes[i2 as int], c as int) =~= before
                + render_edges_of(t@.nodes[i2 as int], 0));
        }
        while c < m
            invariant
                c <= m == t.nodes@[i2 as int].children@.len(),
                i2 < n == t.nodes@.len(),
                t@.nodes.len() == n,
                node == &t.nodes@[i2 as int],
                t@.nodes[i2 as int] == t.nodes@[i2 as int]@,
                out@ + render_edges_of(t@.nodes[i2 as int], c as int) =~= before
                    + render_edges_of(t@.nodes[i2 as int], 0),
            decreases m - c,
        {
            let ghost mid = out@;
            out.append(node.children[c].as_str());
            out.append("(");
            out.append(node.name.as_str());
            out.append(")");
            out.append("\n");
            proof {
                reveal_strlit("(");
                reveal_strlit(")");
                reveal_strlit("\n");
                assert("("@ =~= seq!['(']);
                assert(")"@ =~= seq![')']);
                assert("\n"@ =~= seq!['\n']);
                assert(t@.nodes[i2 as int].children[c as int] == t.nodes@[i2 as int].children@[
                    c as int
                ]@);
                assert(out@ =~= mid + edge_clause(
                    t@.nodes[i2 as int].children[c as int],
                    t@.nodes[i2 as int].name,
                ) + seq!['\n']);
                assert(render_edges_of(t@.nodes[i2 as int], c as int) =~= edge_clause(
                    t@.nodes[i2 as int].children[c as int],
                    t@.nodes[i2 as int].name,
                ) + seq!['\n'] + render_edges_of(t@.nodes[i2 as int], c + 1));
                assert(out@ + render_edges_of(t@.nodes[i2 as int], c + 1) =~= mid
                    + render_edges_of(t@.nodes[i2 as int], c as int));
            }
            c = c + 1;
        }
        proof {
            assert(render_edges_of(t@.nodes[i2 as int], m as int) =~= Seq::<char>::empty());
            assert(out@ =~= before + render_edges_of(t@.nodes[i2 as int], 0));
            assert(render_edge_lines(t@.nodes, i2 as int) =~= render_edges_of(
                t@.nodes[i2 as int],
                0,
            ) + render_edge_lines(t@.nodes, i2 + 1));
            assert(out@ + render_edge_lines(t@.nodes, i2 + 1) =~= before + render_edge_lines(
                t@.nodes,
                i2 as int,
            ));
        }
        i2 = i2 + 1;
    }
    proof {
        assert(render_edge_lines(t@.nodes, n as int) =~= Seq::<char>::empty());
        assert(out@ =~= head2 + render_edge_lines(t@.nodes, 0));
    }
    out.append(":end-tree:");
    proof {
        reveal_strlit(":end-tree:");
        assert(":end-tree:"@ =~= end_marker());
        assert(out@ =~= render_tree_spec(t@));
    }
    out
}

} // verus!
