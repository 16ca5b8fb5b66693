//! The tree grammar and its parser.
//!
//! The grammar is line-oriented: a `:start-tree[k=v,...]:` line opens the
//! tree scope, a `:end-tree:` line closes it, and within the scope each line
//! holds node clauses `NAME(PARENT)[k=v,...]` separated by `;`, with the
//! parent and the attribute list optional. Parsing is all-or-nothing: any
//! malformed fragment or unresolved parent fails the whole input.
//!
//! The meaning of the grammar is fixed by the spec-level functions in this
//! module (`parse_tree_spec` and the pieces it is built from); the executable
//! [`parse_tree`] is proved to return exactly that.

use vstd::prelude::*;
use vstd::string::*;

use crate::text::{
    find_char, find_char_from, find_from, seq_starts_with, split_char, split_str,
    starts_with_str, str_eq, substr, trim_of, trim_str,
};

verus! {

/// A named node: attributes as first-registration key/value pairs, children
/// in the order their parent references were first seen.
#[derive(Debug, Clone, PartialEq)]
pub struct Node {
    pub name: String,
    pub children: Vec<String>,
    pub attributes: Vec<(String, String)>,
}

/// A parsed tree: the nodes (names unique, in first-registration order) and
/// the tree-level attributes from the opening directive.
#[derive(Debug, Clone, PartialEq)]
pub struct Tree {
    pub nodes: Vec<Node>,
    pub tree_attributes: Vec<(String, String)>,
}

/// Why parsing failed; each variant carries the offending fragment.
#[derive(Debug, Clone, PartialEq)]
pub enum ParseError {
    /// Unbalanced brackets on a `:start-tree:` directive line.
    MalformedDirective(String),
    /// An attribute pair without an `=` between key and value.
    MalformedAttribute(String),
    /// A node clause with an unclosed `[` or `(`.
    MalformedClause(String),
    /// A child references a parent name that was never registered.
    UnresolvedParent(String),
}

/// Spec-level image of a node.
#[verifier::ext_equal]
pub ghost struct NodeV {
    pub name: Seq<char>,
    pub children: Seq<Seq<char>>,
    pub attributes: Seq<(Seq<char>, Seq<char>)>,
}

/// Spec-level image of a tree.
#[verifier::ext_equal]
pub ghost struct TreeV {
    pub nodes: Seq<NodeV>,
    pub tree_attributes: Seq<(Seq<char>, Seq<char>)>,
}

/// Spec-level image of a parse error.
#[verifier::ext_equal]
pub ghost enum ParseErrorV {
    MalformedDirective(Seq<char>),
    MalformedAttribute(Seq<char>),
    MalformedClause(Seq<char>),
    UnresolvedParent(Seq<char>),
}

/// The views of a vector of key/value string pairs.
pub open spec fn pairs_view(v: Seq<(String, String)>) -> Seq<(Seq<char>, Seq<char>)> {
    Seq::new(v.len(), |i: int| (v[i].0@, v[i].1@))
}

/// The views of a vector of strings.
pub open spec fn strs_view(v: Seq<String>) -> Seq<Seq<char>> {
    Seq::new(v.len(), |i: int| v[i]@)
}

impl View for Node {
    type V = NodeV;

    open spec fn view(&self) -> NodeV {
        NodeV {
            name: self.name@,
            children: strs_view(self.children@),
            attributes: pairs_view(self.attributes@),
        }
    }
}

/// The views of a vector of nodes.
pub open spec fn nodes_view(v: Seq<Node>) -> Seq<NodeV> {
    Seq::new(v.len(), |i: int| v[i]@)
}

impl View for Tree {
    type V = TreeV;

    open spec fn view(&self) -> TreeV {
        TreeV { nodes: nodes_view(self.nodes@), tree_attributes: pairs_view(self.tree_attributes@) }
    }
}

impl View for ParseError {
    type V = ParseErrorV;

    open spec fn view(&self) -> ParseErrorV {
        match self {
            ParseError::MalformedDirective(s) => ParseErrorV::MalformedDirective(s@),
            ParseError::MalformedAttribute(s) => ParseErrorV::MalformedAttribute(s@),
            ParseError::MalformedClause(s) => ParseErrorV::MalformedClause(s@),
            ParseError::UnresolvedParent(s) => ParseErrorV::UnresolvedParent(s@),
        }
    }
}

// ---------------------------------------------------------------------------
// Ordered key/value maps as sequences of pairs.
// ---------------------------------------------------------------------------
/// Whether the pair sequence holds key `k`.
pub open spec fn amap_has(m: Seq<(Seq<char>, Seq<char>)>, k: Seq<char>) -> bool {
    exists|i: int| 0 <= i < m.len() && m[i].0 == k
}

/// Insert with map semantics, deterministically ordered: an existing key is
/// updated in place, a new key is appended.
pub open spec fn amap_insert(
    m: Seq<(Seq<char>, Seq<char>)>,
    k: Seq<char>,
    v: Seq<char>,
) -> Seq<(Seq<char>, Seq<char>)>
    decreases m.len(),
{
    if m.len() == 0 {
        seq![(k, v)]
    } else if m[0].0 == k {
        seq![(k, v)] + m.drop_first()
    } else {
        seq![m[0]] + amap_insert(m.drop_first(), k, v)
    }
}

// ---------------------------------------------------------------------------
// The grammar, as spec functions.
// ---------------------------------------------------------------------------
/// The directive prefix that opens the tree scope.
pub open spec fn start_marker() -> Seq<char> {
    seq![':', 's', 't', 'a', 'r', 't', '-', 't', 'r', 'e', 'e']
}

/// The directive line that closes the tree scope.
pub open spec fn end_marker() -> Seq<char> {
    seq![':', 'e', 'n', 'd', '-', 't', 'r', 'e', 'e', ':']
}

/// Split an attribute pair at its first `=`: key before, value after.
/// `None` when the fragment has no `=` at all.
pub open spec fn split_first_eq(p: Seq<char>) -> Option<(Seq<char>, Seq<char>)> {
    match find_char(p, '=') {
        None => None,
        Some(i) => if 0 <= i < p.len() {
            Some((p.subrange(0, i), p.subrange(i + 1, p.len() as int)))
        } else {
            None
        },
    }
}

/// Fold the attribute fragments from index `i` on into the map `m`: each
/// fragment must split at an `=`, key and value are trimmed, a repeated key
/// is overwritten. The error carries the fragment without an `=`.
pub open spec fn parse_attrs(
    m: Seq<(Seq<char>, Seq<char>)>,
    frags: Seq<Seq<char>>,
    i: int,
) -> Result<Seq<(Seq<char>, Seq<char>)>, Seq<char>>
    decreases frags.len() - i,
{
    if i < 0 || i >= frags.len() {
        Ok(m)
    } else {
        match split_first_eq(frags[i]) {
            None => Err(frags[i]),
            Some((k, w)) => parse_attrs(amap_insert(m, trim_of(k), trim_of(w)), frags, i + 1),
        }
    }
}

/// Parse a comma-separated attribute list into the map `m`.
pub open spec fn parse_attr_list(
    m: Seq<(Seq<char>, Seq<char>)>,
    s: Seq<char>,
) -> Result<Seq<(Seq<char>, Seq<char>)>, Seq<char>> {
    parse_attrs(m, split_char(s, ','), 0)
}

/// What one node clause declares.
#[verifier::ext_equal]
pub ghost struct ClauseV {
    pub name: Seq<char>,
    pub parent: Option<Seq<char>>,
    pub attributes: Seq<(Seq<char>, Seq<char>)>,
}

/// Parse `NAME` or `NAME(PARENT)` from the clause remainder (the part before
/// any `[`). A `(` without a later `)` is a malformed clause.
pub open spec fn parse_clause_name(rem: Seq<char>) -> Result<
    (Seq<char>, Option<Seq<char>>),
    ParseErrorV,
> {
    match find_char(rem, '(') {
        None => Ok((rem, None)),
        Some(p) => if 0 <= p < rem.len() {
            match find_char_from(rem, ')', p + 1) {
                None => Err(ParseErrorV::MalformedClause(rem)),
                Some(q) => if p < q <= rem.len() {
                    Ok((rem.subrange(0, p), Some(rem.subrange(p + 1, q))))
                } else {
                    Err(ParseErrorV::MalformedClause(rem))
                },
            }
        } else {
            Ok((rem, None))
        },
    }
}

/// Parse one trimmed, nonempty node clause: the attribute block is located
/// first (first `[` to the first `]` after it), then name and parent are
/// read from the part before the `[`.
pub open spec fn parse_clause(tok: Seq<char>) -> Result<ClauseV, ParseErrorV> {
    match find_char(tok, '[') {
        None => match parse_clause_name(tok) {
            Err(e) => Err(e),
            Ok((name, parent)) => Ok(ClauseV { name, parent, attributes: seq![] }),
        },
        Some(i) => if 0 <= i < tok.len() {
            match find_char_from(tok, ']', i + 1) {
                None => Err(ParseErrorV::MalformedClause(tok)),
                Some(j) => if i < j <= tok.len() {
                    match parse_attr_list(seq![], tok.subrange(i + 1, j)) {
                        Err(frag) => Err(ParseErrorV::MalformedAttribute(frag)),
                        Ok(attributes) => match parse_clause_name(tok.subrange(0, i)) {
                            Err(e) => Err(e),
                            Ok((name, parent)) => Ok(ClauseV { name, parent, attributes }),
                        },
                    }
                } else {
                    Err(ParseErrorV::MalformedClause(tok))
                },
            }
        } else {
            Err(ParseErrorV::MalformedClause(tok))
        },
    }
}

/// What a node registers during the scan: its name and the attributes of its
/// first registration.
#[verifier::ext_equal]
pub ghost struct RegV {
    pub name: Seq<char>,
    pub attributes: Seq<(Seq<char>, Seq<char>)>,
}

/// The scan state: whether the tree scope is open, the tree attributes, the
/// registered nodes, and the child-to-parent map in first-seen order.
#[verifier::ext_equal]
pub ghost struct PStateV {
    pub in_tree: bool,
    pub tattrs: Seq<(Seq<char>, Seq<char>)>,
    pub reg: Seq<RegV>,
    pub pmap: Seq<(Seq<char>, Seq<char>)>,
}

/// Whether a node of this name was already registered.
pub open spec fn reg_has(reg: Seq<RegV>, name: Seq<char>) -> bool {
    exists|i: int| 0 <= i < reg.len() && reg[i].name == name
}

/// Apply one parsed clause: register the node unless its name is taken
/// (first registration wins for attributes), and record the parent
/// reference, a later one replacing an earlier one for the same child.
pub open spec fn apply_clause(st: PStateV, cl: ClauseV) -> PStateV {
    PStateV {
        in_tree: st.in_tree,
        tattrs: st.tattrs,
        reg: if reg_has(st.reg, cl.name) {
            st.reg
        } else {
            st.reg.push(RegV { name: cl.name, attributes: cl.attributes })
        },
        pmap: match cl.parent {
            None => st.pmap,
            Some(p) => amap_insert(st.pmap, cl.name, p),
        },
    }
}

/// Fold the `;`-separated tokens of one in-scope line from index `i` on;
/// empty tokens (after trimming) are skipped.
pub open spec fn process_tokens(st: PStateV, toks: Seq<Seq<char>>, i: int) -> Result<
    PStateV,
    ParseErrorV,
>
    decreases toks.len() - i,
{
    if i < 0 || i >= toks.len() {
        Ok(st)
    } else {
        let t = trim_of(toks[i]);
        if t.len() == 0 {
            process_tokens(st, toks, i + 1)
        } else {
            match parse_clause(t) {
                Err(e) => Err(e),
                Ok(cl) => process_tokens(apply_clause(st, cl), toks, i + 1),
            }
        }
    }
}

/// Process a `:start-tree` directive line: record its attribute block, if
/// any, and open the tree scope. A `[` without a later `]` is a malformed
/// directive; a bad pair inside the block is a malformed attribute.
pub open spec fn process_start_line(st: PStateV, line: Seq<char>) -> Result<
    PStateV,
    ParseErrorV,
> {
    match find_char(line, '[') {
        None => Ok(PStateV { in_tree: true, ..st }),
        Some(i) => if 0 <= i < line.len() {
            match find_char_from(line, ']', i + 1) {
                None => Err(ParseErrorV::MalformedDirective(line)),
                Some(j) => if i < j <= line.len() {
                    match parse_attr_list(st.tattrs, line.subrange(i + 1, j)) {
                        Err(frag) => Err(ParseErrorV::MalformedAttribute(frag)),
                        Ok(tattrs) => Ok(PStateV { in_tree: true, tattrs, ..st }),
                    }
                } else {
                    Err(ParseErrorV::MalformedDirective(line))
                },
            }
        } else {
            Ok(PStateV { in_tree: true, ..st })
        },
    }
}

/// Process one raw line. The boolean is the stop signal: scanning ends at
/// the first `:end-tree:` line. Blank lines and lines outside the scope are
/// ignored.
pub open spec fn process_line(st: PStateV, raw: Seq<char>) -> Result<
    (PStateV, bool),
    ParseErrorV,
> {
    let line = trim_of(raw);
    if line.len() == 0 {
        Ok((st, false))
    } else if seq_starts_with(line, start_marker()) {
        match process_start_line(st, line) {
            Err(e) => Err(e),
            Ok(st2) => Ok((st2, false)),
        }
    } else if line == end_marker() {
        Ok((st, true))
    } else if !st.in_tree {
        Ok((st, false))
    } else {
        match process_tokens(st, split_char(line, ';'), 0) {
            Err(e) => Err(e),
            Ok(st2) => Ok((st2, false)),
        }
    }
}

/// Fold all lines from index `i` on, stopping early at `:end-tree:`.
pub open spec fn process_lines(st: PStateV, lines: Seq<Seq<char>>, i: int) -> Result<
    PStateV,
    ParseErrorV,
>
    decreases lines.len() - i,
{
    if i < 0 || i >= lines.len() {
        Ok(st)
    } else {
        match process_line(st, lines[i]) {
            Err(e) => Err(e),
            Ok((st2, true)) => Ok(st2),
            Ok((st2, false)) => process_lines(st2, lines, i + 1),
        }
    }
}

/// Index of the first node with this name.
pub open spec fn node_idx(nodes: Seq<NodeV>, name: Seq<char>) -> Option<int>
    decreases nodes.len(),
{
    if nodes.len() == 0 {
        None
    } else if nodes[0].name == name {
        Some(0)
    } else {
        match node_idx(nodes.drop_first(), name) {
            None => None,
            Some(k) => Some(k + 1),
        }
    }
}

/// Resolve the recorded (child, parent) pairs from index `i` on: each parent
/// must be a registered node, and the child name is appended to its child
/// sequence in pair order.
pub open spec fn attach(
    nodes: Seq<NodeV>,
    pmap: Seq<(Seq<char>, Seq<char>)>,
    i: int,
) -> Result<Seq<NodeV>, ParseErrorV>
    decreases pmap.len() - i,
{
    if i < 0 || i >= pmap.len() {
        Ok(nodes)
    } else {
        match node_idx(nodes, pmap[i].1) {
            None => Err(ParseErrorV::UnresolvedParent(pmap[i].1)),
            Some(k) => if 0 <= k < nodes.len() {
                attach(
                    nodes.update(
                        k,
                        NodeV { children: nodes[k].children.push(pmap[i].0), ..nodes[k] },
                    ),
                    pmap,
                    i + 1,
                )
            } else {
                Err(ParseErrorV::UnresolvedParent(pmap[i].1))
            },
        }
    }
}

/// The registered nodes as childless tree nodes, in registration order.
pub open spec fn initial_nodes(reg: Seq<RegV>) -> Seq<NodeV> {
    Seq::new(
        reg.len(),
        |i: int| NodeV { name: reg[i].name, children: seq![], attributes: reg[i].attributes },
    )
}

/// The scan state before the first line.
pub open spec fn init_state() -> PStateV {
    PStateV { in_tree: false, tattrs: seq![], reg: seq![], pmap: seq![] }
}

/// What parsing an input means: split into lines, fold the scan over them,
/// then resolve every recorded parent reference.
pub open spec fn parse_tree_spec(input: Seq<char>) -> Result<TreeV, ParseErrorV> {
    match process_lines(init_state(), split_char(input, '\n'), 0) {
        Err(e) => Err(e),
        Ok(st) => match attach(initial_nodes(st.reg), st.pmap, 0) {
            Err(e) => Err(e),
            Ok(nodes) => Ok(TreeV { nodes, tree_attributes: st.tattrs }),
        },
    }
}

// ---------------------------------------------------------------------------
// The executable parser, proved against the spec functions above.
// ---------------------------------------------------------------------------
proof fn lemma_amap_insert_found(
    m: Seq<(Seq<char>, Seq<char>)>,
    k: Seq<char>,
    v: Seq<char>,
    j: int,
)
    requires
        0 <= j < m.len(),
        m[j].0 == k,
        forall|i: int| 0 <= i < j ==> m[i].0 != k,
    ensures
        amap_insert(m, k, v) =~= m.update(j, (k, v)),
    decreases j,
{
    if j == 0 {
        assert(seq![(k, v)] + m.drop_first() =~= m.update(0, (k, v)));
    } else {
        let t = m.drop_first();
        assert(forall|i: int| 0 <= i < j - 1 ==> t[i].0 != k);
        lemma_amap_insert_found(t, k, v, j - 1);
        assert(seq![m[0]] + t.update(j - 1, (k, v)) =~= m.update(j, (k, v)));
    }
}

pub proof fn lemma_amap_insert_absent(m: Seq<(Seq<char>, Seq<char>)>, k: Seq<char>, v: Seq<char>)
    requires
        forall|i: int| 0 <= i < m.len() ==> m[i].0 != k,
    ensures
        amap_insert(m, k, v) =~= m.push((k, v)),
    decreases m.len(),
{
    if m.len() == 0 {
    } else {
        let t = m.drop_first();
        assert(forall|i: int| 0 <= i < t.len() ==> t[i].0 != k);
        lemma_amap_insert_absent(t, k, v);
        assert(seq![m[0]] + t.push((k, v)) =~= m.push((k, v)));
    }
}

/// Map-style insert on the pair vector, proved against `amap_insert`.
fn amap_set(m: &mut Vec<(String, String)>, k: String, v: String)
    ensures
        pairs_view(final(m)@) == amap_insert(pairs_view(old(m)@), k@, v@),
{
    let n = m.len();
    let mut j: usize = 0;
    while j < n
        invariant
            j <= n == m@.len(),
            m@ == old(m)@,
            forall|i: int| 0 <= i < j ==> pairs_view(m@)[i].0 != k@,
        decreases n - j,
    {
        let hit = str_eq(m[j].0.as_str(), k.as_str());
        if hit {
            proof {
                lemma_amap_insert_found(pairs_view(m@), k@, v@, j as int);
            }
            m[j] = (k, v);
            proof {
                assert(pairs_view(final(m)@) =~= pairs_view(old(m)@).update(
                    j as int,
                    (k@, v@),
                ));
            }
            return ;
        }
        j = j + 1;
    }
    proof {
        lemma_amap_insert_absent(pairs_view(m@), k@, v@);
    }
    m.push((k, v));
    proof {
        assert(pairs_view(final(m)@) =~= pairs_view(old(m)@).push((k@, v@)));
    }
}

/// Parse a comma-separated attribute list into the pair vector, proved
/// against `parse_attr_list`; the error is the fragment without an `=`.
fn attrs_into(m: &mut Vec<(String, String)>, s: &str) -> (r: Result<(), String>)
    ensures
        match r {
            Ok(_) => parse_attr_list(pairs_view(old(m)@), s@) == Ok::<_, Seq<char>>(
                pairs_view(final(m)@),
            ),
            Err(frag) => parse_attr_list(pairs_view(old(m)@), s@) == Err::<
                Seq<(Seq<char>, Seq<char>)>,
                _,
            >(frag@),
        },
{
    let frags = split_str(s, ',');
    let ghost fragsv = split_char(s@, ',');
    let n = frags.len();
    let mut idx: usize = 0;
    while idx < n
        invariant
            idx <= n == frags@.len(),
            fragsv == split_char(s@, ','),
            fragsv.len() == n,
            forall|i: int| 0 <= i < n ==> frags@[i]@ == fragsv[i],
            parse_attr_list(pairs_view(old(m)@), s@) == parse_attrs(
                pairs_view(m@),
                fragsv,
                idx as int,
            ),
        decreases n - idx,
    {
        let frag = &frags[idx];
        let flen = frag.as_str().unicode_len();
        match find_from(frag.as_str(), 0, '=') {
            None => {
                return Err(frag.clone());
            },
            Some(i) => {
                let key = trim_str(substr(frag.as_str(), 0, i).as_str());
                let val = trim_str(substr(frag.as_str(), i + 1, flen).as_str());
                amap_set(m, key, val);
                idx = idx + 1;
            },
        }
    }
    Ok(())
}

proof fn lemma_node_idx_found(nodes: Seq<NodeV>, name: Seq<char>, j: int)
    requires
        0 <= j < nodes.len(),
        nodes[j].name == name,
        forall|i: int| 0 <= i < j ==> nodes[i].name != name,
    ensures
        node_idx(nodes, name) == Some(j),
    decreases j,
{
    if j == 0 {
    } else {
        let t = nodes.drop_first();
        assert(forall|i: int| 0 <= i < j - 1 ==> t[i].name != name);
        lemma_node_idx_found(t, name, j - 1);
    }
}

proof fn lemma_node_idx_absent(nodes: Seq<NodeV>, name: Seq<char>)
    requires
        forall|i: int| 0 <= i < nodes.len() ==> nodes[i].name != name,
    ensures
        node_idx(nodes, name) is None,
    decreases nodes.len(),
{
    if nodes.len() == 0 {
    } else {
        let t = nodes.drop_first();
        assert(forall|i: int| 0 <= i < t.len() ==> t[i].name != name);
        lemma_node_idx_absent(t, name);
    }
}

/// First node with this name, proved against `node_idx`.
fn find_node_idx(nodes: &Vec<Node>, name: &str) -> (r: Option<usize>)
    ensures
        match r {
            Some(k) => k < nodes@.len() && nodes@[k as int].name@ == name@ && node_idx(
                nodes_view(nodes@),
                name@,
            ) == Some(k as int),
            None => node_idx(nodes_view(nodes@), name@) is None && forall|i: int|
                0 <= i < nodes@.len() ==> nodes@[i].name@ != name@,
        },
{
    let n = nodes.len();
    let mut j: usize = 0;
    while j < n
        invariant
            j <= n == nodes@.len(),
            forall|i: int| 0 <= i < j ==> nodes@[i].name@ != name@,
        decreases n - j,
    {
        let hit = str_eq(nodes[j].name.as_str(), name);
        if hit {
            proof {
                assert forall|i: int| 0 <= i < j implies #[trigger] nodes_view(
                    nodes@,
                )[i].name != name@ by {
                    assert(nodes@[i].name@ != name@);
                }
                assert(nodes_view(nodes@)[j as int].name == nodes@[j as int].name@);
                lemma_node_idx_found(nodes_view(nodes@), name@, j as int);
            }
            return Some(j);
        }
        j = j + 1;
    }
    proof {
        assert forall|i: int| 0 <= i < nodes@.len() implies #[trigger] nodes_view(
            nodes@,
        )[i].name != name@ by {
            assert(nodes@[i].name@ != name@);
        }
        lemma_node_idx_absent(nodes_view(nodes@), name@);
    }
    None
}

/// The registration view of the scan's node vector.
pub open spec fn reg_of(nodes: Seq<Node>) -> Seq<RegV> {
    Seq::new(
        nodes.len(),
        |i: int| RegV { name: nodes[i].name@, attributes: pairs_view(nodes[i].attributes@) },
    )
}

/// During the scan no children have been attached yet.
pub open spec fn scan_wf(nodes: Seq<Node>) -> bool {
    forall|i: int| 0 <= i < nodes.len() ==> nodes[i].children@.len() == 0
}

/// The scan state assembled from the executable pieces.
pub open spec fn scan_st(
    in_tree: bool,
    tattrs: Seq<(String, String)>,
    nodes: Seq<Node>,
    pmap: Seq<(String, String)>,
) -> PStateV {
    PStateV {
        in_tree,
        tattrs: pairs_view(tattrs),
        reg: reg_of(nodes),
        pmap: pairs_view(pmap),
    }
}

/// Register the node named in `rem` (with `attrs` from its clause) and
/// record its parent reference, proved against `parse_clause_name` and
/// `apply_clause`.
fn apply_rest(
    nodes: &mut Vec<Node>,
    pmap: &mut Vec<(String, String)>,
    rem: &str,
    attrs: Vec<(String, String)>,
) -> (r: Result<(), ParseError>)
    ensures
        match r {
            Ok(_) => parse_clause_name(rem@) matches Ok((name, parent)) && {
                let st1 = apply_clause(
                    scan_st(false, seq![], old(nodes)@, old(pmap)@),
                    ClauseV { name, parent, attributes: pairs_view(attrs@) },
                );
                &&& reg_of(final(nodes)@) == st1.reg
                &&& pairs_view(final(pmap)@) == st1.pmap
                &&& (scan_wf(old(nodes)@) ==> scan_wf(final(nodes)@))
            },
            Err(e) => parse_clause_name(rem@) == Err::<(Seq<char>, Option<Seq<char>>), _>(e@)
                && final(nodes)@ == old(nodes)@ && final(pmap)@ == old(pmap)@,
        },
{
    let rlen = rem.unicode_len();
    let name: String;
    let parent: Option<String>;
    match find_from(rem, 0, '(') {
        None => {
            name = substr(rem, 0, rlen);
            parent = None;
            proof {
                assert(name@ =~= rem@);
            }
        },
        Some(p) => {
            match find_from(rem, p + 1, ')') {
                None => {
                    return Err(ParseError::MalformedClause(String::from_str(rem)));
                },
                Some(q) => {
                    name = substr(rem, 0, p);
                    parent = Some(substr(rem, p + 1, q));
                },
            }
        },
    }
    let ghost clv = ClauseV {
        name: name@,
        parent: match parent {
            Some(ref par) => Some(par@),
            None => None,
        },
        attributes: pairs_view(attrs@),
    };
    proof {
        assert(parse_clause_name(rem@) == Ok::<_, ParseErrorV>((clv.name, clv.parent)));
    }
    match find_node_idx(nodes, name.as_str()) {
        Some(k) => {
            proof {
                assert(reg_has(reg_of(nodes@), name@)) by {
                    assert(reg_of(nodes@)[k as int].name == name@);
                }
            }
        },
        None => {
            proof {
                assert(forall|i: int|
                    0 <= i < reg_of(nodes@).len() ==> #[trigger] reg_of(nodes@)[i].name != name@);
                assert(!reg_has(reg_of(nodes@), name@));
            }
            nodes.push(Node { name: name.clone(), children: Vec::new(), attributes: attrs });
            proof {
                assert(reg_of(nodes@) =~= reg_of(old(nodes)@).push(
                    RegV { name: name@, attributes: clv.attributes },
                ));
            }
        },
    }
    match parent {
        None => {},
        Some(par) => {
            amap_set(pmap, name, par);
        },
    }
    Ok(())
}

/// Apply one trimmed, nonempty clause token to the scan state, proved
/// against `parse_clause` and `apply_clause`.
fn apply_clause_exec(
    nodes: &mut Vec<Node>,
    pmap: &mut Vec<(String, String)>,
    tok: &str,
) -> (r: Result<(), ParseError>)
    ensures
        match r {
            Ok(_) => parse_clause(tok@) matches Ok(cl) && {
                let st1 = apply_clause(scan_st(false, seq![], old(nodes)@, old(pmap)@), cl);
                &&& reg_of(final(nodes)@) == st1.reg
                &&& pairs_view(final(pmap)@) == st1.pmap
                &&& (scan_wf(old(nodes)@) ==> scan_wf(final(nodes)@))
            },
            Err(e) => parse_clause(tok@) == Err::<ClauseV, _>(e@) && final(nodes)@ == old(nodes)@
                && final(pmap)@ == old(pmap)@,
        },
{
    let tlen = tok.unicode_len();
    match find_from(tok, 0, '[') {
        None => {
            let r = apply_rest(nodes, pmap, tok, Vec::new());
            proof {
                assert(pairs_view(Seq::<(String, String)>::empty()) =~= Seq::<
                    (Seq<char>, Seq<char>),
                >::empty());
            }
            r
        },
        Some(i) => {
            match find_from(tok, i + 1, ']') {
                None => Err(ParseError::MalformedClause(String::from_str(tok))),
                Some(j) => {
                    let mut attrs: Vec<(String, String)> = Vec::new();
                    let inner = substr(tok, i + 1, j);
                    proof {
                        assert(pairs_view(Seq::<(String, String)>::empty()) =~= Seq::<
                            (Seq<char>, Seq<char>),
                        >::empty());
                    }
                    match attrs_into(&mut attrs, inner.as_str()) {
                        Err(frag) => Err(ParseError::MalformedAttribute(frag)),
                        Ok(_) => {
                            let rem = substr(tok, 0, i);
                            apply_rest(nodes, pmap, rem.as_str(), attrs)
                        },
                    }
                },
            }
        },
    }
}

/// Apply the clauses of one in-scope line, proved against `process_tokens`.
fn process_tokens_exec(
    nodes: &mut Vec<Node>,
    pmap: &mut Vec<(String, String)>,
    line: &str,
) -> (r: Result<(), ParseError>)
    ensures
        match r {
            Ok(_) => process_tokens(
                scan_st(false, seq![], old(nodes)@, old(pmap)@),
                split_char(line@, ';'),
                0,
            ) == Ok::<_, ParseErrorV>(scan_st(false, seq![], final(nodes)@, final(pmap)@))
                && (scan_wf(old(nodes)@) ==> scan_wf(final(nodes)@)),
            Err(e) => process_tokens(
                scan_st(false, seq![], old(nodes)@, old(pmap)@),
                split_char(line@, ';'),
                0,
            ) == Err::<PStateV, _>(e@),
        },
{
    let toks = split_str(line, ';');
    let ghost toksv = split_char(line@, ';');
    let n = toks.len();
    let mut idx: usize = 0;
    while idx < n
        invariant
            idx <= n == toks@.len(),
            toksv == split_char(line@, ';'),
            toksv.len() == n,
            forall|i: int| 0 <= i < n ==> toks@[i]@ == toksv[i],
            scan_wf(old(nodes)@) ==> scan_wf(nodes@),
            process_tokens(scan_st(false, seq![], old(nodes)@, old(pmap)@), toksv, 0)
                == process_tokens(scan_st(false, seq![], nodes@, pmap@), toksv, idx as int),
        decreases n - idx,
    {
        let t = trim_str(toks[idx].as_str());
        if t.as_str().unicode_len() == 0 {
            idx = idx + 1;
        } else {
            match apply_clause_exec(nodes, pmap, t.as_str()) {
                Err(e) => {
                    return Err(e);
                },
                Ok(_) => {
                    idx = idx + 1;
                },
            }
        }
    }
    Ok(())
}

/// Record the attribute block of a `:start-tree` line, proved against
/// `process_start_line` (the caller flips the scope flag).
fn process_start_exec(tattrs: &mut Vec<(String, String)>, line: &str) -> (r: Result<
    (),
    ParseError,
>)
    ensures
        match r {
            Ok(_) => process_start_line(scan_st(false, old(tattrs)@, seq![], seq![]), line@)
                == Ok::<_, ParseErrorV>(scan_st(true, final(tattrs)@, seq![], seq![])),
            Err(e) => process_start_line(scan_st(false, old(tattrs)@, seq![], seq![]), line@)
                == Err::<PStateV, _>(e@),
        },
{
    let llen = line.unicode_len();
    match find_from(line, 0, '[') {
        None => Ok(()),
        Some(i) => {
            match find_from(line, i + 1, ']') {
                None => Err(ParseError::MalformedDirective(String::from_str(line))),
                Some(j) => {
                    let inner = substr(line, i + 1, j);
                    match attrs_into(tattrs, inner.as_str()) {
                        Err(frag) => Err(ParseError::MalformedAttribute(frag)),
                        Ok(_) => Ok(()),
                    }
                },
            }
        },
    }
}

/// Folding clauses neither reads nor changes the scope flag and the tree
/// attributes, and the registered nodes and parent map that come out depend
/// only on those that went in.
proof fn lemma_process_tokens_frame(st1: PStateV, st2: PStateV, toks: Seq<Seq<char>>, i: int)
    requires
        st1.reg == st2.reg,
        st1.pmap == st2.pmap,
    ensures
        match (process_tokens(st1, toks, i), process_tokens(st2, toks, i)) {
            (Ok(r1), Ok(r2)) => r1.reg == r2.reg && r1.pmap == r2.pmap && r1.in_tree
                == st1.in_tree && r1.tattrs == st1.tattrs && r2.in_tree == st2.in_tree
                && r2.tattrs == st2.tattrs,
            (Err(e1), Err(e2)) => e1 == e2,
            _ => false,
        },
    decreases toks.len() - i,
{
    if i < 0 || i >= toks.len() {
    } else {
        let t = trim_of(toks[i]);
        if t.len() == 0 {
            lemma_process_tokens_frame(st1, st2, toks, i + 1);
        } else {
            match parse_clause(t) {
                Err(_) => {},
                Ok(cl) => {
                    lemma_process_tokens_frame(apply_clause(st1, cl), apply_clause(st2, cl), toks, i + 1);
                },
            }
        }
    }
}

/// Resolve every recorded (child, parent) pair, appending each child name to
/// its parent's child sequence; proved against `attach`.
fn attach_exec(nodes: &mut Vec<Node>, pmap: &Vec<(String, String)>) -> (r: Result<(), ParseError>)
    ensures
        match r {
            Ok(_) => attach(nodes_view(old(nodes)@), pairs_view(pmap@), 0) == Ok::<
                _,
                ParseErrorV,
            >(nodes_view(final(nodes)@)),
            Err(e) => attach(nodes_view(old(nodes)@), pairs_view(pmap@), 0) == Err::<
                Seq<NodeV>,
                _,
            >(e@),
        },
{
    let n = pmap.len();
    let mut i: usize = 0;
    while i < n
        invariant
            i <= n == pmap@.len(),
            attach(nodes_view(old(nodes)@), pairs_view(pmap@), 0) == attach(
                nodes_view(nodes@),
                pairs_view(pmap@),
                i as int,
            ),
        decreases n - i,
    {
        let pair = &pmap[i];
        match find_node_idx(nodes, pair.1.as_str()) {
            None => {
                return Err(ParseError::UnresolvedParent(pair.1.clone()));
            },
            Some(k) => {
                let ghost before = nodes@;
                let child = pair.0.clone();
                nodes[k].children.push(child);
                proof {
                    assert(nodes_view(nodes@) =~~= nodes_view(before).update(
                        k as int,
                        NodeV {
                            children: nodes_view(before)[k as int].children.push(
                                pairs_view(pmap@)[i as int].0,
                            ),
                            ..nodes_view(before)[k as int]
                        },
                    ));
                }
                i = i + 1;
            },
        }
    }
    Ok(())
}

/// Parse the textual tree description.
///
/// Grammar: a `:start-tree[k=v,...]:` line opens the tree scope; `:end-tree:`
/// closes it (content after it is ignored); lines outside the scope are
/// ignored; within it, each line holds `;`-separated clauses
/// `NAME(PARENT)[k=v,...]`, the parent and the attribute list optional.
/// Parsing is all-or-nothing: the result is exactly `parse_tree_spec` of the
/// input, a `Tree` on success and the first error otherwise.
pub fn parse_tree(input: &str) -> (r: Result<Tree, ParseError>)
    ensures
        match r {
            Ok(t) => parse_tree_spec(input@) == Ok::<TreeV, ParseErrorV>(t@),
            Err(e) => parse_tree_spec(input@) == Err::<TreeV, ParseErrorV>(e@),
        },
{
    let lines = split_str(input, '\n');
    let ghost linesv = split_char(input@, '\n');
    let mut in_tree = false;
    let mut tattrs: Vec<(String, String)> = Vec::new();
    let mut nodes: Vec<Node> = Vec::new();
    let mut pmap: Vec<(String, String)> = Vec::new();
    let n = lines.len();
    let mut li: usize = 0;
    let mut stopped = false;
    proof {
        assert(scan_st(false, tattrs@, nodes@, pmap@) =~~= init_state());
    }
    while li < n && !stopped
        invariant
            li <= n == lines@.len(),
            linesv == split_char(input@, '\n'),
            linesv.len() == n,
            forall|i: int| 0 <= i < n ==> lines@[i]@ == linesv[i],
            scan_wf(nodes@),
            if stopped {
                process_lines(init_state(), linesv, 0) == Ok::<_, ParseErrorV>(
                    scan_st(in_tree, tattrs@, nodes@, pmap@),
                )
            } else {
                process_lines(init_state(), linesv, 0) == process_lines(
                    scan_st(in_tree, tattrs@, nodes@, pmap@),
                    linesv,
                    li as int,
                )
            },
        decreases n - li,
    {
        proof {
            reveal_strlit(":start-tree");
            reveal_strlit(":end-tree:");
            assert(":start-tree"@ =~= start_marker());
            assert(":end-tree:"@ =~= end_marker());
        }
        let ghost st_before = scan_st(in_tree, tattrs@, nodes@, pmap@);
        let raw = &lines[li];
        let line = trim_str(raw.as_str());
        let llen = line.as_str().unicode_len();
        proof {
            assert(line@ == trim_of(linesv[li as int]));
        }
        if llen == 0 {
            proof {
                assert(process_line(st_before, linesv[li as int]) == Ok::<_, ParseErrorV>(
                    (st_before, false),
                ));
                assert(process_lines(st_before, linesv, li as int) == process_lines(
                    st_before,
                    linesv,
                    li + 1,
                ));
            }
            li = li + 1;
        } else if starts_with_str(line.as_str(), ":start-tree") {
            match process_start_exec(&mut tattrs, line.as_str()) {
                Err(e) => {
                    proof {
                        assert(process_start_line(st_before, line@) == Err::<PStateV, _>(e@));
                        assert(process_line(st_before, linesv[li as int]) == Err::<
                            (PStateV, bool),
                            _,
                        >(e@));
                        assert(process_lines(st_before, linesv, li as int) == Err::<PStateV, _>(
                            e@,
                        ));
                        assert(parse_tree_spec(input@) == Err::<TreeV, ParseErrorV>(e@));
                    }
                    return Err(e);
                },
                Ok(_) => {
                    in_tree = true;
                    proof {
                        let st_after = scan_st(true, tattrs@, nodes@, pmap@);
                        assert(process_start_line(st_before, line@) == Ok::<_, ParseErrorV>(
                            st_after,
                        ));
                        assert(process_line(st_before, linesv[li as int]) == Ok::<
                            _,
                            ParseErrorV,
                        >((st_after, false)));
                        assert(process_lines(st_before, linesv, li as int) == process_lines(
                            st_after,
                            linesv,
                            li + 1,
                        ));
                    }
                    li = li + 1;
                },
            }
        } else if str_eq(line.as_str(), ":end-tree:") {
            proof {
                assert(line@ == end_marker());
                assert(process_line(st_before, linesv[li as int]) == Ok::<_, ParseErrorV>(
                    (st_before, true),
                ));
                assert(process_lines(st_before, linesv, li as int) == Ok::<_, ParseErrorV>(
                    st_before,
                ));
            }
            stopped = true;
            li = li + 1;
        } else if !in_tree {
            proof {
                assert(process_line(st_before, linesv[li as int]) == Ok::<_, ParseErrorV>(
                    (st_before, false),
                ));
                assert(process_lines(st_before, linesv, li as int) == process_lines(
                    st_before,
                    linesv,
                    li + 1,
                ));
            }
            li = li + 1;
        } else {
            let ghost st_tok = scan_st(false, Seq::<(String, String)>::empty(), nodes@, pmap@);
            match process_tokens_exec(&mut nodes, &mut pmap, line.as_str()) {
                Err(e) => {
                    proof {
                        lemma_process_tokens_frame(
                            st_before,
                            st_tok,
                            split_char(line@, ';'),
                            0,
                        );
                        assert(process_tokens(st_before, split_char(line@, ';'), 0) == Err::<
                            PStateV,
                            _,
                        >(e@));
                        assert(process_line(st_before, linesv[li as int]) == Err::<
                            (PStateV, bool),
                            _,
                        >(e@));
                        assert(process_lines(st_before, linesv, li as int) == Err::<PStateV, _>(
                            e@,
                        ));
                        assert(parse_tree_spec(input@) == Err::<TreeV, ParseErrorV>(e@));
                    }
                    return Err(e);
                },
                Ok(_) => {
                    proof {
                        let st_after = scan_st(in_tree, tattrs@, nodes@, pmap@);
                        lemma_process_tokens_frame(
                            st_before,
                            st_tok,
                            split_char(line@, ';'),
                            0,
                        );
                        assert(process_tokens(st_before, split_char(line@, ';'), 0) matches Ok(
                            r1,
                        ) && r1 =~~= st_after);
                        assert(process_line(st_before, linesv[li as int]) == Ok::<
                            _,
                            ParseErrorV,
                        >((st_after, false)));
                        assert(process_lines(st_before, linesv, li as int) == process_lines(
                            st_after,
                            linesv,
                            li + 1,
                        ));
                    }
                    li = li + 1;
                },
            }
        }
    }
    let ghost st_end = scan_st(in_tree, tattrs@, nodes@, pmap@);
    proof {
        assert(process_lines(init_state(), linesv, 0) == Ok::<_, ParseErrorV>(st_end));
        assert(initial_nodes(st_end.reg) =~~= nodes_view(nodes@));
    }
    match attach_exec(&mut nodes, &pmap) {
        Err(e) => Err(e),
        Ok(_) => {
            let t = Tree { nodes, tree_attributes: tattrs };
            proof {
                assert(t@ =~~= TreeV {
                    nodes: nodes_view(t.nodes@),
                    tree_attributes: pairs_view(t.tree_attributes@),
                });
            }
            Ok(t)
        },
    }
}

// ---------------------------------------------------------------------------
// Totality of parsing: a parsed tree is well-formed.
// ---------------------------------------------------------------------------
/// Some node of the sequence bears this name.
pub open spec fn has_node_named(nodes: Seq<NodeV>, name: Seq<char>) -> bool {
    exists|k: int| 0 <= k < nodes.len() && nodes[k].name == name
}

/// A well-formed tree: node names are unique, and every name that appears in
/// a child sequence names a node of the same tree.
pub open spec fn tree_wf(t: TreeV) -> bool {
    &&& forall|i: int, j: int|
        #![trigger t.nodes[i].name, t.nodes[j].name]
        0 <= i < j < t.nodes.len() ==> t.nodes[i].name != t.nodes[j].name
    &&& forall|i: int, c: int|
        0 <= i < t.nodes.len() && 0 <= c < t.nodes[i].children.len() ==> has_node_named(
            t.nodes,
            #[trigger] t.nodes[i].children[c],
        )
}

/// The scan invariant: registered names are unique and every recorded child
/// (a key of the parent map) is a registered node.
pub open spec fn scan_inv(st: PStateV) -> bool {
    &&& forall|i: int, j: int|
        #![trigger st.reg[i].name, st.reg[j].name]
        0 <= i < j < st.reg.len() ==> st.reg[i].name != st.reg[j].name
    &&& forall|i: int| 0 <= i < st.pmap.len() ==> reg_has(st.reg, #[trigger] st.pmap[i].0)
}

proof fn lemma_reg_has_push(reg: Seq<RegV>, x: RegV, k: Seq<char>)
    requires
        reg_has(reg, k) || x.name == k,
    ensures
        reg_has(reg.push(x), k),
{
    if reg_has(reg, k) {
        let i = choose|i: int| 0 <= i < reg.len() && reg[i].name == k;
        assert(reg.push(x)[i].name == k);
    } else {
        assert(reg.push(x)[reg.len() as int].name == k);
    }
}

proof fn lemma_amap_insert_keys(m: Seq<(Seq<char>, Seq<char>)>, k: Seq<char>, v: Seq<char>)
    ensures
        forall|i: int|
            0 <= i < amap_insert(m, k, v).len() ==> (#[trigger] amap_insert(m, k, v)[i].0 == k
                || amap_has(m, amap_insert(m, k, v)[i].0)),
    decreases m.len(),
{
    let m2 = amap_insert(m, k, v);
    if m.len() == 0 {
    } else if m[0].0 == k {
        assert forall|i: int| 0 <= i < m2.len() implies (#[trigger] m2[i].0 == k || amap_has(
            m,
            m2[i].0,
        )) by {
            if i > 0 {
                assert(m2[i] == m[i]);
            }
        }
    } else {
        lemma_amap_insert_keys(m.drop_first(), k, v);
        let t2 = amap_insert(m.drop_first(), k, v);
        assert forall|i: int| 0 <= i < m2.len() implies (#[trigger] m2[i].0 == k || amap_has(
            m,
            m2[i].0,
        )) by {
            if i == 0 {
                assert(m2[0] == m[0]);
            } else {
                assert(m2[i] == t2[i - 1]);
                if t2[i - 1].0 != k {
                    let j = choose|j: int|
                        0 <= j < m.drop_first().len() && m.drop_first()[j].0 == t2[i - 1].0;
                    assert(m[j + 1].0 == t2[i - 1].0);
                }
            }
        }
    }
}

proof fn lemma_apply_clause_inv(st: PStateV, cl: ClauseV)
    requires
        scan_inv(st),
    ensures
        scan_inv(apply_clause(st, cl)),
{
    let st2 = apply_clause(st, cl);
    if !reg_has(st.reg, cl.name) {
        assert forall|i: int, j: int|
            #![trigger st2.reg[i].name, st2.reg[j].name]
            0 <= i < j < st2.reg.len() implies st2.reg[i].name != st2.reg[j].name by {
            if j == st.reg.len() {
                assert(st2.reg[i].name == st.reg[i].name);
            }
        }
    }
    assert(reg_has(st2.reg, cl.name)) by {
        if reg_has(st.reg, cl.name) {
            let i = choose|i: int| 0 <= i < st.reg.len() && st.reg[i].name == cl.name;
            assert(st2.reg[i].name == cl.name);
        } else {
            assert(st2.reg[st.reg.len() as int].name == cl.name);
        }
    }
    assert forall|i: int| 0 <= i < st2.pmap.len() implies reg_has(
        st2.reg,
        #[trigger] st2.pmap[i].0,
    ) by {
        match cl.parent {
            None => {
                assert(reg_has(st.reg, st2.pmap[i].0));
                lemma_reg_has_push_opt(st.reg, st2.reg, cl, st2.pmap[i].0);
            },
            Some(p) => {
                lemma_amap_insert_keys(st.pmap, cl.name, p);
                if st2.pmap[i].0 == cl.name {
                } else {
                    assert(amap_has(st.pmap, st2.pmap[i].0));
                    let j = choose|j: int|
                        0 <= j < st.pmap.len() && st.pmap[j].0 == st2.pmap[i].0;
                    assert(reg_has(st.reg, st2.pmap[i].0));
                    lemma_reg_has_push_opt(st.reg, st2.reg, cl, st2.pmap[i].0);
                }
            },
        }
    }
}

proof fn lemma_reg_has_push_opt(reg: Seq<RegV>, reg2: Seq<RegV>, cl: ClauseV, k: Seq<char>)
    requires
        reg_has(reg, k),
        reg2 == reg || reg2 == reg.push(RegV { name: cl.name, attributes: cl.attributes }),
    ensures
        reg_has(reg2, k),
{
    if reg2 == reg.push(RegV { name: cl.name, attributes: cl.attributes }) {
        lemma_reg_has_push(reg, RegV { name: cl.name, attributes: cl.attributes }, k);
    }
}

proof fn lemma_tokens_inv(st: PStateV, toks: Seq<Seq<char>>, i: int)
    requires
        scan_inv(st),
    ensures
        process_tokens(st, toks, i) matches Ok(st2) ==> scan_inv(st2),
    decreases toks.len() - i,
{
    if i < 0 || i >= toks.len() {
    } else {
        let t = trim_of(toks[i]);
        if t.len() == 0 {
            lemma_tokens_inv(st, toks, i + 1);
        } else {
            match parse_clause(t) {
                Err(_) => {},
                Ok(cl) => {
                    lemma_apply_clause_inv(st, cl);
                    lemma_tokens_inv(apply_clause(st, cl), toks, i + 1);
                },
            }
        }
    }
}

proof fn lemma_lines_inv(st: PStateV, lines: Seq<Seq<char>>, i: int)
    requires
        scan_inv(st),
    ensures
        process_lines(st, lines, i) matches Ok(st2) ==> scan_inv(st2),
    decreases lines.len() - i,
{
    if i < 0 || i >= lines.len() {
    } else {
        let line = trim_of(lines[i]);
        match process_line(st, lines[i]) {
            Err(_) => {},
            Ok((st2, stop)) => {
                // a directive line changes only the scope flag and the tree
                // attributes; a clause line goes through the token fold
                if line.len() != 0 && seq_starts_with(line, start_marker()) {
                    assert(st2.reg == st.reg && st2.pmap == st.pmap);
                } else if line.len() != 0 && line != end_marker() && st.in_tree {
                    lemma_tokens_inv(st, split_char(line, ';'), 0);
                }
                if !stop {
                    lemma_lines_inv(st2, lines, i + 1);
                }
            },
        }
    }
}

proof fn lemma_attach_wf(nodes: Seq<NodeV>, pmap: Seq<(Seq<char>, Seq<char>)>, i: int)
    requires
        forall|a: int, b: int|
            #![trigger nodes[a].name, nodes[b].name]
            0 <= a < b < nodes.len() ==> nodes[a].name != nodes[b].name,
        forall|a: int, c: int|
            0 <= a < nodes.len() && 0 <= c < nodes[a].children.len() ==> has_node_named(
                nodes,
                #[trigger] nodes[a].children[c],
            ),
        forall|j: int| i <= j < pmap.len() ==> has_node_named(nodes, #[trigger] pmap[j].0),
    ensures
        attach(nodes, pmap, i) matches Ok(n2) ==> {
            &&& n2.len() == nodes.len()
            &&& forall|a: int| 0 <= a < n2.len() ==> #[trigger] n2[a].name == nodes[a].name
            &&& forall|a: int, b: int|
                #![trigger n2[a].name, n2[b].name]
                0 <= a < b < n2.len() ==> n2[a].name != n2[b].name
            &&& forall|a: int, c: int|
                0 <= a < n2.len() && 0 <= c < n2[a].children.len() ==> has_node_named(
                    n2,
                    #[trigger] n2[a].children[c],
                )
        },
    decreases pmap.len() - i,
{
    if i < 0 || i >= pmap.len() {
    } else {
        match node_idx(nodes, pmap[i].1) {
            None => {},
            Some(k) => {
                if 0 <= k < nodes.len() {
                    let upd = nodes.update(
                        k,
                        NodeV { children: nodes[k].children.push(pmap[i].0), ..nodes[k] },
                    );
                    assert forall|a: int, c: int|
                        0 <= a < upd.len() && 0 <= c < upd[a].children.len() implies has_node_named(
                        upd,
                        #[trigger] upd[a].children[c],
                    ) by {
                        let entry = upd[a].children[c];
                        if a == k && c == nodes[k].children.len() {
                            assert(entry == pmap[i].0);
                            let kk = choose|kk: int|
                                0 <= kk < nodes.len() && nodes[kk].name == pmap[i].0;
                            assert(0 <= kk < upd.len() && upd[kk].name == entry);
                        } else {
                            assert(entry == nodes[a].children[c]);
                            assert(has_node_named(nodes, entry));
                            let kk = choose|kk: int|
                                0 <= kk < nodes.len() && nodes[kk].name == entry;
                            assert(0 <= kk < upd.len() && upd[kk].name == entry);
                        }
                    }
                    assert forall|j: int| i + 1 <= j < pmap.len() implies has_node_named(
                        upd,
                        #[trigger] pmap[j].0,
                    ) by {
                        let kk = choose|kk: int|
                            0 <= kk < nodes.len() && nodes[kk].name == pmap[j].0;
                        assert(0 <= kk < upd.len() && upd[kk].name == pmap[j].0);
                    }
                    assert forall|a: int, b: int|
                        #![trigger upd[a].name, upd[b].name]
                        0 <= a < b < upd.len() implies upd[a].name != upd[b].name by {
                        assert(upd[a].name == nodes[a].name);
                        assert(upd[b].name == nodes[b].name);
                    }
                    lemma_attach_wf(upd, pmap, i + 1);
                }
            },
        }
    }
}

/// Parsing is deterministic: two parses of the same text agree, structurally.
/// The executable parser returns exactly `parse_tree_spec` of its input — a
/// pure function of the text, with no dependence on ambient randomness — so
/// any two results for one input are the same value.
pub proof fn lemma_parse_deterministic(
    input: Seq<char>,
    r1: Result<TreeV, ParseErrorV>,
    r2: Result<TreeV, ParseErrorV>,
)
    requires
        r1 == parse_tree_spec(input),
        r2 == parse_tree_spec(input),
    ensures
        r1 == r2,
{
}

/// Totality of parsing: when `parse_tree` succeeds, every parent reference
/// was resolved, so the tree is well-formed — its node names are unique and
/// every name in a child sequence names a node of the tree.
pub proof fn lemma_parse_tree_wf(input: Seq<char>)
    ensures
        parse_tree_spec(input) matches Ok(t) ==> tree_wf(t),
{
    let lines = split_char(input, '\n');
    lemma_lines_inv(init_state(), lines, 0);
    match process_lines(init_state(), lines, 0) {
        Err(_) => {},
        Ok(st) => {
            let nodes0 = initial_nodes(st.reg);
            assert forall|j: int| 0 <= j < st.pmap.len() implies has_node_named(
                nodes0,
                #[trigger] st.pmap[j].0,
            ) by {
                assert(reg_has(st.reg, st.pmap[j].0));
                let k = choose|k: int| 0 <= k < st.reg.len() && st.reg[k].name == st.pmap[j].0;
                assert(0 <= k < nodes0.len() && nodes0[k].name == st.pmap[j].0);
            }
            lemma_attach_wf(nodes0, st.pmap, 0);
        },
    }
}

} // verus!
