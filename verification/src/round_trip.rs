//! The round-trip law, the defining correctness property of the engine:
//! rendering a well-formed tree and parsing the text back rebuilds the same
//! tree — the same kinds, texts and child order at every node, with ids
//! renumbered canonically from the root.
//!
//! The law holds of every well-formed tree whose texts the text form can
//! carry (no text holds a line terminator or ends in a carriage return, no
//! verbatim item carries a construction-only syntax tag) — in particular of
//! every tree a parse produces whose texts end in no carriage return.

use vstd::prelude::*;

use crate::codec::indent_of;
use crate::codec::is_ws_char;
use crate::codec::join_lines;
use crate::codec::leading_ws;
use crate::codec::lemma_leading_ws_at;
use crate::codec::lemma_leading_ws_le;
use crate::codec::lemma_lookup_bound;
use crate::codec::lemma_split_line;
use crate::codec::lemma_wf_nodes;
use crate::codec::lookup_spec;
use crate::codec::nodes_wf;
use crate::codec::parse_doc_spec;
use crate::codec::parse_fold;
use crate::codec::render_doc_spec;
use crate::codec::render_item_line;
use crate::codec::rlines_kids;
use crate::codec::rlines_sub;
use crate::codec::spaces;
use crate::codec::split_lines_spec;
use crate::codec::strip_indent;
use crate::itemtree::add_child_spec;
use crate::itemtree::display_spec;
use crate::itemtree::lemma_add_child_wf;
use crate::itemtree::lemma_display_parse_round_trip;
use crate::itemtree::marker_kind;
use crate::itemtree::new_spec;
use crate::itemtree::parse_item_spec;
use crate::itemtree::parse_kind_spec;
use crate::itemtree::plain_kind;
use crate::itemtree::symbol_char;
use crate::itemtree::ItemView;
use crate::itemtree::KindView;
use crate::itemtree::TreeView;
use crate::itemtree::INDENT_SZ;

verus! {

/// A tree whose canonical render carries everything: well-formed, no
/// rendered text holding a line terminator, every kind expressible in the
/// text form. The root's own text (the title) is exempt, since the render
/// never emits it.
pub open spec fn renderable(t: TreeView) -> bool {
    &&& t.wf()
    &&& forall|i: int| 0 <= i < t.len() ==> plain_kind(#[trigger] t.nodes[i].kind)
    &&& forall|i: int, k: int|
        1 <= i < t.len() && 0 <= k < t.nodes[i].text.len() ==> #[trigger] t.nodes[i].text[k] != '\n'
}

/// Structural equality of the subtree at `ia` of `a` with the subtree at
/// `ib` of `b`: the same kind, text and child count at the root, and the
/// same, recursively, for every pair of children in order. Ids themselves
/// may differ: this is equality "after canonical renumbering".
pub open spec fn subtree_sim(a: TreeView, ia: int, b: TreeView, ib: int) -> bool
    decreases b.nodes.len() - ib,
{
    if nodes_wf(b.nodes) && 0 <= ib < b.nodes.len() {
        &&& 0 <= ia < a.nodes.len()
        &&& a.nodes[ia].kind == b.nodes[ib].kind
        &&& a.nodes[ia].text == b.nodes[ib].text
        &&& a.nodes[ia].children.len() == b.nodes[ib].children.len()
        &&& (forall|x: int|
            0 <= x < b.nodes[ib].children.len() ==> subtree_sim(
                a,
                a.nodes[ia].children[x],
                b,
                #[trigger] b.nodes[ib].children[x],
            ))
    } else {
        true
    }
}

/// No line of the list holds a line terminator.
pub open spec fn lines_nl_free(ls: Seq<Seq<char>>) -> bool {
    forall|i: int, k: int| 0 <= i < ls.len() && 0 <= k < ls[i].len() ==> #[trigger] ls[i][k] != '\n'
}

/// No line of the list ends with a carriage return: followed by its
/// terminator, such a column would read back as part of a two-column
/// terminator and be lost.
pub open spec fn lines_cr_clean(ls: Seq<Seq<char>>) -> bool {
    forall|i: int|
        0 <= i < ls.len() ==> ((#[trigger] ls[i]).len() > 0 ==> ls[i][ls[i].len() - 1] != '\r')
}

/// No rendered text of the tree ends with a carriage return. The one
/// column the text form cannot carry at the end of a line: rendered there,
/// it would merge into the following terminator. The root's text (the
/// title) is exempt, as in [`renderable`].
pub open spec fn texts_cr_clean(t: TreeView) -> bool {
    forall|i: int|
        1 <= i < t.len() ==> ((#[trigger] t.nodes[i].text).len() > 0
            ==> t.nodes[i].text.last() != '\r')
}

/// The lines of a rendered subtree hold no terminator and end in no
/// carriage return.
proof fn lemma_rlines_sub_clean(t: TreeView, id: int, k: int)
    requires
        renderable(t),
        texts_cr_clean(t),
        1 <= id < t.len(),
    ensures
        lines_nl_free(rlines_sub(t.nodes, id, k)),
        lines_cr_clean(rlines_sub(t.nodes, id, k)),
    decreases t.nodes.len() - id, t.nodes[id].children.len() + 1,
{
    lemma_wf_nodes(t);
    let line = render_item_line(t.nodes, id, k);
    let sp = spaces(INDENT_SZ as int * k);
    let text = t.nodes[id].text;
    assert forall|x: int| 0 <= x < line.len() implies line[x] != '\n' by {
        if x < sp.len() {
            assert(line[x] == ' ');
        } else if x == sp.len() {
            assert(line[x] == symbol_char(t.nodes[id].kind));
        } else if x == sp.len() + 1 {
            assert(line[x] == ' ');
        } else {
            assert(line[x] == text[x - sp.len() - 2]);
        }
    }
    assert(line.len() > 0);
    assert(line[line.len() - 1] != '\r') by {
        if text.len() > 0 {
            assert(line[line.len() - 1] == text[text.len() - 1]);
        } else {
            assert(line[line.len() - 1] == ' ');
        }
    }
    lemma_rlines_kids_clean(t, id, 0, k + 1);
    let ls = rlines_sub(t.nodes, id, k);
    assert(ls == seq![line] + rlines_kids(t.nodes, id, 0, k + 1));
    assert forall|i: int, x: int| 0 <= i < ls.len() && 0 <= x < ls[i].len() implies ls[i][x] != '\n' by {
        if i == 0 {
            assert(ls[i] == line);
        } else {
            assert(ls[i] == rlines_kids(t.nodes, id, 0, k + 1)[i - 1]);
        }
    }
    assert forall|i: int| 0 <= i < ls.len() implies ((#[trigger] ls[i]).len() > 0 ==> ls[i][ls[i].len()
        - 1] != '\r') by {
        if i == 0 {
            assert(ls[i] == line);
        } else {
            assert(ls[i] == rlines_kids(t.nodes, id, 0, k + 1)[i - 1]);
        }
    }
}

/// The lines of rendered child subtrees hold no terminator and end in no
/// carriage return.
proof fn lemma_rlines_kids_clean(t: TreeView, id: int, j: int, k: int)
    requires
        renderable(t),
        texts_cr_clean(t),
        0 <= id < t.len(),
    ensures
        lines_nl_free(rlines_kids(t.nodes, id, j, k)),
        lines_cr_clean(rlines_kids(t.nodes, id, j, k)),
    decreases t.nodes.len() - id, t.nodes[id].children.len() - j,
{
    lemma_wf_nodes(t);
    if 0 <= j < t.nodes[id].children.len() {
        let c = t.nodes[id].children[j];
        lemma_rlines_sub_clean(t, c, k);
        lemma_rlines_kids_clean(t, id, j + 1, k);
        let a = rlines_sub(t.nodes, c, k);
        let b = rlines_kids(t.nodes, id, j + 1, k);
        let ls = rlines_kids(t.nodes, id, j, k);
        assert(ls == a + b);
        assert forall|i: int, x: int|
            0 <= i < ls.len() && 0 <= x < ls[i].len() implies ls[i][x] != '\n' by {
            if i < a.len() {
                assert(ls[i] == a[i]);
            } else {
                assert(ls[i] == b[i - a.len()]);
            }
        }
        assert forall|i: int| 0 <= i < ls.len() implies ((#[trigger] ls[i]).len() > 0 ==> ls[i][ls[i].len()
            - 1] != '\r') by {
            if i < a.len() {
                assert(ls[i] == a[i]);
            } else {
                assert(ls[i] == b[i - a.len()]);
            }
        }
    }
}

/// Splitting undoes joining, for lines free of terminators and of trailing
/// carriage returns.
proof fn lemma_split_join(ls: Seq<Seq<char>>)
    requires
        lines_nl_free(ls),
        lines_cr_clean(ls),
    ensures
        split_lines_spec(join_lines(ls)) =~~= ls,
    decreases ls.len(),
{
    if ls.len() > 0 {
        assert(forall|k: int| 0 <= k < ls[0].len() ==> #[trigger] ls[0][k] != '\n');
        assert(ls[0].len() > 0 ==> ls[0][ls[0].len() - 1] != '\r');
        lemma_split_line(ls[0], join_lines(ls.skip(1)));
        assert(lines_nl_free(ls.skip(1)) && lines_cr_clean(ls.skip(1))) by {
            assert(forall|i: int, k: int|
                0 <= i < ls.skip(1).len() && 0 <= k < ls.skip(1)[i].len() ==> ls.skip(1)[i]
                    == ls[i + 1] && #[trigger] ls.skip(1)[i][k] == ls[i + 1][k]);
            assert(forall|i: int|
                0 <= i < ls.skip(1).len() ==> #[trigger] ls.skip(1)[i] == ls[i + 1]);
        }
        lemma_split_join(ls.skip(1));
        assert(ls[0] + seq!['\n'] + join_lines(ls.skip(1)) == join_lines(ls));
        assert(seq![ls[0]] + ls.skip(1) =~~= ls);
    }
}

/// Folding one parse step at a time over a concatenation of line lists.
proof fn lemma_parse_fold_app(t: TreeView, m: Map<int, int>, a: Seq<Seq<char>>, b: Seq<Seq<char>>)
    ensures
        parse_fold(t, m, a + b) == parse_fold(parse_fold(t, m, a).0, parse_fold(t, m, a).1, b),
    decreases a.len(),
{
    if a.len() == 0 {
        assert(a + b =~~= b);
    } else {
        assert((a + b)[0] == a[0]);
        assert((a + b).skip(1) =~~= a.skip(1) + b);
        let lv = indent_of(a[0]);
        let it = parse_item_spec(strip_indent(a[0]));
        let t2 = add_child_spec(t, lookup_spec(m, lv), it);
        lemma_parse_fold_app(t2, m.insert(lv + 1, t.len()), a.skip(1), b);
    }
}

/// A rendered line reads back as what it renders: its level is the level it
/// was rendered at, its item is the node's kind and text as a fresh leaf.
proof fn lemma_parse_render_line(t: TreeView, id: int, k: int)
    requires
        renderable(t),
        0 <= id < t.len(),
        0 <= k,
    ensures
        indent_of(render_item_line(t.nodes, id, k)) == k,
        parse_item_spec(strip_indent(render_item_line(t.nodes, id, k))) == (ItemView {
            kind: t.nodes[id].kind,
            text: t.nodes[id].text,
            children: Seq::empty(),
        }),
{
    let line = render_item_line(t.nodes, id, k);
    let sp = INDENT_SZ as int * k;
    assert forall|x: int| 0 <= x < sp implies is_ws_char(#[trigger] line[x]) by {
        assert(line[x] == ' ');
    }
    assert(line[sp] == symbol_char(t.nodes[id].kind));
    assert(!is_ws_char(line[sp]));
    lemma_leading_ws_at(line, sp);
    assert(indent_of(line) == sp / (INDENT_SZ as int));
    assert(sp / (INDENT_SZ as int) == k) by (nonlinear_arith)
        requires
            sp == INDENT_SZ as int * k,
            INDENT_SZ == 2,
            k >= 0,
    ;
    assert(strip_indent(line) =~= display_spec(t.nodes[id].kind, t.nodes[id].text));
    lemma_display_parse_round_trip(t.nodes[id].kind, t.nodes[id].text);
}

/// Maps that agree on every level up to `k`: the same keys, the same ids.
pub open spec fn agree_upto(m1: Map<int, int>, m2: Map<int, int>, k: int) -> bool {
    forall|j: int|
        #![trigger m1.contains_key(j)]
        #![trigger m2.contains_key(j)]
        j <= k ==> ((m2.contains_key(j) <==> m1.contains_key(j)) && (m1.contains_key(j) ==> m2[j]
            == m1[j]))
}

/// A lookup at a level reads only the levels up to it.
proof fn lemma_lookup_agree(m1: Map<int, int>, m2: Map<int, int>, level: int, k: int)
    requires
        agree_upto(m1, m2, k),
        level <= k,
    ensures
        lookup_spec(m1, level) == lookup_spec(m2, level),
    decreases
            (if level >= 0 {
                level
            } else {
                0
            }),
{
    if !m1.contains_key(level) && level > 0 {
        lemma_lookup_agree(m1, m2, level - 1, k);
    }
}

/// Structural equality of a replayed subtree survives later growth of the
/// receiving tree, since the subtree occupies ids from its own root up and
/// later steps touch only older nodes and fresh ids.
proof fn lemma_sim_stable(u1: TreeView, u2: TreeView, n: int, t: TreeView, c: int)
    requires
        subtree_sim(u1, n, t, c),
        u1.wf(),
        nodes_wf(t.nodes),
        0 <= c < t.nodes.len(),
        0 <= n < u1.len(),
        u2.nodes.len() >= u1.nodes.len(),
        forall|i: int| n <= i < u1.len() ==> u2.nodes[i] == #[trigger] u1.nodes[i],
    ensures
        subtree_sim(u2, n, t, c),
    decreases t.nodes.len() - c,
{
    assert(u2.nodes[n] == u1.nodes[n]);
    assert forall|x: int| 0 <= x < t.nodes[c].children.len() implies subtree_sim(
        u2,
        u2.nodes[n].children[x],
        t,
        #[trigger] t.nodes[c].children[x],
    ) by {
        let cn = u1.nodes[n].children[x];
        assert(subtree_sim(u1, cn, t, t.nodes[c].children[x]));
        assert(n < cn < u1.len());
        lemma_sim_stable(u1, u2, cn, t, t.nodes[c].children[x]);
    }
}

/// Replaying the rendered lines of the subtree at `c` onto a partial tree
/// `u` attaches one fresh structural copy of that subtree under the id the
/// level table finds for level `k`, touches nothing else of `u`, and leaves
/// every level of the table up to `k` as it was.
proof fn lemma_replay_sub(t: TreeView, c: int, k: int, u: TreeView, m: Map<int, int>)
    requires
        renderable(t),
        1 <= c < t.len(),
        1 <= k,
        u.wf(),
        0 <= lookup_spec(m, k) < u.len(),
    ensures
        ({
            let q = lookup_spec(m, k);
            let n = u.len();
            let r = parse_fold(u, m, rlines_sub(t.nodes, c, k));
            &&& r.0.wf()
            &&& r.0.len() > u.len()
            &&& (forall|i: int| 0 <= i < u.len() && i != q ==> r.0.nodes[i] == #[trigger] u.nodes[i])
            &&& (forall|i: int| 0 <= i < u.len() ==> r.0.parents[i] == #[trigger] u.parents[i])
            &&& r.0.nodes[q].kind == u.nodes[q].kind
            &&& r.0.nodes[q].text == u.nodes[q].text
            &&& r.0.nodes[q].children == u.nodes[q].children.push(n)
            &&& subtree_sim(r.0, n, t, c)
            &&& agree_upto(m, r.1, k)
        }),
    decreases t.nodes.len() - c, t.nodes[c].children.len() + 1,
{
    lemma_wf_nodes(t);
    let q = lookup_spec(m, k);
    let n = u.len();
    let line = render_item_line(t.nodes, c, k);
    let kidlines = rlines_kids(t.nodes, c, 0, k + 1);
    assert(rlines_sub(t.nodes, c, k) == seq![line] + kidlines);
    lemma_parse_fold_app(u, m, seq![line], kidlines);
    lemma_parse_render_line(t, c, k);
    let it = parse_item_spec(strip_indent(line));
    assert(plain_kind(t.nodes[c].kind));
    // the node's own line: one step of the fold
    reveal_with_fuel(parse_fold, 2);
    assert(seq![line].skip(1) =~~= Seq::<Seq<char>>::empty());
    assert(seq![line][0] == line);
    let u1 = add_child_spec(u, q, it);
    let m1 = m.insert(k + 1, n);
    assert(parse_fold(u, m, seq![line]) == (u1, m1));
    lemma_add_child_wf(u, q, it);
    assert(u1.nodes[n] == it);
    assert(u1.nodes[n].children.len() == 0);
    assert(m1.contains_key(k + 1));
    assert(lookup_spec(m1, k + 1) == n);
    // its children, one level deeper, attach under the fresh id
    lemma_replay_kids(t, c, 0, k + 1, u1, m1);
    let r = parse_fold(u1, m1, kidlines);
    assert(parse_fold(u, m, rlines_sub(t.nodes, c, k)) == r);
    assert(q < n);
    assert(r.0.nodes[q] == u1.nodes[q]);
    assert(u1.nodes[q].children == u.nodes[q].children.push(n));
    assert forall|i: int| 0 <= i < u.len() && i != q implies r.0.nodes[i] == #[trigger] u.nodes[i] by {
        assert(r.0.nodes[i] == u1.nodes[i]);
    }
    assert forall|i: int| 0 <= i < u.len() implies r.0.parents[i] == #[trigger] u.parents[i] by {
        assert(r.0.parents[i] == u1.parents[i]);
        assert(u1.parents[i] == u.parents[i]);
    }
    // the fresh node carries the rendered node's kind and text, and its
    // children are structural copies in order
    assert(subtree_sim(r.0, n, t, c)) by {
        assert(r.0.nodes[n].kind == t.nodes[c].kind);
        assert(r.0.nodes[n].text == t.nodes[c].text);
        assert(r.0.nodes[n].children.len() == t.nodes[c].children.len());
        assert forall|x: int| 0 <= x < t.nodes[c].children.len() implies subtree_sim(
            r.0,
            r.0.nodes[n].children[x],
            t,
            #[trigger] t.nodes[c].children[x],
        ) by {
            assert(subtree_sim(
                r.0,
                r.0.nodes[n].children[0 + (x - 0)],
                t,
                t.nodes[c].children[x],
            ));
        }
    }
    assert(agree_upto(m, r.1, k)) by {
        assert forall|jj: int| jj <= k implies ((r.1.contains_key(jj) <==> m.contains_key(jj)) && (
        m.contains_key(jj) ==> r.1[jj] == m[jj])) by {
            assert(m1.contains_key(jj) <==> m.contains_key(jj));
            assert(m.contains_key(jj) ==> m1[jj] == m[jj]);
            assert(r.1.contains_key(jj) <==> m1.contains_key(jj));
            assert(m1.contains_key(jj) ==> r.1[jj] == m1[jj]);
        }
    }
}

/// Replaying the rendered lines of the children of `p` from position `j` on
/// appends one structural copy per child, in order, to the child list of the
/// id the level table finds for level `k`.
proof fn lemma_replay_kids(t: TreeView, p: int, j: int, k: int, u: TreeView, m: Map<int, int>)
    requires
        renderable(t),
        0 <= p < t.len(),
        0 <= j <= t.nodes[p].children.len(),
        1 <= k,
        u.wf(),
        0 <= lookup_spec(m, k) < u.len(),
    ensures
        ({
            let q = lookup_spec(m, k);
            let base = u.nodes[q].children.len();
            let r = parse_fold(u, m, rlines_kids(t.nodes, p, j, k));
            &&& r.0.wf()
            &&& r.0.len() >= u.len()
            &&& (forall|i: int| 0 <= i < u.len() && i != q ==> r.0.nodes[i] == #[trigger] u.nodes[i])
            &&& (forall|i: int| 0 <= i < u.len() ==> r.0.parents[i] == #[trigger] u.parents[i])
            &&& r.0.nodes[q].kind == u.nodes[q].kind
            &&& r.0.nodes[q].text == u.nodes[q].text
            &&& r.0.nodes[q].children.len() == base + (t.nodes[p].children.len() - j)
            &&& (forall|x: int|
                0 <= x < base ==> r.0.nodes[q].children[x] == #[trigger] u.nodes[q].children[x])
            &&& (forall|y: int|
                j <= y < t.nodes[p].children.len() ==> subtree_sim(
                    r.0,
                    r.0.nodes[q].children[base + (y - j)],
                    t,
                    #[trigger] t.nodes[p].children[y],
                ))
            &&& agree_upto(m, r.1, k)
        }),
    decreases t.nodes.len() - p, t.nodes[p].children.len() - j,
{
    lemma_wf_nodes(t);
    let q = lookup_spec(m, k);
    let base = u.nodes[q].children.len() as int;
    if j >= t.nodes[p].children.len() {
        assert(rlines_kids(t.nodes, p, j, k) =~~= Seq::<Seq<char>>::empty());
        assert(parse_fold(u, m, rlines_kids(t.nodes, p, j, k)) == (u, m));
    } else {
        let c = t.nodes[p].children[j];
        assert(p < c < t.len());
        let a = rlines_sub(t.nodes, c, k);
        let b = rlines_kids(t.nodes, p, j + 1, k);
        assert(rlines_kids(t.nodes, p, j, k) == a + b);
        lemma_parse_fold_app(u, m, a, b);
        // first child subtree
        lemma_replay_sub(t, c, k, u, m);
        let r1 = parse_fold(u, m, a);
        let u1 = r1.0;
        let m1 = r1.1;
        let n = u.len();
        lemma_lookup_agree(m, m1, k, k);
        assert(lookup_spec(m1, k) == q);
        assert(u1.nodes[q].children == u.nodes[q].children.push(n));
        assert(0 <= q < u1.len());
        // remaining siblings
        lemma_replay_kids(t, p, j + 1, k, u1, m1);
        let r = parse_fold(u1, m1, b);
        assert(parse_fold(u, m, rlines_kids(t.nodes, p, j, k)) == r);
        let base1 = u1.nodes[q].children.len() as int;
        assert(base1 == base + 1);
        // nothing older than the first fresh id changed but q's child list
        assert forall|i: int| 0 <= i < u.len() && i != q implies r.0.nodes[i] == #[trigger] u.nodes[i] by {
            assert(r.0.nodes[i] == u1.nodes[i]);
        }
        assert forall|i: int| 0 <= i < u.len() implies r.0.parents[i] == #[trigger] u.parents[i] by {
            assert(r.0.parents[i] == u1.parents[i]);
        }
        // the child list of q: old prefix, then one fresh root per sibling
        assert(r.0.nodes[q].children.len() == base + (t.nodes[p].children.len() - j));
        assert forall|x: int| 0 <= x < base implies r.0.nodes[q].children[x] == #[trigger] u.nodes[q].children[x] by {
            assert(r.0.nodes[q].children[x] == u1.nodes[q].children[x]);
            assert(u1.nodes[q].children[x] == u.nodes[q].children.push(n)[x]);
        }
        assert forall|y: int| j <= y < t.nodes[p].children.len() implies subtree_sim(
            r.0,
            r.0.nodes[q].children[base + (y - j)],
            t,
            #[trigger] t.nodes[p].children[y],
        ) by {
            if y == j {
                assert(r.0.nodes[q].children[base] == u1.nodes[q].children[base]);
                assert(u1.nodes[q].children[base] == n);
                assert(subtree_sim(u1, n, t, c));
                assert(n < u1.len());
                assert forall|i: int| n <= i < u1.len() implies r.0.nodes[i] == #[trigger] u1.nodes[i] by {
                    assert(i != q);
                }
                lemma_sim_stable(u1, r.0, n, t, c);
            } else {
                assert(subtree_sim(
                    r.0,
                    r.0.nodes[q].children[base1 + (y - (j + 1))],
                    t,
                    t.nodes[p].children[y],
                ));
                assert(base1 + (y - (j + 1)) == base + (y - j));
            }
        }
        assert(agree_upto(m, r.1, k)) by {
            assert forall|jj: int| jj <= k implies ((r.1.contains_key(jj) <==> m.contains_key(jj))
                && (m.contains_key(jj) ==> r.1[jj] == m[jj])) by {
                assert(m1.contains_key(jj) <==> m.contains_key(jj));
                assert(m.contains_key(jj) ==> m1[jj] == m[jj]);
                assert(r.1.contains_key(jj) <==> m1.contains_key(jj));
                assert(m1.contains_key(jj) ==> r.1[jj] == m1[jj]);
            }
        }
    }
}

/// Every line of a split document is terminator-free.
proof fn lemma_split_nl_free(s: Seq<char>)
    ensures
        lines_nl_free(split_lines_spec(s)),
    decreases s.len(),
{
    if s.len() == 0 {
    } else if s[0] == '\n' {
        lemma_split_nl_free(s.skip(1));
        let rest = split_lines_spec(s.skip(1));
        let ls = split_lines_spec(s);
        assert(ls == seq![Seq::<char>::empty()] + rest);
        assert forall|i: int, x: int|
            0 <= i < ls.len() && 0 <= x < ls[i].len() implies ls[i][x] != '\n' by {
            assert(i > 0);
            assert(ls[i] == rest[i - 1]);
        }
    } else if s[0] == '\r' && s.len() >= 2 && s[1] == '\n' {
        lemma_split_nl_free(s.skip(2));
        let rest = split_lines_spec(s.skip(2));
        let ls = split_lines_spec(s);
        assert(ls == seq![Seq::<char>::empty()] + rest);
        assert forall|i: int, x: int|
            0 <= i < ls.len() && 0 <= x < ls[i].len() implies ls[i][x] != '\n' by {
            assert(i > 0);
            assert(ls[i] == rest[i - 1]);
        }
    } else {
        lemma_split_nl_free(s.skip(1));
        let rest = split_lines_spec(s.skip(1));
        let ls = split_lines_spec(s);
        if rest.len() == 0 {
            assert(ls == seq![seq![s[0]]]);
            assert forall|i: int, x: int|
                0 <= i < ls.len() && 0 <= x < ls[i].len() implies ls[i][x] != '\n' by {
                assert(ls[i][x] == s[0]);
            }
        } else {
            assert(ls == seq![seq![s[0]] + rest[0]] + rest.skip(1));
            assert forall|i: int, x: int|
                0 <= i < ls.len() && 0 <= x < ls[i].len() implies ls[i][x] != '\n' by {
                if i == 0 {
                    assert(ls[0] == seq![s[0]] + rest[0]);
                    if x > 0 {
                        assert(ls[0][x] == rest[0][x - 1]);
                    }
                } else {
                    assert(ls[i] == rest.skip(1)[i - 1]);
                    assert(ls[i] == rest[i]);
                }
            }
        }
    }
}

/// A parsed item carries a piece of its line: a terminator-free line gives a
/// terminator-free text, and the kind is always expressible.
proof fn lemma_parse_item_clean(line: Seq<char>)
    requires
        forall|x: int| 0 <= x < line.len() ==> #[trigger] line[x] != '\n',
    ensures
        plain_kind(parse_item_spec(strip_indent(line)).kind),
        forall|x: int|
            0 <= x < parse_item_spec(strip_indent(line)).text.len()
                ==> #[trigger] parse_item_spec(strip_indent(line)).text[x] != '\n',
{
    lemma_leading_ws_le(line);
    let lw = leading_ws(line);
    let stripped = strip_indent(line);
    assert(forall|x: int| 0 <= x < stripped.len() ==> #[trigger] stripped[x] == line[x + lw]);
    let it = parse_item_spec(stripped);
    assert(plain_kind(it.kind)) by {
        if stripped.len() > 0 {
            match marker_kind(stripped[0]) {
                Some(kk) => {
                    assert(it.kind == kk);
                },
                None => {},
            }
        }
    }
    let rest = parse_kind_spec(stripped).1;
    assert(forall|x: int| 0 <= x < rest.len() ==> #[trigger] rest[x] != '\n');
    assert(forall|x: int| 0 <= x < it.text.len() ==> #[trigger] it.text[x] != '\n');
}

/// Every step of a parse keeps the growing tree renderable, its root's kind
/// and text untouched, and every recorded id valid.
proof fn lemma_parse_fold_keeps(u: TreeView, m: Map<int, int>, lines: Seq<Seq<char>>)
    requires
        renderable(u),
        lines_nl_free(lines),
        forall|kk: int| #[trigger] m.contains_key(kk) ==> 0 <= m[kk] < u.len(),
    ensures
        ({
            let r = parse_fold(u, m, lines);
            &&& renderable(r.0)
            &&& r.0.len() >= u.len()
            &&& r.0.nodes[0].kind == u.nodes[0].kind
            &&& r.0.nodes[0].text == u.nodes[0].text
        }),
    decreases lines.len(),
{
    if lines.len() > 0 {
        let line = lines[0];
        assert(forall|x: int| 0 <= x < line.len() ==> #[trigger] line[x] != '\n');
        let lv = indent_of(line);
        lemma_leading_ws_le(line);
        let p = lookup_spec(m, lv);
        lemma_lookup_bound(m, lv, u.len());
        let it = parse_item_spec(strip_indent(line));
        lemma_parse_item_clean(line);
        lemma_add_child_wf(u, p, it);
        let u1 = add_child_spec(u, p, it);
        assert(renderable(u1)) by {
            assert forall|i: int| 0 <= i < u1.len() implies plain_kind(
                #[trigger] u1.nodes[i].kind,
            ) by {
                if i < u.len() {
                    assert(u1.nodes[i].kind == u.nodes[i].kind);
                } else {
                    assert(u1.nodes[i] == it);
                }
            }
            assert forall|i: int, x: int|
                1 <= i < u1.len() && 0 <= x < u1.nodes[i].text.len() implies #[trigger] u1.nodes[i].text[x]
                != '\n' by {
                if i < u.len() {
                    assert(u1.nodes[i].text == u.nodes[i].text);
                } else {
                    assert(u1.nodes[i] == it);
                }
            }
        }
        let m1 = m.insert(lv + 1, u.len() as int);
        assert forall|kk: int| #[trigger] m1.contains_key(kk) implies 0 <= m1[kk] < u1.len() by {
            if kk != lv + 1 {
                assert(m.contains_key(kk));
            }
        }
        assert(lines_nl_free(lines.skip(1))) by {
            assert(forall|i: int, x: int|
                0 <= i < lines.skip(1).len() && 0 <= x < lines.skip(1)[i].len() ==> lines.skip(
                    1,
                )[i] == lines[i + 1] && #[trigger] lines.skip(1)[i][x] == lines[i + 1][x]);
        }
        lemma_parse_fold_keeps(u1, m1, lines.skip(1));
        assert(u1.nodes[0].kind == u.nodes[0].kind);
        assert(u1.nodes[0].text == u.nodes[0].text);
    }
}

/// The round-trip law as it applies to parsing itself: every tree a parse
/// produces is renderable with an `Info` root holding the title, so
/// rendering it and parsing the result rebuilds it structurally — for every
/// document whose parsed texts end in no carriage return. A text can end in
/// one only when a line carries a carriage return right before its
/// terminator's own (as in `"- a\r\r\n"`): rendered again, that final
/// column merges into the terminator and is dropped, so such documents are
/// the one family the law must leave out.
/// Every parsed tree is renderable, with an `Info` root holding the title.
proof fn lemma_parse_doc_basics(title: Seq<char>, content: Seq<char>)
    ensures
        ({
            let t = parse_doc_spec(title, content);
            &&& renderable(t)
            &&& t.nodes[0].kind == KindView::Info
            &&& t.nodes[0].text == title
        }),
{
    let u0 = new_spec(title);
    let m0 = Map::<int, int>::empty();
    assert(u0.wf()) by {
        assert(u0.len() == 1);
        assert(u0.parents[0] == None::<int>);
        assert(u0.nodes[0].children.len() == 0);
    }
    assert(renderable(u0)) by {
        assert(forall|i: int|
            0 <= i < u0.len() ==> #[trigger] u0.nodes[i].kind == KindView::Info);
    }
    lemma_split_nl_free(content);
    lemma_parse_fold_keeps(u0, m0, split_lines_spec(content));
}

pub proof fn lemma_parse_output_round_trips(title: Seq<char>, content: Seq<char>)
    requires
        texts_cr_clean(parse_doc_spec(title, content)),
    ensures
        ({
            let t = parse_doc_spec(title, content);
            &&& renderable(t)
            &&& t.nodes[0].kind == KindView::Info
            &&& t.nodes[0].text == title
            &&& subtree_sim(parse_doc_spec(title, render_doc_spec(t.nodes, 0)), 0, t, 0)
        }),
{
    lemma_parse_doc_basics(title, content);
    lemma_parse_render_round_trip(parse_doc_spec(title, content));
}

/// Structurally equal subtrees render to the same lines: the render reads
/// only kinds, texts and child order, exactly what the equality compares.
proof fn lemma_sim_rlines_sub(a: TreeView, ia: int, b: TreeView, ib: int, k: int)
    requires
        nodes_wf(a.nodes),
        nodes_wf(b.nodes),
        0 <= ib < b.nodes.len(),
        subtree_sim(a, ia, b, ib),
    ensures
        rlines_sub(a.nodes, ia, k) =~~= rlines_sub(b.nodes, ib, k),
    decreases b.nodes.len() - ib, b.nodes[ib].children.len() + 1,
{
    assert(render_item_line(a.nodes, ia, k) == render_item_line(b.nodes, ib, k));
    lemma_sim_rlines_kids(a, ia, b, ib, 0, k + 1);
}

/// As [`lemma_sim_rlines_sub`], for the children from position `j` on.
proof fn lemma_sim_rlines_kids(a: TreeView, ia: int, b: TreeView, ib: int, j: int, k: int)
    requires
        nodes_wf(a.nodes),
        nodes_wf(b.nodes),
        0 <= ib < b.nodes.len(),
        subtree_sim(a, ia, b, ib),
    ensures
        rlines_kids(a.nodes, ia, j, k) =~~= rlines_kids(b.nodes, ib, j, k),
    decreases b.nodes.len() - ib, b.nodes[ib].children.len() - j,
{
    if 0 <= j < b.nodes[ib].children.len() {
        let ca = a.nodes[ia].children[j];
        let cb = b.nodes[ib].children[j];
        assert(subtree_sim(a, ca, b, cb));
        lemma_sim_rlines_sub(a, ca, b, cb, k);
        lemma_sim_rlines_kids(a, ia, b, ib, j + 1, k);
    } else {
        assert(rlines_kids(a.nodes, ia, j, k) =~~= Seq::<Seq<char>>::empty());
        assert(rlines_kids(b.nodes, ib, j, k) =~~= Seq::<Seq<char>>::empty());
    }
}

/// Byte-identity law: rendering the parse of a document this codec
/// rendered reproduces that document byte for byte (for every document the
/// round-trip law covers).
pub proof fn lemma_render_reparse_byte_identical(title: Seq<char>, content: Seq<char>)
    requires
        texts_cr_clean(parse_doc_spec(title, content)),
    ensures
        ({
            let t = parse_doc_spec(title, content);
            let doc = render_doc_spec(t.nodes, 0);
            render_doc_spec(parse_doc_spec(title, doc).nodes, 0) == doc
        }),
{
    lemma_parse_output_round_trips(title, content);
    let t = parse_doc_spec(title, content);
    let doc = render_doc_spec(t.nodes, 0);
    let u = parse_doc_spec(title, doc);
    lemma_parse_doc_basics(title, doc);
    lemma_wf_nodes(t);
    lemma_wf_nodes(u);
    lemma_sim_rlines_kids(u, 0, t, 0, 0, 1);
}

/// Round-trip law: parsing the canonical render of a renderable tree under
/// its own title rebuilds the tree, structurally — the same kinds, texts and
/// child order at every node, after canonical renumbering from the root.
/// The root's kind must be the `Info` every parse gives it; its text is the
/// title and travels beside the rendered text.
pub proof fn lemma_parse_render_round_trip(t: TreeView)
    requires
        renderable(t),
        texts_cr_clean(t),
        t.nodes[0].kind == KindView::Info,
    ensures
        subtree_sim(parse_doc_spec(t.nodes[0].text, render_doc_spec(t.nodes, 0)), 0, t, 0),
{
    lemma_wf_nodes(t);
    let title = t.nodes[0].text;
    let ls = rlines_kids(t.nodes, 0, 0, 1);
    lemma_rlines_kids_clean(t, 0, 0, 1);
    lemma_split_join(ls);
    assert(split_lines_spec(render_doc_spec(t.nodes, 0)) == ls);
    let u0 = new_spec(title);
    let m0 = Map::<int, int>::empty();
    assert(u0.wf()) by {
        assert(u0.len() == 1);
        assert(u0.parents[0] == None::<int>);
        assert(u0.nodes[0].children.len() == 0);
    }
    assert(lookup_spec(m0, 1) == 0) by {
        reveal_with_fuel(lookup_spec, 2);
        assert(!m0.contains_key(1));
        assert(!m0.contains_key(0));
    }
    lemma_replay_kids(t, 0, 0, 1, u0, m0);
    let r = parse_fold(u0, m0, ls);
    assert(parse_doc_spec(title, render_doc_spec(t.nodes, 0)) == r.0);
    assert(subtree_sim(r.0, 0, t, 0)) by {
        assert(r.0.nodes[0].kind == u0.nodes[0].kind);
        assert(r.0.nodes[0].text == title);
        assert(u0.nodes[0].children.len() == 0);
        assert(r.0.nodes[0].children.len() == t.nodes[0].children.len());
        assert forall|x: int| 0 <= x < t.nodes[0].children.len() implies subtree_sim(
            r.0,
            r.0.nodes[0].children[x],
            t,
            #[trigger] t.nodes[0].children[x],
        ) by {
            assert(subtree_sim(
                r.0,
                r.0.nodes[0].children[0 + (x - 0)],
                t,
                t.nodes[0].children[x],
            ));
        }
    }
}

} // verus!
