//! The document codec: whole-document parse (text to tree) and render
//! (tree to text), plus the fold-aware render used for display.
//!
//! The text form is one item per line: two-space indentation units, one
//! marker character, one separating space, then free text. Parsing is total:
//! a line without a marker becomes an `Info` item holding the whole line,
//! and irregular indentation falls back to the nearest shallower ancestor
//! recorded so far, never to an error.

use std::collections::HashMap;
use vstd::prelude::*;
use vstd::string::StrSliceExecFns;
use vstd::string::StringExecFns;

use crate::itemtree::add_child_spec;
use crate::itemtree::display_spec;
use crate::itemtree::item_views;
use crate::itemtree::new_spec;
use crate::itemtree::parse_item_spec;
use crate::itemtree::Item;
use crate::itemtree::ItemId;
use crate::itemtree::ItemTree;
use crate::itemtree::ItemView;
use crate::itemtree::TreeView;
use crate::itemtree::INDENT_SZ;

verus! {

broadcast use vstd::std_specs::hash::group_hash_axioms;

/// The characters counted as whitespace when the indentation of a line is
/// measured: the Unicode white-space set, as a fixed list.
pub open spec fn is_ws_char(c: char) -> bool {
    ||| c == ' '
    ||| c == '\t'
    ||| c == '\n'
    ||| c == '\u{b}'
    ||| c == '\u{c}'
    ||| c == '\r'
    ||| c == '\u{85}'
    ||| c == '\u{a0}'
    ||| c == '\u{1680}'
    ||| c == '\u{2000}'
    ||| c == '\u{2001}'
    ||| c == '\u{2002}'
    ||| c == '\u{2003}'
    ||| c == '\u{2004}'
    ||| c == '\u{2005}'
    ||| c == '\u{2006}'
    ||| c == '\u{2007}'
    ||| c == '\u{2008}'
    ||| c == '\u{2009}'
    ||| c == '\u{200a}'
    ||| c == '\u{2028}'
    ||| c == '\u{2029}'
    ||| c == '\u{202f}'
    ||| c == '\u{205f}'
    ||| c == '\u{3000}'
}

/// Whether `c` belongs to the whitespace set of [`is_ws_char`].
pub fn is_ws(c: char) -> (r: bool)
    ensures
        r == is_ws_char(c),
{
    c == ' ' || c == '\t' || c == '\n' || c == '\u{b}' || c == '\u{c}' || c == '\r' || c == '\u{85}'
        || c == '\u{a0}' || c == '\u{1680}' || c == '\u{2000}' || c == '\u{2001}' || c == '\u{2002}'
        || c == '\u{2003}' || c == '\u{2004}' || c == '\u{2005}' || c == '\u{2006}' || c
        == '\u{2007}' || c == '\u{2008}' || c == '\u{2009}' || c == '\u{200a}' || c == '\u{2028}'
        || c == '\u{2029}' || c == '\u{202f}' || c == '\u{205f}' || c == '\u{3000}'
}

/// Length of the leading whitespace run of a line.
pub open spec fn leading_ws(l: Seq<char>) -> int
    decreases l.len(),
{
    if l.len() > 0 && is_ws_char(l[0]) {
        1 + leading_ws(l.skip(1))
    } else {
        0
    }
}

/// The indentation level of a line: whole two-space units of leading
/// whitespace.
pub open spec fn indent_of(l: Seq<char>) -> int {
    leading_ws(l) / (INDENT_SZ as int)
}

/// A line with its leading whitespace removed.
pub open spec fn strip_indent(l: Seq<char>) -> Seq<char> {
    l.skip(leading_ws(l))
}

/// A leading whitespace run is never longer than the line.
pub proof fn lemma_leading_ws_le(l: Seq<char>)
    ensures
        0 <= leading_ws(l) <= l.len(),
    decreases l.len(),
{
    if l.len() > 0 && is_ws_char(l[0]) {
        lemma_leading_ws_le(l.skip(1));
    }
}

/// The leading whitespace run ends exactly at the first non-whitespace
/// character (or at the end of the line).
pub proof fn lemma_leading_ws_at(l: Seq<char>, i: int)
    requires
        0 <= i <= l.len(),
        forall|k: int| 0 <= k < i ==> is_ws_char(#[trigger] l[k]),
        i < l.len() ==> !is_ws_char(l[i]),
    ensures
        leading_ws(l) == i,
    decreases i,
{
    if i == 0 {
    } else {
        assert(is_ws_char(l[0]));
        lemma_leading_ws_at(l.skip(1), i - 1);
    }
}

/// The lines of a document: segments closed by `'\n'` or by the two-column
/// terminator `"\r\n"`, the terminator closing (not opening) a line, so
/// that a final terminator adds no empty last line and the empty document
/// has no lines at all. A carriage return not followed by a line feed is
/// ordinary text and stays in the line (also at the end of an unterminated
/// last line).
pub open spec fn split_lines_spec(s: Seq<char>) -> Seq<Seq<char>>
    decreases s.len(),
{
    if s.len() == 0 {
        Seq::empty()
    } else if s[0] == '\n' {
        seq![Seq::<char>::empty()] + split_lines_spec(s.skip(1))
    } else if s[0] == '\r' && s.len() >= 2 && s[1] == '\n' {
        seq![Seq::<char>::empty()] + split_lines_spec(s.skip(2))
    } else {
        let rest = split_lines_spec(s.skip(1));
        if rest.len() == 0 {
            seq![seq![s[0]]]
        } else {
            seq![seq![s[0]] + rest[0]] + rest.skip(1)
        }
    }
}

/// A newline-free prefix that does not end in a carriage return, closed by
/// `'\n'`, is one whole line of the split.
pub proof fn lemma_split_line(line: Seq<char>, r: Seq<char>)
    requires
        forall|k: int| 0 <= k < line.len() ==> #[trigger] line[k] != '\n',
        line.len() > 0 ==> line[line.len() - 1] != '\r',
    ensures
        split_lines_spec(line + seq!['\n'] + r) =~~= seq![line] + split_lines_spec(r),
    decreases line.len(),
{
    let s = line + seq!['\n'] + r;
    if line.len() == 0 {
        assert(s[0] == '\n');
        assert(s.skip(1) =~= r);
    } else {
        assert(s[0] == line[0]);
        assert(s[0] != '\n');
        if s[0] == '\r' {
            // the next character is more line text, not a line feed
            assert(line.len() >= 2);
            assert(s[1] == line[1]);
            assert(s[1] != '\n');
        }
        assert(s.skip(1) =~= line.skip(1) + seq!['\n'] + r);
        lemma_split_line(line.skip(1), r);
        let rest = split_lines_spec(s.skip(1));
        assert(rest =~~= seq![line.skip(1)] + split_lines_spec(r));
        assert(rest.len() > 0);
        assert(rest[0] == line.skip(1));
        assert(seq![s[0]] + rest[0] =~= line);
        assert(rest.skip(1) =~= split_lines_spec(r));
    }
}

/// A newline-free prefix closed by the two-column terminator `"\r\n"` is
/// one whole line of the split, the terminator consumed whole.
pub proof fn lemma_split_line_crlf(line: Seq<char>, r: Seq<char>)
    requires
        forall|k: int| 0 <= k < line.len() ==> #[trigger] line[k] != '\n',
    ensures
        split_lines_spec(line + seq!['\r', '\n'] + r) =~~= seq![line] + split_lines_spec(r),
    decreases line.len(),
{
    let s = line + seq!['\r', '\n'] + r;
    if line.len() == 0 {
        assert(s[0] == '\r' && s.len() >= 2 && s[1] == '\n');
        assert(s.skip(2) =~= r);
    } else {
        assert(s[0] == line[0]);
        assert(s[0] != '\n');
        if s[0] == '\r' {
            // whatever follows a leading carriage return here, it is not a
            // line feed: either more line text or the terminator's own
            // carriage return
            if line.len() >= 2 {
                assert(s[1] == line[1]);
                assert(s[1] != '\n');
            } else {
                assert(s[1] == '\r');
            }
        }
        assert(s.skip(1) =~= line.skip(1) + seq!['\r', '\n'] + r);
        lemma_split_line_crlf(line.skip(1), r);
        let rest = split_lines_spec(s.skip(1));
        assert(rest =~~= seq![line.skip(1)] + split_lines_spec(r));
        assert(rest.len() > 0);
        assert(rest[0] == line.skip(1));
        assert(seq![s[0]] + rest[0] =~= line);
        assert(rest.skip(1) =~= split_lines_spec(r));
    }
}

/// A non-empty newline-free tail is the single last line of the split.
pub proof fn lemma_split_tail(line: Seq<char>)
    requires
        line.len() > 0,
        forall|k: int| 0 <= k < line.len() ==> #[trigger] line[k] != '\n',
    ensures
        split_lines_spec(line) =~~= seq![line],
    decreases line.len(),
{
    reveal_with_fuel(split_lines_spec, 2);
    if line.len() == 1 {
        assert(line.skip(1) =~= Seq::<char>::empty());
        assert(seq![line[0]] =~= line);
    } else {
        if line[0] == '\r' {
            assert(line[1] != '\n');
        }
        lemma_split_tail(line.skip(1));
        let rest = split_lines_spec(line.skip(1));
        assert(rest =~~= seq![line.skip(1)]);
        assert(rest.len() == 1);
        assert(seq![line[0]] + rest[0] =~= line);
        assert(rest.skip(1) =~~= Seq::<Seq<char>>::empty());
        assert(seq![seq![line[0]] + rest[0]] + rest.skip(1) =~~= seq![line]);
    }
}

/// Splits a document into its lines.
#[verifier::loop_isolation(false)]
pub fn split_lines(content: &str) -> (r: Vec<String>)
    ensures
        r.deep_view() == split_lines_spec(content@),
{
    let n = content.unicode_len();
    let mut out: Vec<String> = Vec::new();
    let mut start: usize = 0;
    let mut i: usize = 0;
    proof {
        assert(out.deep_view() =~~= Seq::<Seq<char>>::empty());
        assert(content@.skip(0) =~= content@);
    }
    while i < n
        invariant
            start <= i <= n,
            n == content@.len(),
            forall|k: int| start <= k < i ==> content@[k] != '\n',
            split_lines_spec(content@) =~~= out.deep_view() + split_lines_spec(
                content@.skip(start as int),
            ),
        decreases n - i,
    {
        if content.get_char(i) == '\n' {
            // a carriage return right before the line feed belongs to the
            // terminator, not to the line
            let end = if i > start && content.get_char(i - 1) == '\r' {
                i - 1
            } else {
                i
            };
            let line = content.substring_char(start, end).to_owned();
            proof {
                let pre = out.deep_view();
                let l = content@.subrange(start as int, end as int);
                if end < i {
                    assert(content@.skip(start as int) =~= l + seq!['\r', '\n'] + content@.skip(
                        i + 1,
                    ));
                    lemma_split_line_crlf(l, content@.skip(i + 1));
                } else {
                    assert(content@.skip(start as int) =~= l + seq!['\n'] + content@.skip(i + 1));
                    lemma_split_line(l, content@.skip(i + 1));
                }
                assert(out.deep_view().push(line@) =~~= pre + seq![l]);
            }
            out.push(line);
            start = i + 1;
        }
        i += 1;
    }
    if start < n {
        let line = content.substring_char(start, n).to_owned();
        proof {
            let pre = out.deep_view();
            let l = content@.subrange(start as int, n as int);
            assert(content@.skip(start as int) =~= l);
            lemma_split_tail(l);
            assert(out.deep_view().push(line@) =~~= pre + seq![l]);
            assert(pre + seq![l] =~~= pre + split_lines_spec(content@.skip(start as int)));
        }
        out.push(line);
    } else {
        proof {
            assert(content@.skip(start as int) =~= Seq::<char>::empty());
            assert(out.deep_view() + split_lines_spec(content@.skip(start as int)) =~~= out.deep_view());
        }
    }
    out
}

/// The id recorded at the deepest level not deeper than `level`, the root
/// when no such level was recorded: the "nearest shallower ancestor" rule
/// that makes parsing of irregular indentation total.
pub open spec fn lookup_spec(m: Map<int, int>, level: int) -> int
    decreases level,
{
    if m.contains_key(level) {
        m[level]
    } else if level <= 0 {
        0
    } else {
        lookup_spec(m, level - 1)
    }
}

/// When every recorded id is below `bound`, so is every lookup result.
pub proof fn lemma_lookup_bound(m: Map<int, int>, level: int, bound: int)
    requires
        bound >= 1,
        forall|k: int| #[trigger] m.contains_key(k) ==> 0 <= m[k] < bound,
    ensures
        0 <= lookup_spec(m, level) < bound,
    decreases level,
{
    if m.contains_key(level) {
    } else if level > 0 {
        lemma_lookup_bound(m, level - 1, bound);
    }
}

/// The level table of the executable parser, lifted to the mathematical map
/// the specification folds over.
pub open spec fn lift_map(m: Map<usize, usize>) -> Map<int, int> {
    Map::new(
        |k: int| 0 <= k <= usize::MAX && m.contains_key(k as usize),
        |k: int| m[k as usize] as int,
    )
}

/// Scans the level table downward from `level` for the most recently
/// recorded candidate parent; the root answers when nothing is recorded.
#[verifier::loop_isolation(false)]
fn lookup_last(m: &HashMap<usize, usize>, level: usize) -> (r: usize)
    ensures
        r as int == lookup_spec(lift_map(m@), level as int),
{
    let mut j = level;
    loop
        invariant
            j <= level,
            lookup_spec(lift_map(m@), level as int) == lookup_spec(lift_map(m@), j as int),
        decreases j,
    {
        match m.get(&j) {
            Some(v) => {
                proof {
                    assert(lift_map(m@).contains_key(j as int));
                    assert(lift_map(m@)[j as int] == m@[j] as int);
                }
                return *v;
            },
            None => {
                proof {
                    assert(!lift_map(m@).contains_key(j as int));
                }
                if j == 0 {
                    return 0;
                }
            },
        }
        j = j - 1;
    }
}

/// One parsing step per line, folded over the whole document: the line's
/// item is attached under the id found for its level, and the fresh id is
/// recorded as the candidate parent of the next deeper level.
pub open spec fn parse_fold(t: TreeView, m: Map<int, int>, lines: Seq<Seq<char>>) -> (
    TreeView,
    Map<int, int>,
)
    decreases lines.len(),
{
    if lines.len() == 0 {
        (t, m)
    } else {
        let lv = indent_of(lines[0]);
        let it = parse_item_spec(strip_indent(lines[0]));
        let p = lookup_spec(m, lv);
        let t2 = add_child_spec(t, p, it);
        parse_fold(t2, m.insert(lv + 1, t.len()), lines.skip(1))
    }
}

/// The tree of a whole document: every line attached in order, starting
/// from a fresh tree whose root holds the title.
pub open spec fn parse_doc_spec(title: Seq<char>, content: Seq<char>) -> TreeView {
    parse_fold(new_spec(title), Map::empty(), split_lines_spec(content)).0
}

/// Each folded line adds exactly one node and one parent entry.
pub proof fn lemma_parse_fold_len(u: TreeView, m: Map<int, int>, lines: Seq<Seq<char>>)
    requires
        u.nodes.len() >= 1,
        u.parents.len() == u.nodes.len(),
        forall|kk: int| #[trigger] m.contains_key(kk) ==> 0 <= m[kk] < u.nodes.len(),
    ensures
        parse_fold(u, m, lines).0.nodes.len() == u.nodes.len() + lines.len(),
        parse_fold(u, m, lines).0.parents.len() == u.parents.len() + lines.len(),
    decreases lines.len(),
{
    if lines.len() > 0 {
        let lv = indent_of(lines[0]);
        let it = parse_item_spec(strip_indent(lines[0]));
        let p = lookup_spec(m, lv);
        lemma_lookup_bound(m, lv, u.nodes.len() as int);
        let u1 = add_child_spec(u, p, it);
        let m1 = m.insert(lv + 1, u.nodes.len() as int);
        assert forall|kk: int| #[trigger] m1.contains_key(kk) implies 0 <= m1[kk] < u1.nodes.len() by {
            if kk != lv + 1 {
                assert(m.contains_key(kk));
            }
        }
        lemma_parse_fold_len(u1, m1, lines.skip(1));
    }
}

/// A parse creates exactly one node per line of the document, beyond the
/// root.
pub proof fn lemma_parse_doc_len(title: Seq<char>, content: Seq<char>)
    ensures
        parse_doc_spec(title, content).nodes.len() == 1 + split_lines_spec(content).len(),
{
    lemma_parse_fold_len(new_spec(title), Map::<int, int>::empty(), split_lines_spec(content));
}

/// Empty-document law: parsing the empty text yields a tree holding only
/// the root, with no children.
pub proof fn lemma_parse_empty(title: Seq<char>)
    ensures
        parse_doc_spec(title, Seq::<char>::empty()) == new_spec(title),
{
    assert(split_lines_spec(Seq::<char>::empty()) == Seq::<Seq<char>>::empty());
}

/// Reads one line: its indentation level and its item.
#[verifier::loop_isolation(false)]
fn parse_line(line: &str) -> (r: (usize, Item))
    ensures
        r.0 as int == indent_of(line@),
        r.0 <= usize::MAX / 2,
        r.1@ == parse_item_spec(strip_indent(line@)),
{
    let n = line.unicode_len();
    let mut i: usize = 0;
    while i < n && is_ws(line.get_char(i))
        invariant
            i <= n,
            n == line@.len(),
            forall|k: int| 0 <= k < i ==> is_ws_char(#[trigger] line@[k]),
        decreases n - i,
    {
        i += 1;
    }
    proof {
        lemma_leading_ws_at(line@, i as int);
    }
    let item = Item::parse(line.substring_char(i, n));
    let indent = i / INDENT_SZ;
    (indent, item)
}

impl ItemTree {
    /// Parses a whole document under the given title. Total: any text is a
    /// valid document. Lines appear as children in source order; a line at
    /// level `d` goes under the most recent line seen at the nearest level
    /// shallower than `d`, or under the root when no such line exists yet.
    #[verifier::loop_isolation(false)]
    pub fn parse(title: &str, content: &str) -> (r: ItemTree)
        ensures
            r@ == parse_doc_spec(title@, content@),
            r@.wf(),
            r@.linked(),
    {
        let mut tree = ItemTree::new(title);
        let lines = split_lines(content);
        let mut last_at_indent: HashMap<usize, usize> = HashMap::new();
        let mut li: usize = 0;
        proof {
            assert(lift_map(last_at_indent@) =~= Map::<int, int>::empty());
            assert(lines.deep_view().skip(0) =~~= lines.deep_view());
        }
        while li < lines.len()
            invariant
                li <= lines@.len(),
                tree@.wf(),
                tree@.linked(),
                forall|k: int| #[trigger]
                    lift_map(last_at_indent@).contains_key(k) ==> 0 <= lift_map(last_at_indent@)[k]
                        < tree@.len(),
                parse_fold(tree@, lift_map(last_at_indent@), lines.deep_view().skip(li as int))
                    == parse_fold(new_spec(title@), Map::empty(), lines.deep_view()),
            decreases lines@.len() - li,
        {
            let ghost mpre = lift_map(last_at_indent@);
            let ghost tpre = tree@;
            let ghost suffix = lines.deep_view().skip(li as int);
            let line: &String = &lines[li];
            proof {
                assert(suffix[0] == lines.deep_view()[li as int]);
                assert(suffix[0] == line@);
            }
            let (indent, item) = parse_line(line.as_str());
            let parent_id = lookup_last(&last_at_indent, indent);
            proof {
                lemma_lookup_bound(mpre, indent as int, tree@.len());
            }
            let id = tree.add_child(parent_id, item);
            last_at_indent.insert(indent + 1, id);
            li += 1;
            proof {
                assert(lift_map(last_at_indent@) =~= mpre.insert(indent + 1 as int, id as int));
                assert(tree@ == add_child_spec(tpre, parent_id as int, item@));
                assert(suffix.skip(1) =~~= lines.deep_view().skip(li as int));
                assert(parse_fold(tpre, mpre, suffix) == parse_fold(
                    tree@,
                    lift_map(last_at_indent@),
                    lines.deep_view().skip(li as int),
                ));
                assert forall|k: int| #[trigger]
                    lift_map(last_at_indent@).contains_key(k) implies 0 <= lift_map(
                    last_at_indent@,
                )[k] < tree@.len() by {
                    if k != indent + 1 {
                        assert(mpre.contains_key(k));
                    }
                }
            }
        }
        proof {
            assert(lines.deep_view().skip(li as int) =~~= Seq::<Seq<char>>::empty());
        }
        tree
    }
}

/// `n` spaces (none for a negative count).
pub open spec fn spaces(n: int) -> Seq<char> {
    Seq::new(
        if n >= 0 {
            n as nat
        } else {
            0
        },
        |i: int| ' ',
    )
}

/// Soundness of a bare item arena for traversal: every child reference
/// points at an existing, strictly larger id, so every walk downward
/// terminates. Holds for the arena of every well-formed tree.
pub open spec fn nodes_wf(nodes: Seq<ItemView>) -> bool {
    forall|i: int, j: int|
        0 <= i < nodes.len() && 0 <= j < nodes[i].children.len() ==> i < (
        #[trigger] nodes[i].children[j]) < nodes.len()
}

/// The arena of a well-formed tree can be traversed.
pub proof fn lemma_wf_nodes(t: TreeView)
    requires
        t.wf(),
    ensures
        nodes_wf(t.nodes),
{
}

/// The rendered line of one node at indentation level `k` (without its
/// terminator).
pub open spec fn render_item_line(nodes: Seq<ItemView>, id: int, k: int) -> Seq<char> {
    spaces(INDENT_SZ as int * k) + display_spec(nodes[id].kind, nodes[id].text)
}

/// The lines of the subtree rooted at `id`, rendered at level `k`: the
/// node's own line, then its children one level deeper, depth-first.
pub open spec fn rlines_sub(nodes: Seq<ItemView>, id: int, k: int) -> Seq<Seq<char>>
    decreases nodes.len() - id, nodes[id].children.len() + 1,
{
    if nodes_wf(nodes) && 0 <= id < nodes.len() {
        seq![render_item_line(nodes, id, k)] + rlines_kids(nodes, id, 0, k + 1)
    } else {
        Seq::empty()
    }
}

/// The lines of the subtrees of the children of `id` from position `j` on,
/// each rendered at level `k`.
pub open spec fn rlines_kids(nodes: Seq<ItemView>, id: int, j: int, k: int) -> Seq<Seq<char>>
    decreases nodes.len() - id, nodes[id].children.len() - j,
{
    if nodes_wf(nodes) && 0 <= id < nodes.len() && 0 <= j < nodes[id].children.len() {
        rlines_sub(nodes, nodes[id].children[j], k) + rlines_kids(nodes, id, j + 1, k)
    } else {
        Seq::empty()
    }
}

/// Lines joined into document text, each closed by its terminator.
pub open spec fn join_lines(ls: Seq<Seq<char>>) -> Seq<char>
    decreases ls.len(),
{
    if ls.len() == 0 {
        Seq::empty()
    } else {
        ls[0] + seq!['\n'] + join_lines(ls.skip(1))
    }
}

/// Joining distributes over concatenation of line lists.
pub proof fn lemma_join_append(a: Seq<Seq<char>>, b: Seq<Seq<char>>)
    ensures
        join_lines(a + b) =~= join_lines(a) + join_lines(b),
    decreases a.len(),
{
    if a.len() == 0 {
        assert(a + b =~~= b);
    } else {
        assert((a + b).skip(1) =~~= a.skip(1) + b);
        lemma_join_append(a.skip(1), b);
        assert((a + b)[0] == a[0]);
    }
}

/// The text of a whole document from the arena of a tree: the `start` node
/// itself is not rendered (the root's title is kept apart), its descendants
/// are, depth-first, indented one two-space unit per level below it.
pub open spec fn render_doc_spec(nodes: Seq<ItemView>, start: int) -> Seq<char> {
    join_lines(rlines_kids(nodes, start, 0, 1))
}

/// Appends `count` spaces.
#[verifier::loop_isolation(false)]
fn push_spaces(buffer: &mut String, count: usize)
    ensures
        final(buffer)@ == old(buffer)@ + spaces(count as int),
{
    proof {
        reveal_strlit(" ");
    }
    let mut i: usize = 0;
    while i < count
        invariant
            i <= count,
            buffer@ == old(buffer)@ + spaces(i as int),
        decreases count - i,
    {
        buffer.append(" ");
        proof {
            assert(buffer@ =~= old(buffer)@ + spaces(i + 1 as int));
        }
        i += 1;
    }
    proof {
        assert(buffer@ =~= old(buffer)@ + spaces(count as int));
    }
}

/// Emits one subtree into `buffer`: the node's line at `level` (unless
/// suppressed, as for the synthetic root), then its children, one level
/// deeper, always displayed.
#[verifier::loop_isolation(false)]
pub fn build_text_rec(
    level: usize,
    buffer: &mut String,
    node: ItemId,
    nodes: &Vec<Item>,
    display_item: bool,
)
    requires
        nodes_wf(item_views(nodes@)),
        node < nodes@.len(),
        1 <= level,
        level + (nodes@.len() - node) <= usize::MAX / 2,
    ensures
        display_item ==> final(buffer)@ == old(buffer)@ + join_lines(
            rlines_sub(item_views(nodes@), node as int, level - 1),
        ),
        !display_item ==> final(buffer)@ == old(buffer)@ + join_lines(
            rlines_kids(item_views(nodes@), node as int, 0, level as int),
        ),
    decreases nodes@.len() - node,
{
    let ghost nv = item_views(nodes@);
    if display_item {
        push_spaces(buffer, (level - 1) * INDENT_SZ);
        let line = nodes[node].display();
        buffer.append(line.as_str());
        buffer.append("\n");
        proof {
            reveal_strlit("\n");
            assert(buffer@ =~= old(buffer)@ + render_item_line(nv, node as int, level - 1)
                + seq!['\n']);
        }
    }
    let ghost base = buffer@;
    let mut j: usize = 0;
    while j < nodes[node].children_ids.len()
        invariant
            j <= nv[node as int].children.len(),
            buffer@ + join_lines(rlines_kids(nv, node as int, j as int, level as int)) == base
                + join_lines(rlines_kids(nv, node as int, 0, level as int)),
        decreases nv[node as int].children.len() - j,
    {
        let c = nodes[node].children_ids[j];
        proof {
            assert(nv[node as int].children[j as int] == c as int);
            assert(node < c < nodes@.len());
        }
        let ghost pre = buffer@;
        build_text_rec(level + 1, buffer, c, nodes, true);
        proof {
            let sub = rlines_sub(nv, c as int, level as int);
            let restj = rlines_kids(nv, node as int, j + 1 as int, level as int);
            assert(rlines_kids(nv, node as int, j as int, level as int) == sub + restj);
            lemma_join_append(sub, restj);
            assert(buffer@ + join_lines(restj) =~= pre + join_lines(
                rlines_kids(nv, node as int, j as int, level as int),
            ));
        }
        j += 1;
    }
    proof {
        assert(rlines_kids(nv, node as int, j as int, level as int) =~~= Seq::<Seq<char>>::empty());
        assert(buffer@ + join_lines(Seq::<Seq<char>>::empty()) =~= buffer@);
        if display_item {
            let kids = rlines_kids(nv, node as int, 0, level as int);
            let line0 = render_item_line(nv, node as int, level - 1);
            assert(rlines_sub(nv, node as int, level - 1) == seq![line0] + kids);
            lemma_join_append(seq![line0], kids);
            assert(join_lines(seq![line0]) =~= line0 + seq!['\n']) by {
                reveal_with_fuel(join_lines, 2);
                assert(seq![line0].skip(1) =~~= Seq::<Seq<char>>::empty());
            }
            assert(buffer@ =~= old(buffer)@ + join_lines(
                rlines_sub(nv, node as int, level - 1),
            ));
        }
    }
}

/// The placeholder standing in for a collapsed subtree in the fold-aware
/// render.
pub open spec fn folded_mark() -> Seq<char> {
    seq!['[', '.', '.', '.', ']']
}

/// The ids of a fold set, as the mathematical values the specification
/// speaks of.
pub open spec fn fold_ids(folded: Seq<ItemId>) -> Seq<int> {
    folded.map_values(|x: ItemId| x as int)
}

/// The fold-aware lines of the subtree rooted at `id` at level `k`: as
/// [`rlines_sub`], except that below a node of the fold set a single
/// placeholder line stands in for all of its children (nothing stands in
/// when it has none). Presentation only: the canonical render and the tree
/// itself are untouched by folding.
pub open spec fn rlines_folded_sub(
    nodes: Seq<ItemView>,
    folded: Seq<int>,
    id: int,
    k: int,
) -> Seq<Seq<char>>
    decreases nodes.len() - id, nodes[id].children.len() + 1,
{
    if nodes_wf(nodes) && 0 <= id < nodes.len() {
        if folded.contains(id) {
            if nodes[id].children.len() > 0 {
                seq![
                    render_item_line(nodes, id, k),
                    spaces(INDENT_SZ as int * (k + 1)) + folded_mark(),
                ]
            } else {
                seq![render_item_line(nodes, id, k)]
            }
        } else {
            seq![render_item_line(nodes, id, k)] + rlines_folded_kids(nodes, folded, id, 0, k + 1)
        }
    } else {
        Seq::empty()
    }
}

/// The fold-aware lines of the children of `id` from position `j` on.
pub open spec fn rlines_folded_kids(
    nodes: Seq<ItemView>,
    folded: Seq<int>,
    id: int,
    j: int,
    k: int,
) -> Seq<Seq<char>>
    decreases nodes.len() - id, nodes[id].children.len() - j,
{
    if nodes_wf(nodes) && 0 <= id < nodes.len() && 0 <= j < nodes[id].children.len() {
        rlines_folded_sub(nodes, folded, nodes[id].children[j], k) + rlines_folded_kids(
            nodes,
            folded,
            id,
            j + 1,
            k,
        )
    } else {
        Seq::empty()
    }
}

/// The fold-aware text of the document held in `nodes`, starting below
/// `start`: as [`render_doc_spec`], but every subtree collapsed by the fold
/// set renders as one placeholder line.
pub open spec fn render_folded_spec(nodes: Seq<ItemView>, folded: Seq<int>, start: int) -> Seq<
    char,
> {
    if folded.contains(start) && 0 <= start < nodes.len() && nodes[start].children.len() > 0 {
        join_lines(seq![spaces(INDENT_SZ as int) + folded_mark()])
    } else {
        join_lines(rlines_folded_kids(nodes, folded, start, 0, 1))
    }
}

/// Whether an id belongs to the fold set.
#[verifier::loop_isolation(false)]
fn contains_id(folded: &Vec<ItemId>, id: ItemId) -> (r: bool)
    ensures
        r == fold_ids(folded@).contains(id as int),
{
    let mut i: usize = 0;
    while i < folded.len()
        invariant
            i <= folded@.len(),
            forall|k: int| 0 <= k < i ==> fold_ids(folded@)[k] != id as int,
        decreases folded@.len() - i,
    {
        if folded[i] == id {
            proof {
                assert(fold_ids(folded@)[i as int] == id as int);
            }
            return true;
        }
        i += 1;
    }
    false
}

/// Appends the placeholder line of a collapsed subtree at level `k`.
fn push_folded_mark(buffer: &mut String, k: usize)
    requires
        k <= usize::MAX / 2 - 1,
    ensures
        final(buffer)@ == old(buffer)@ + (spaces(INDENT_SZ as int * (k + 1)) + folded_mark())
            + seq!['\n'],
{
    push_spaces(buffer, (k + 1) * INDENT_SZ);
    buffer.append("[...]");
    buffer.append("\n");
    proof {
        reveal_strlit("[...]");
        reveal_strlit("\n");
        assert(buffer@ =~= old(buffer)@ + (spaces(INDENT_SZ as int * (k + 1)) + folded_mark())
            + seq!['\n']);
    }
}

/// Emits one subtree as [`build_text_rec`] does, but collapses every
/// subtree whose root is in the fold set to one placeholder line.
#[verifier::loop_isolation(false)]
pub fn build_text_folded_rec(
    level: usize,
    buffer: &mut String,
    node: ItemId,
    nodes: &Vec<Item>,
    folded: &Vec<ItemId>,
    display_item: bool,
)
    requires
        nodes_wf(item_views(nodes@)),
        node < nodes@.len(),
        1 <= level,
        level + (nodes@.len() - node) <= usize::MAX / 2,
    ensures
        display_item ==> final(buffer)@ == old(buffer)@ + join_lines(
            rlines_folded_sub(item_views(nodes@), fold_ids(folded@), node as int, level - 1),
        ),
        !display_item ==> final(buffer)@ == old(buffer)@ + join_lines(
            rlines_folded_kids(item_views(nodes@), fold_ids(folded@), node as int, 0, level as int),
        ),
    decreases nodes@.len() - node,
{
    let ghost nv = item_views(nodes@);
    let ghost fv = fold_ids(folded@);
    if display_item {
        push_spaces(buffer, (level - 1) * INDENT_SZ);
        let line = nodes[node].display();
        buffer.append(line.as_str());
        buffer.append("\n");
        proof {
            reveal_strlit("\n");
            assert(buffer@ =~= old(buffer)@ + render_item_line(nv, node as int, level - 1)
                + seq!['\n']);
        }
        if contains_id(folded, node) {
            if nodes[node].children_ids.len() > 0 {
                push_folded_mark(buffer, level - 1);
                proof {
                    let l0 = render_item_line(nv, node as int, level - 1);
                    let l1 = spaces(INDENT_SZ as int * (level as int)) + folded_mark();
                    assert(rlines_folded_sub(nv, fv, node as int, level - 1) == seq![l0, l1]);
                    assert(join_lines(seq![l0, l1]) =~= l0 + seq!['\n'] + l1 + seq!['\n']) by {
                        reveal_with_fuel(join_lines, 3);
                        assert(seq![l0, l1].skip(1) =~~= seq![l1]);
                        assert(seq![l1].skip(1) =~~= Seq::<Seq<char>>::empty());
                    }
                    assert(buffer@ =~= old(buffer)@ + join_lines(
                        rlines_folded_sub(nv, fv, node as int, level - 1),
                    ));
                }
            } else {
                proof {
                    let l0 = render_item_line(nv, node as int, level - 1);
                    assert(rlines_folded_sub(nv, fv, node as int, level - 1) == seq![l0]);
                    assert(join_lines(seq![l0]) =~= l0 + seq!['\n']) by {
                        reveal_with_fuel(join_lines, 2);
                        assert(seq![l0].skip(1) =~~= Seq::<Seq<char>>::empty());
                    }
                    assert(buffer@ =~= old(buffer)@ + join_lines(
                        rlines_folded_sub(nv, fv, node as int, level - 1),
                    ));
                }
            }
            return ;
        }
    }
    let ghost base = buffer@;
    let mut j: usize = 0;
    while j < nodes[node].children_ids.len()
        invariant
            j <= nv[node as int].children.len(),
            buffer@ + join_lines(rlines_folded_kids(nv, fv, node as int, j as int, level as int))
                == base + join_lines(rlines_folded_kids(nv, fv, node as int, 0, level as int)),
        decreases nv[node as int].children.len() - j,
    {
        let c = nodes[node].children_ids[j];
        proof {
            assert(nv[node as int].children[j as int] == c as int);
            assert(node < c < nodes@.len());
        }
        let ghost pre = buffer@;
        build_text_folded_rec(level + 1, buffer, c, nodes, folded, true);
        proof {
            let sub = rlines_folded_sub(nv, fv, c as int, level as int);
            let restj = rlines_folded_kids(nv, fv, node as int, j + 1 as int, level as int);
            assert(rlines_folded_kids(nv, fv, node as int, j as int, level as int) == sub + restj);
            lemma_join_append(sub, restj);
            assert(buffer@ + join_lines(restj) =~= pre + join_lines(
                rlines_folded_kids(nv, fv, node as int, j as int, level as int),
            ));
        }
        j += 1;
    }
    proof {
        assert(rlines_folded_kids(nv, fv, node as int, j as int, level as int)
            =~~= Seq::<Seq<char>>::empty());
        assert(buffer@ + join_lines(Seq::<Seq<char>>::empty()) =~= buffer@);
        if display_item {
            let kids = rlines_folded_kids(nv, fv, node as int, 0, level as int);
            let line0 = render_item_line(nv, node as int, level - 1);
            assert(rlines_folded_sub(nv, fv, node as int, level - 1) == seq![line0] + kids);
            lemma_join_append(seq![line0], kids);
            assert(join_lines(seq![line0]) =~= line0 + seq!['\n']) by {
                reveal_with_fuel(join_lines, 2);
                assert(seq![line0].skip(1) =~~= Seq::<Seq<char>>::empty());
            }
            assert(buffer@ =~= old(buffer)@ + join_lines(
                rlines_folded_sub(nv, fv, node as int, level - 1),
            ));
        }
    }
}

/// The fold-aware text of the document held in `nodes`, starting below
/// `start`. Consumed by the display layer only; saving and export always go
/// through [`build_text`].
pub fn build_text_folded(start: ItemId, nodes: &Vec<Item>, folded: &Vec<ItemId>) -> (r: String)
    requires
        nodes_wf(item_views(nodes@)),
        start < nodes@.len(),
        nodes@.len() + 1 <= usize::MAX / 2,
    ensures
        r@ == render_folded_spec(item_views(nodes@), fold_ids(folded@), start as int),
{
    let mut buffer = String::new();
    if contains_id(folded, start) && nodes[start].children_ids.len() > 0 {
        proof {
            assert(item_views(nodes@)[start as int].children.len() > 0);
        }
        push_folded_mark(&mut buffer, 0);
        proof {
            let l = spaces(INDENT_SZ as int) + folded_mark();
            assert(join_lines(seq![l]) =~= l + seq!['\n']) by {
                reveal_with_fuel(join_lines, 2);
                assert(seq![l].skip(1) =~~= Seq::<Seq<char>>::empty());
            }
            assert(buffer@ =~= render_folded_spec(
                item_views(nodes@),
                fold_ids(folded@),
                start as int,
            ));
        }
    } else {
        proof {
            if fold_ids(folded@).contains(start as int) {
                assert(item_views(nodes@)[start as int].children.len() == 0);
            }
        }
        build_text_folded_rec(1, &mut buffer, start, nodes, folded, false);
    }
    buffer
}

/// The canonical text of the document held in `nodes`, starting below
/// `start`: what [`ItemTree::parse`] reads back into the same tree.
pub fn build_text(start: ItemId, nodes: &Vec<Item>) -> (r: String)
    requires
        nodes_wf(item_views(nodes@)),
        start < nodes@.len(),
        nodes@.len() + 1 <= usize::MAX / 2,
    ensures
        r@ == render_doc_spec(item_views(nodes@), start as int),
{
    let mut buffer = String::new();
    build_text_rec(1, &mut buffer, start, nodes, false);
    buffer
}

} // verus!
