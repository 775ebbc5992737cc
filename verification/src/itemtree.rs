//! The item model and the arena tree store.
//!
//! An [`Item`] is one typed line of a document: a kind, free text, and the
//! ordered identifiers of its children. An [`ItemTree`] keeps every item of a
//! document in a flat arena addressed by [`ItemId`]; identifiers are handed
//! out monotonically and never reassigned. Node 0 is always the root and
//! holds the document title.

use vstd::prelude::*;
use vstd::string::StrSliceExecFns;
use vstd::string::StringExecFns;

verus! {

/// Stable integer handle of one item within one tree.
pub type ItemId = usize;

/// Number of space columns that make up one indentation step.
pub const INDENT_SZ: usize = 2;

/// The kind of an item, encoded in the text form as a one-character marker.
///
/// `Verbatim` may carry a syntax tag, but only when built directly; the tag
/// is a construction-time annotation that the text form never records.
#[derive(Clone, Debug, PartialEq)]
pub enum ItemKind {
    Planned,
    Doing,
    Done,
    Info,
    Verbatim(Option<String>),
}

/// Mathematical picture of an [`ItemKind`]: the syntax tag of a verbatim
/// item abstracted to its character sequence.
#[verifier::ext_equal]
pub enum KindView {
    Planned,
    Doing,
    Done,
    Info,
    Verbatim(Option<Seq<char>>),
}

impl View for ItemKind {
    type V = KindView;

    open spec fn view(&self) -> KindView {
        match self {
            ItemKind::Planned => KindView::Planned,
            ItemKind::Doing => KindView::Doing,
            ItemKind::Done => KindView::Done,
            ItemKind::Info => KindView::Info,
            ItemKind::Verbatim(tag) => KindView::Verbatim(
                match tag {
                    Some(s) => Some(s@),
                    None => None,
                },
            ),
        }
    }
}

/// The marker character of a kind.
pub open spec fn symbol_char(k: KindView) -> char {
    match k {
        KindView::Planned => '?',
        KindView::Doing => '*',
        KindView::Done => '#',
        KindView::Info => '-',
        KindView::Verbatim(_) => '|',
    }
}

/// The kind a marker character stands for, or `None` when the character is
/// not one of the five markers. A verbatim item parsed from text never
/// carries a syntax tag.
pub open spec fn marker_kind(c: char) -> Option<KindView> {
    if c == '?' {
        Some(KindView::Planned)
    } else if c == '*' {
        Some(KindView::Doing)
    } else if c == '#' {
        Some(KindView::Done)
    } else if c == '-' {
        Some(KindView::Info)
    } else if c == '|' {
        Some(KindView::Verbatim(None))
    } else {
        None
    }
}

/// Splitting a line into its kind and the remaining text: a recognized
/// marker is removed, anything else (including an empty line) is kept whole
/// and read as `Info`. This layer never fails.
pub open spec fn parse_kind_spec(s: Seq<char>) -> (KindView, Seq<char>) {
    if s.len() > 0 {
        match marker_kind(s[0]) {
            Some(k) => (k, s.skip(1)),
            None => (KindView::Info, s),
        }
    } else {
        (KindView::Info, s)
    }
}

/// A whole single line read as a childless item: the kind from the marker,
/// then exactly one separating space stripped when present.
pub open spec fn parse_item_spec(line: Seq<char>) -> ItemView {
    let kr = parse_kind_spec(line);
    let rest = kr.1;
    let text = if rest.len() > 0 && rest[0] == ' ' {
        rest.skip(1)
    } else {
        rest
    };
    ItemView { kind: kr.0, text: text, children: Seq::empty() }
}

/// The canonical single-line form: marker, one space, text.
pub open spec fn display_spec(kind: KindView, text: Seq<char>) -> Seq<char> {
    seq![symbol_char(kind), ' '] + text
}

/// Whether a kind is fully expressible in the text form: every kind but a
/// verbatim item carrying a syntax tag, since the tag is a construction-time
/// annotation that no marker records.
pub open spec fn plain_kind(k: KindView) -> bool {
    match k {
        KindView::Verbatim(tag) => tag is None,
        _ => true,
    }
}

/// Single-line law: reading the canonical display of an item back recovers
/// its kind and text exactly, for every kind the text form can express and
/// every text.
pub proof fn lemma_display_parse_round_trip(kind: KindView, text: Seq<char>)
    requires
        plain_kind(kind),
    ensures
        parse_item_spec(display_spec(kind, text)) == (ItemView {
            kind: kind,
            text: text,
            children: Seq::empty(),
        }),
{
    let line = display_spec(kind, text);
    assert(line[0] == symbol_char(kind));
    assert(marker_kind(symbol_char(kind)) == Some(kind));
    let rest = parse_kind_spec(line).1;
    assert(rest =~= seq![' '] + text);
    assert(rest[0] == ' ');
    assert(rest.skip(1) =~= text);
    assert(parse_item_spec(line) =~= (ItemView { kind: kind, text: text, children: Seq::empty() }));
}

impl ItemKind {
    /// The one-character marker of this kind, as a string.
    pub fn symbol(&self) -> (r: &'static str)
        ensures
            r@ =~= seq![symbol_char(self@)],
    {
        proof {
            reveal_strlit("?");
            reveal_strlit("*");
            reveal_strlit("#");
            reveal_strlit("-");
            reveal_strlit("|");
        }
        match self {
            ItemKind::Planned => "?",
            ItemKind::Doing => "*",
            ItemKind::Done => "#",
            ItemKind::Info => "-",
            ItemKind::Verbatim(_) => "|",
        }
    }

    /// Reads the marker at the head of `text`. A recognized marker is
    /// consumed; otherwise the line is left whole and defaults to `Info`.
    pub fn parse(text: &str) -> (r: (ItemKind, &str))
        ensures
            r.0@ == parse_kind_spec(text@).0,
            r.1@ == parse_kind_spec(text@).1,
    {
        let n = text.unicode_len();
        if n == 0 {
            (ItemKind::Info, text)
        } else {
            let c = text.get_char(0);
            match c {
                '?' => (ItemKind::Planned, text.substring_char(1, n)),
                '*' => (ItemKind::Doing, text.substring_char(1, n)),
                '#' => (ItemKind::Done, text.substring_char(1, n)),
                '-' => (ItemKind::Info, text.substring_char(1, n)),
                '|' => (ItemKind::Verbatim(None), text.substring_char(1, n)),
                _ => (ItemKind::Info, text),
            }
        }
    }
}

/// One typed line of a document with the ordered ids of its children.
#[derive(Clone, Debug, PartialEq)]
pub struct Item {
    pub kind: ItemKind,
    pub text: String,
    pub children_ids: Vec<ItemId>,
}

/// Mathematical picture of an [`Item`].
#[verifier::ext_equal]
pub struct ItemView {
    pub kind: KindView,
    pub text: Seq<char>,
    pub children: Seq<int>,
}

impl View for Item {
    type V = ItemView;

    open spec fn view(&self) -> ItemView {
        ItemView {
            kind: self.kind@,
            text: self.text@,
            children: self.children_ids@.map_values(|c: ItemId| c as int),
        }
    }
}

impl Item {
    /// A childless item.
    pub fn leaf(kind: ItemKind, text: &str) -> (r: Self)
        ensures
            r@ =~= (ItemView { kind: kind@, text: text@, children: Seq::empty() }),
    {
        Item { kind, text: text.to_owned(), children_ids: Vec::new() }
    }

    /// The canonical single-line form: marker, one space, text.
    pub fn display(&self) -> (r: String)
        ensures
            r@ =~= display_spec(self.kind@, self.text@),
    {
        proof {
            reveal_strlit(" ");
        }
        let mut out = self.kind.symbol().to_owned();
        out.append(" ");
        out.append(self.text.as_str());
        out
    }

    /// Reads one line as a childless item: the marker gives the kind, then
    /// exactly one separating space is stripped when present. Total: any
    /// line is a valid (if marker-less) item.
    pub fn parse(line: &str) -> (r: Item)
        ensures
            r@ =~= parse_item_spec(line@),
    {
        let (kind, rest) = ItemKind::parse(line);
        let n = rest.unicode_len();
        let text = if n > 0 && rest.get_char(0) == ' ' {
            rest.substring_char(1, n)
        } else {
            rest
        };
        Item::leaf(kind, text)
    }
}

/// Mathematical picture of an [`ItemTree`]: the item arena and the parent
/// link of every node.
#[verifier::ext_equal]
pub struct TreeView {
    pub nodes: Seq<ItemView>,
    pub parents: Seq<Option<int>>,
}

impl TreeView {
    pub open spec fn len(self) -> int {
        self.nodes.len() as int
    }

    /// The parent of a node; 0 (the root) is its own fallback so that the
    /// function is total.
    pub open spec fn par_of(self, c: int) -> int {
        match self.parents[c] {
            Some(p) => p,
            None => 0,
        }
    }

    /// Structural soundness of the arena:
    /// - one parent entry per node, and at least the root;
    /// - the root has no parent, every other node points at an older node;
    /// - child lists reference existing, strictly younger nodes whose parent
    ///   link points back, and hold no duplicates.
    ///
    /// Since every edge goes from an older id to a strictly younger one, the
    /// structure is acyclic.
    pub open spec fn wf(self) -> bool {
        &&& self.parents.len() == self.nodes.len()
        &&& self.len() >= 1
        &&& self.parents[0] == None::<int>
        &&& forall|i: int|
            1 <= i < self.len() ==> ((#[trigger] self.parents[i]) matches Some(p) && 0 <= p < i)
        &&& forall|i: int, j: int|
            0 <= i < self.len() && 0 <= j < self.nodes[i].children.len() ==> {
                &&& i < (#[trigger] self.nodes[i].children[j]) < self.len()
                &&& self.parents[self.nodes[i].children[j]] == Some(i)
            }
        &&& forall|i: int, j1: int, j2: int|
            #![trigger self.nodes[i].children[j1], self.nodes[i].children[j2]]
            0 <= i < self.len() && 0 <= j1 < j2 < self.nodes[i].children.len()
                ==> self.nodes[i].children[j1] != self.nodes[i].children[j2]
    }

    /// Full linkage: every non-root node appears in its parent's child list.
    /// Fresh and parsed trees are linked; detaching a leaf removes the
    /// detached id from this picture while `wf` keeps holding.
    pub open spec fn linked(self) -> bool {
        forall|c: int|
            1 <= c < self.len() ==> #[trigger] self.nodes[self.par_of(c)].children.contains(c)
    }
}

/// A fresh tree: only the root, holding the document title.
pub open spec fn new_spec(title: Seq<char>) -> TreeView {
    TreeView {
        nodes: seq![ItemView { kind: KindView::Info, text: title, children: Seq::empty() }],
        parents: seq![None::<int>],
    }
}

/// The tree after a child item is appended under `parent`: the item enters
/// the arena with the next free id, and that id goes to the end of the
/// parent's child list.
pub open spec fn add_child_spec(t: TreeView, parent: int, it: ItemView) -> TreeView {
    TreeView {
        nodes: t.nodes.update(
            parent,
            ItemView { children: t.nodes[parent].children.push(t.len()), ..t.nodes[parent] },
        ).push(it),
        parents: t.parents.push(Some(parent)),
    }
}

/// As [`add_child_spec`], but the new id is inserted at `pos` in the
/// parent's child list; a position past the end appends.
pub open spec fn add_child_at_spec(t: TreeView, parent: int, pos: int, it: ItemView) -> TreeView {
    let ks = t.nodes[parent].children;
    let at = if pos > ks.len() {
        ks.len() as int
    } else {
        pos
    };
    TreeView {
        nodes: t.nodes.update(
            parent,
            ItemView { children: ks.insert(at, t.len()), ..t.nodes[parent] },
        ).push(it),
        parents: t.parents.push(Some(parent)),
    }
}

/// The tree after a leaf is detached: the id disappears from its parent's
/// child list; the arena slot and the id itself stay, never to be reused.
pub open spec fn remove_leaf_spec(t: TreeView, id: int) -> TreeView {
    let p = t.par_of(id);
    TreeView {
        nodes: t.nodes.update(
            p,
            ItemView { children: t.nodes[p].children.remove_value(id), ..t.nodes[p] },
        ),
        parents: t.parents,
    }
}

/// An item with every child reference moved up by `off`.
pub open spec fn bump_item(it: ItemView, off: int) -> ItemView {
    ItemView { children: it.children.map_values(|c: int| c + off), ..it }
}

/// The receiving tree after a whole donor tree is grafted under `parent`:
/// every donor id is moved up by the receiving tree's size, the donor root
/// is re-typed to `kind` and attached under `parent`, and everything else
/// keeps its text, kind and (renumbered) child order.
pub open spec fn append_spec(t: TreeView, parent: int, kind: KindView, d: TreeView) -> TreeView {
    let off = t.len();
    TreeView {
        nodes: t.nodes.update(
            parent,
            ItemView { children: t.nodes[parent].children.push(off), ..t.nodes[parent] },
        ) + Seq::new(
            d.nodes.len(),
            |i: int|
                if i == 0 {
                    ItemView { kind: kind, ..bump_item(d.nodes[0], off) }
                } else {
                    bump_item(d.nodes[i], off)
                },
        ),
        parents: t.parents + Seq::new(
            d.parents.len(),
            |i: int|
                if i == 0 {
                    Some(parent)
                } else {
                    match d.parents[i] {
                        Some(p) => Some(p + off),
                        None => None,
                    }
                },
        ),
    }
}

/// An arena of items addressed by stable integer ids, with parent links.
/// Node 0 is always the root and carries the document title.
#[derive(Clone, Debug, PartialEq)]
pub struct ItemTree {
    pub nodes: Vec<Item>,
    pub parents: Vec<Option<ItemId>>,
}

/// The views of an item arena, element by element.
pub open spec fn item_views(s: Seq<Item>) -> Seq<ItemView> {
    s.map_values(|it: Item| it@)
}

impl View for ItemTree {
    type V = TreeView;

    open spec fn view(&self) -> TreeView {
        TreeView {
            nodes: item_views(self.nodes@),
            parents: self.parents@.map_values(
                |p: Option<ItemId>|
                    match p {
                        Some(x) => Some(x as int),
                        None => None::<int>,
                    },
            ),
        }
    }
}

impl ItemTree {
    /// A tree holding only the root, whose text is the document title.
    pub fn new(title: &str) -> (r: Self)
        ensures
            r@ =~~= new_spec(title@),
            r@.wf(),
            r@.linked(),
    {
        ItemTree {
            nodes: vec![Item::leaf(ItemKind::Info, title)],
            parents: vec![None],
        }
    }

    /// The root's id, 0 in every tree.
    pub fn root(&self) -> (r: ItemId)
        ensures
            r == 0,
    {
        0
    }

    /// The document title: the root's text.
    pub fn title(&self) -> (r: String)
        requires
            self@.len() >= 1,
        ensures
            r@ == self@.nodes[0].text,
    {
        self.nodes[0].text.clone()
    }

    /// Replaces the document title.
    pub fn set_title(&mut self, title: String)
        requires
            old(self)@.len() >= 1,
        ensures
            final(self)@ =~~= (TreeView {
                nodes: old(self)@.nodes.update(
                    0,
                    ItemView { text: title@, ..old(self)@.nodes[0] },
                ),
                parents: old(self)@.parents,
            }),
    {
        self.nodes[0].text = title;
    }

    /// Appends `child` (which must be childless) under `parent` and returns
    /// its fresh id, the next unused one.
    pub fn add_child(&mut self, parent: ItemId, child: Item) -> (id: ItemId)
        requires
            old(self)@.wf(),
            parent < old(self)@.len(),
            child@.children.len() == 0,
        ensures
            id == old(self)@.len(),
            final(self)@ =~~= add_child_spec(old(self)@, parent as int, child@),
            final(self)@.wf(),
            old(self)@.linked() ==> final(self)@.linked(),
    {
        proof {
            lemma_add_child_wf(old(self)@, parent as int, child@);
        }
        let id = self.nodes.len();
        self.nodes.push(child);
        self.parents.push(Some(parent));
        self.nodes[parent].children_ids.push(id);
        proof {
            assert(self@ =~~= add_child_spec(old(self)@, parent as int, child@));
        }
        id
    }

    /// As [`ItemTree::add_child`], but the fresh id is inserted at `pos` in
    /// the parent's child list; a position past the end appends.
    pub fn add_child_at(&mut self, parent: ItemId, pos: usize, child: Item) -> (id: ItemId)
        requires
            old(self)@.wf(),
            parent < old(self)@.len(),
            child@.children.len() == 0,
        ensures
            id == old(self)@.len(),
            final(self)@ =~~= add_child_at_spec(old(self)@, parent as int, pos as int, child@),
            final(self)@.wf(),
            old(self)@.linked() ==> final(self)@.linked(),
    {
        proof {
            lemma_add_child_at_wf(old(self)@, parent as int, pos as int, child@);
        }
        let id = self.nodes.len();
        self.nodes.push(child);
        self.parents.push(Some(parent));
        if pos >= self.nodes[parent].children_ids.len() {
            self.nodes[parent].children_ids.push(id);
            proof {
                assert(old(self)@.nodes[parent as int].children.push(id as int) =~= old(
                    self,
                )@.nodes[parent as int].children.insert(
                    old(self)@.nodes[parent as int].children.len() as int,
                    id as int,
                ));
            }
        } else {
            self.nodes[parent].children_ids.insert(pos, id);
        }
        id
    }

    /// Detaches `id` when it is a childless non-root node and reports
    /// whether it did. A node with children, and the root, are left alone
    /// and the whole tree is untouched; this is the defined
    /// "cannot delete a non-leaf" policy, not an error.
    pub fn remove_if_leaf(&mut self, id: ItemId) -> (removed: bool)
        requires
            old(self)@.wf(),
            id < old(self)@.len(),
        ensures
            removed == (id != 0 && old(self)@.nodes[id as int].children.len() == 0),
            !removed ==> *final(self) == *old(self),
            removed ==> final(self)@ =~~= remove_leaf_spec(old(self)@, id as int),
            removed ==> !final(self)@.nodes[old(self)@.par_of(id as int)].children.contains(id as int),
            final(self)@.wf(),
    {
        if id == 0 {
            return false;
        }
        if self.nodes[id].children_ids.len() > 0 {
            return false;
        }
        proof {
            assert((old(self)@.parents[id as int]) matches Some(q) && 0 <= q < id);
        }
        let p = match self.parents[id] {
            Some(p) => p,
            None => 0,
        };
        let ghost oldks = self@.nodes[p as int].children;
        let mut j: usize = 0;
        let mut found = false;
        while !found && j < self.nodes[p].children_ids.len()
            invariant
                *self == *old(self),
                old(self)@.wf(),
                id < old(self)@.len(),
                p == old(self)@.par_of(id as int),
                p < old(self)@.len(),
                oldks == self@.nodes[p as int].children,
                0 <= j <= oldks.len(),
                found ==> j < oldks.len() && oldks[j as int] == id,
                !found ==> forall|x: int| 0 <= x < j ==> oldks[x] != id,
            decreases oldks.len() - j + (if found { 0int } else { 1int }),
        {
            if self.nodes[p].children_ids[j] == id {
                found = true;
            } else {
                j += 1;
            }
        }
        if found {
            self.nodes[p].children_ids.remove(j);
            proof {
                lemma_remove_leaf(old(self)@, id as int, j as int);
            }
        } else {
            proof {
                assert(forall|x: int| 0 <= x < oldks.len() ==> oldks[x] != id);
                assert(!oldks.contains(id as int));
                oldks.index_of_first_ensures(id as int);
                assert(oldks.remove_value(id as int) == oldks);
                assert(self@ =~~= remove_leaf_spec(old(self)@, id as int));
            }
        }
        true
    }

    /// Re-reads one edited line into an existing node: the kind and text are
    /// replaced by what [`Item::parse`] yields, the children are kept.
    pub fn replace_from_line(&mut self, id: ItemId, line: &str)
        requires
            old(self)@.wf(),
            id < old(self)@.len(),
        ensures
            final(self)@ =~~= (TreeView {
                nodes: old(self)@.nodes.update(
                    id as int,
                    ItemView {
                        kind: parse_item_spec(line@).kind,
                        text: parse_item_spec(line@).text,
                        children: old(self)@.nodes[id as int].children,
                    },
                ),
                parents: old(self)@.parents,
            }),
            final(self)@.wf(),
    {
        let it = Item::parse(line);
        self.nodes[id].kind = it.kind;
        self.nodes[id].text = it.text;
        proof {
            lemma_replace_wf(old(self)@, self@, id as int);
        }
    }

    /// Grafts the whole tree `other` as a subtree under `parent`: every
    /// donor id moves up by this tree's current size (so the donor root gets
    /// the next free id and its descendants the ids after it), the donor
    /// root is re-typed to `kind` and attached under `parent`, and `other`
    /// is drained. A single sweep over the donor arena renumbers every slot
    /// exactly once, so no reference is bumped twice or missed.
    #[verifier::loop_isolation(false)]
    pub fn append(&mut self, parent: ItemId, kind: ItemKind, other: &mut ItemTree)
        requires
            old(self)@.wf(),
            old(other)@.wf(),
            parent < old(self)@.len(),
            old(self)@.len() + old(other)@.len() <= usize::MAX,
        ensures
            final(self)@ =~~= append_spec(old(self)@, parent as int, kind@, old(other)@),
            final(self)@.wf(),
            old(self)@.linked() && old(other)@.linked() ==> final(self)@.linked(),
            final(other)@.nodes.len() == 0,
            final(other)@.parents.len() == 0,
    {
        proof {
            lemma_append_wf(old(self)@, parent as int, kind@, old(other)@);
        }
        let offset = self.nodes.len();
        let ghost dv = old(other)@;
        // renumber every child reference in the donor arena, slot by slot
        let mut i: usize = 0;
        while i < other.nodes.len()
            invariant
                other@.nodes.len() == dv.nodes.len(),
                other@.parents == dv.parents,
                i <= other@.nodes.len(),
                forall|x: int|
                    i <= x < dv.nodes.len() ==> other@.nodes[x] == #[trigger] dv.nodes[x],
                forall|x: int|
                    0 <= x < i ==> other@.nodes[x] == bump_item(#[trigger] dv.nodes[x], offset as int),
                *self == *old(self),
            decreases dv.nodes.len() - i,
        {
            let mut j: usize = 0;
            let ghost ks = dv.nodes[i as int].children;
            while j < other.nodes[i].children_ids.len()
                invariant
                    i < other@.nodes.len() == dv.nodes.len(),
                    other@.parents == dv.parents,
                    forall|x: int|
                        i < x < dv.nodes.len() ==> other@.nodes[x] == #[trigger] dv.nodes[x],
                    forall|x: int|
                        0 <= x < i ==> other@.nodes[x] == bump_item(#[trigger] dv.nodes[x], offset as int),
                    other@.nodes[i as int].kind == dv.nodes[i as int].kind,
                    other@.nodes[i as int].text == dv.nodes[i as int].text,
                    other@.nodes[i as int].children.len() == ks.len(),
                    j <= ks.len(),
                    forall|y: int|
                        j <= y < ks.len() ==> other@.nodes[i as int].children[y] == #[trigger] ks[y],
                    forall|y: int|
                        0 <= y < j ==> other@.nodes[i as int].children[y] == #[trigger] ks[y] + offset,
                    *self == *old(self),
                decreases ks.len() - j,
            {
                let c = other.nodes[i].children_ids[j];
                proof {
                    assert(dv.nodes[i as int].children[j as int] == c as int);
                    assert(c < dv.len());
                }
                other.nodes[i].children_ids[j] = c + offset;
                j += 1;
            }
            proof {
                assert(other@.nodes[i as int] =~= bump_item(dv.nodes[i as int], offset as int));
            }
            i += 1;
        }
        proof {
            assert(other@.nodes =~~= Seq::new(
                dv.nodes.len(),
                |x: int| bump_item(dv.nodes[x], offset as int),
            ));
        }
        // move the donor arena over
        self.nodes.append(&mut other.nodes);
        proof {
            assert(self@.nodes =~~= old(self)@.nodes + Seq::new(
                dv.nodes.len(),
                |x: int| bump_item(dv.nodes[x], offset as int),
            ));
        }
        // translate the donor parent links; its root attaches under `parent`
        let mut k: usize = 0;
        while k < other.parents.len()
            invariant
                other@.parents == dv.parents,
                k <= dv.parents.len(),
                self@.nodes == old(self)@.nodes + Seq::new(
                    dv.nodes.len(),
                    |x: int| bump_item(dv.nodes[x], offset as int),
                ),
                self@.parents.len() == old(self)@.parents.len() + k,
                forall|x: int|
                    0 <= x < old(self)@.parents.len() ==> self@.parents[x] == old(self)@.parents[x],
                forall|x: int|
                    #![trigger dv.parents[x]]
                    0 <= x < k ==> self@.parents[old(self)@.parents.len() + x] == (if x == 0 {
                        Some(parent as int)
                    } else {
                        match dv.parents[x] {
                            Some(p) => Some(p + offset),
                            None => None::<int>,
                        }
                    }),
            decreases dv.parents.len() - k,
        {
            let q = other.parents[k];
            if k == 0 {
                self.parents.push(Some(parent));
            } else {
                match q {
                    Some(x) => {
                        proof {
                            assert((dv.parents[k as int]) matches Some(p) && 0 <= p < k);
                        }
                        self.parents.push(Some(x + offset));
                    },
                    None => {
                        self.parents.push(None);
                    },
                }
            }
            k += 1;
        }
        other.parents.clear();
        let ghost mid = self@.nodes;
        let ghost midp = self@.parents;
        // attach the grafted root and re-type it
        self.nodes[parent].children_ids.push(offset);
        self.nodes[offset].kind = kind;
        proof {
            let target = append_spec(old(self)@, parent as int, kind@, dv);
            let oldlen = old(self)@.parents.len() as int;
            assert(self@.parents == midp);
            assert forall|x: int|
                0 <= x < self@.parents.len() implies self@.parents[x] == target.parents[x] by {
                if x >= oldlen {
                    let y = x - oldlen;
                    assert(dv.parents[y] == dv.parents[y]);
                    assert(midp[oldlen + y] == (if y == 0 {
                        Some(parent as int)
                    } else {
                        match dv.parents[y] {
                            Some(p) => Some(p + offset as int),
                            None => None::<int>,
                        }
                    }));
                }
            }
            assert(self@.parents =~= target.parents);
            assert(mid[parent as int] == old(self)@.nodes[parent as int]);
            assert forall|x: int|
                0 <= x < self@.nodes.len() implies self@.nodes[x] =~~= target.nodes[x] by {
                if x == parent as int {
                    assert(self@.nodes[x].children == mid[x].children.push(offset as int));
                } else if x < offset as int {
                    assert(mid[x] == old(self)@.nodes[x]);
                    assert(self@.nodes[x] == mid[x]);
                } else {
                    assert(mid[x] == bump_item(dv.nodes[x - offset], offset as int));
                    if x == offset as int {
                        assert(self@.nodes[x].kind == kind@);
                        assert(self@.nodes[x].text == mid[x].text);
                        assert(self@.nodes[x].children == mid[x].children);
                    } else {
                        assert(self@.nodes[x] == mid[x]);
                    }
                }
            }
            assert(self@.nodes =~~= target.nodes);
            assert(self@ =~~= target);
        }
    }

    /// The parent of a node; `None` only for the root.
    pub fn parent(&self, id: ItemId) -> (r: Option<ItemId>)
        requires
            id < self@.parents.len(),
        ensures
            self@.parents[id as int] == (match r {
                Some(p) => Some(p as int),
                None => None::<int>,
            }),
    {
        self.parents[id]
    }
}

/// Graft reindexing law: appending a two-node donor (a root and one child)
/// into a receiving tree of size `n` places the donor root at id `n`, with
/// the attachment point as its parent and the overriding kind, and the donor
/// child at id `n + 1`, with its parent link pointing at `n` (not at its
/// pre-graft id); both keep their texts, and the new root id goes to the end
/// of the attachment point's child list.
pub proof fn lemma_graft_reindexing(t: TreeView, parent: int, kind: KindView, d: TreeView)
    requires
        t.wf(),
        d.wf(),
        0 <= parent < t.len(),
        d.len() == 2,
    ensures
        ({
            let r = append_spec(t, parent, kind, d);
            let n = t.len();
            &&& r.len() == n + 2
            &&& r.nodes[n].kind == kind
            &&& r.nodes[n].text == d.nodes[0].text
            &&& r.parents[n] == Some(parent)
            &&& r.parents[n + 1] == Some(n)
            &&& r.nodes[n + 1].kind == d.nodes[1].kind
            &&& r.nodes[n + 1].text == d.nodes[1].text
            &&& r.nodes[parent].children == t.nodes[parent].children.push(n)
        }),
{
    assert((d.parents[1]) matches Some(p) && 0 <= p < 1);
    assert(d.parents[1] == Some(0int));
}

/// Total number of nodes held by a sequence of (kind, tree) pairs.
pub open spec fn trees_size(s: Seq<(KindView, TreeView)>) -> int
    decreases s.len(),
{
    if s.len() == 0 {
        0
    } else {
        s[0].1.nodes.len() + trees_size(s.skip(1))
    }
}

/// The tree obtained by grafting each of `rest` in turn under the root of `t`.
pub open spec fn child_fold(t: TreeView, rest: Seq<(KindView, TreeView)>) -> TreeView
    decreases rest.len(),
{
    if rest.len() == 0 {
        t
    } else {
        child_fold(append_spec(t, 0, rest[0].0, rest[0].1), rest.skip(1))
    }
}

/// The views of a vector of (kind, tree) pairs.
pub open spec fn pair_views(s: Seq<(ItemKind, ItemTree)>) -> Seq<(KindView, TreeView)> {
    s.map_values(|p: (ItemKind, ItemTree)| (p.0@, p.1@))
}

/// Builds a tree whose root holds `text` and whose subtrees are the given
/// trees, grafted in order, each re-typed to the kind paired with it.
#[verifier::loop_isolation(false)]
pub fn child(text: &str, children: Vec<(ItemKind, ItemTree)>) -> (r: ItemTree)
    requires
        forall|i: int| 0 <= i < children@.len() ==> (#[trigger] children@[i]).1@.wf(),
        1 + trees_size(pair_views(children@)) <= usize::MAX,
    ensures
        r@ =~~= child_fold(new_spec(text@), pair_views(children@)),
        r@.wf(),
{
    let ghost whole = pair_views(children@);
    let mut kids = children;
    let mut curr = ItemTree::new(text);
    while kids.len() > 0
        invariant
            forall|i: int| 0 <= i < kids@.len() ==> (#[trigger] kids@[i]).1@.wf(),
            curr@.wf(),
            curr@.len() + trees_size(pair_views(kids@)) <= usize::MAX,
            child_fold(curr@, pair_views(kids@)) == child_fold(new_spec(text@), whole),
        decreases kids@.len(),
    {
        let ghost before = pair_views(kids@);
        let (kind, mut sub) = kids.remove(0);
        proof {
            assert(pair_views(kids@) =~= before.skip(1));
            assert(trees_size(before) == sub@.nodes.len() + trees_size(before.skip(1)));
            lemma_trees_size_nonneg(before.skip(1));
        }
        curr.append(0, kind, &mut sub);
    }
    proof {
        assert(pair_views(kids@).len() == 0);
    }
    curr
}

/// The total size of a batch of donor trees is never negative.
proof fn lemma_trees_size_nonneg(s: Seq<(KindView, TreeView)>)
    ensures
        trees_size(s) >= 0,
    decreases s.len(),
{
    if s.len() > 0 {
        lemma_trees_size_nonneg(s.skip(1));
    }
}

/// Grafting a sound donor under an existing node of a sound receiving tree
/// yields a sound tree: every moved edge still goes from an older id to a
/// strictly younger one, and child lists stay consistent and duplicate-free.
proof fn lemma_append_wf(t: TreeView, parent: int, kind: KindView, d: TreeView)
    requires
        t.wf(),
        d.wf(),
        0 <= parent < t.len(),
    ensures
        append_spec(t, parent, kind, d).wf(),
        t.linked() && d.linked() ==> append_spec(t, parent, kind, d).linked(),
{
    let r = append_spec(t, parent, kind, d);
    let off = t.len();
    let ks = t.nodes[parent].children;
    assert(r.len() == t.len() + d.len());
    assert(r.nodes[parent].children == ks.push(off));
    // children of every node of the result, by origin
    assert forall|i: int, j: int|
        0 <= i < r.len() && 0 <= j < r.nodes[i].children.len() implies {
        &&& i < (#[trigger] r.nodes[i].children[j]) < r.len()
        &&& r.parents[r.nodes[i].children[j]] == Some(i)
    } by {
        if i == parent {
            if j < ks.len() {
                assert(r.nodes[i].children[j] == ks[j]);
                assert(parent < ks[j] < t.len());
            } else {
                assert(r.nodes[i].children[j] == off);
            }
        } else if i < t.len() {
            assert(r.nodes[i].children == t.nodes[i].children);
        } else {
            let c = d.nodes[i - off].children[j];
            assert(i - off < c < d.len());
            assert(r.nodes[i].children[j] == c + off);
            assert(d.parents[c] == Some(i - off));
            assert(c >= 1);
            assert(r.parents[c + off] == Some(i));
        }
    }
    assert forall|i: int, j1: int, j2: int|
        0 <= i < r.len() && 0 <= j1 < j2 < r.nodes[i].children.len() implies r.nodes[i].children[j1]
        != r.nodes[i].children[j2] by {
        if i == parent {
            assert(forall|x: int| 0 <= x < ks.len() ==> #[trigger] ks[x] < off);
            if j2 < ks.len() {
                assert(r.nodes[i].children[j1] == ks[j1]);
                assert(r.nodes[i].children[j2] == ks[j2]);
            } else {
                assert(r.nodes[i].children[j2] == off);
                assert(r.nodes[i].children[j1] == ks[j1]);
            }
        } else if i < t.len() {
            assert(r.nodes[i].children == t.nodes[i].children);
        } else {
            assert(r.nodes[i].children[j1] == d.nodes[i - off].children[j1] + off);
            assert(r.nodes[i].children[j2] == d.nodes[i - off].children[j2] + off);
        }
    }
    assert(forall|i: int|
        1 <= i < r.len() ==> ((#[trigger] r.parents[i]) matches Some(p) && 0 <= p < i));
    if t.linked() && d.linked() {
        assert forall|c: int| 1 <= c < r.len() implies #[trigger] r.nodes[r.par_of(c)].children.contains(
            c,
        ) by {
            if c < t.len() {
                let p = t.par_of(c);
                assert(t.nodes[p].children.contains(c));
                let x = choose|x: int|
                    0 <= x < t.nodes[p].children.len() && t.nodes[p].children[x] == c;
                assert(r.par_of(c) == p);
                if p == parent {
                    assert(r.nodes[p].children[x] == ks[x]);
                } else {
                    assert(r.nodes[p].children[x] == c);
                }
            } else if c == off {
                assert(r.par_of(c) == parent);
                assert(r.nodes[parent].children[ks.len() as int] == off);
            } else {
                let dc = c - off;
                assert(1 <= dc < d.len());
                let dp = d.par_of(dc);
                assert(d.nodes[dp].children.contains(dc));
                let x = choose|x: int|
                    0 <= x < d.nodes[dp].children.len() && d.nodes[dp].children[x] == dc;
                assert(r.par_of(c) == dp + off);
                assert(r.nodes[dp + off].children[x] == dc + off);
            }
        }
    }
}

/// Detaching entries from a child list keeps the arena sound, since every
/// remaining entry was already there.
proof fn lemma_remove_leaf(t: TreeView, id: int, j: int)
    requires
        t.wf(),
        0 < id < t.len(),
        t.nodes[id].children.len() == 0,
        0 <= j < t.nodes[t.par_of(id)].children.len(),
        t.nodes[t.par_of(id)].children[j] == id,
    ensures
        remove_leaf_spec(t, id).wf(),
        t.nodes[t.par_of(id)].children.remove_value(id) == t.nodes[t.par_of(id)].children.remove(j),
        !remove_leaf_spec(t, id).nodes[t.par_of(id)].children.contains(id),
{
    let p = t.par_of(id);
    let ks = t.nodes[p].children;
    // the unique occurrence of `id` in its parent's list is at `j`
    assert(ks.contains(id));
    let j0 = ks.index_of_first(id);
    ks.index_of_first_ensures(id);
    assert(j0 matches Some(x) && x == j) by {
        assert(ks[j] == id);
        match j0 {
            Some(x) => {
                if x < j {
                    assert(ks[x] == ks[j]);
                } else if j < x {
                    assert(ks[j] == id);
                }
            },
            None => {},
        }
    }
    let r = remove_leaf_spec(t, id);
    let rks = ks.remove(j);
    assert(r.nodes[p].children == rks);
    // every remaining entry of the shortened list stands somewhere in the old one
    assert forall|x: int| 0 <= x < rks.len() implies rks[x] == ks[if x < j {
        x
    } else {
        x + 1
    }] by {}
    assert(!rks.contains(id)) by {
        if exists|x: int| 0 <= x < rks.len() && rks[x] == id {
            let x = choose|x: int| 0 <= x < rks.len() && rks[x] == id;
            if x < j {
                assert(ks[x] == id && ks[j] == id);
            } else {
                assert(ks[x + 1] == id && ks[j] == id);
            }
        }
    }
    assert(r.wf()) by {
        assert(forall|i: int|
            1 <= i < r.len() ==> ((#[trigger] r.parents[i]) matches Some(q) && 0 <= q < i));
        assert forall|i: int, y: int|
            0 <= i < r.len() && 0 <= y < r.nodes[i].children.len() implies {
            &&& i < (#[trigger] r.nodes[i].children[y]) < r.len()
            &&& r.parents[r.nodes[i].children[y]] == Some(i)
        } by {
            if i == p {
                let orig = if y < j {
                    y
                } else {
                    y + 1
                };
                assert(r.nodes[i].children[y] == ks[orig]);
                assert(p < ks[orig] < t.len() && t.parents[ks[orig]] == Some(p));
            } else {
                assert(r.nodes[i].children[y] == t.nodes[i].children[y]);
            }
        }
        assert forall|i: int, y1: int, y2: int|
            0 <= i < r.len() && 0 <= y1 < y2 < r.nodes[i].children.len() implies r.nodes[i].children[y1]
            != r.nodes[i].children[y2] by {
            if i == p {
                let o1 = if y1 < j {
                    y1
                } else {
                    y1 + 1
                };
                let o2 = if y2 < j {
                    y2
                } else {
                    y2 + 1
                };
                assert(r.nodes[i].children[y1] == ks[o1]);
                assert(r.nodes[i].children[y2] == ks[o2]);
                assert(o1 < o2);
            } else {
                assert(r.nodes[i].children[y1] == t.nodes[i].children[y1]);
                assert(r.nodes[i].children[y2] == t.nodes[i].children[y2]);
            }
        }
    }
}

/// Appending a childless item under an existing parent keeps the arena
/// sound and fully linked: the fresh id is strictly younger than everything
/// else and enters exactly one child list.
pub proof fn lemma_add_child_wf(t: TreeView, parent: int, it: ItemView)
    requires
        t.wf(),
        0 <= parent < t.len(),
        it.children.len() == 0,
    ensures
        add_child_spec(t, parent, it).wf(),
        t.linked() ==> add_child_spec(t, parent, it).linked(),
{
    let r = add_child_spec(t, parent, it);
    let n = t.len();
    assert(t.nodes[parent].children.push(n) == t.nodes[parent].children.insert(
        t.nodes[parent].children.len() as int,
        n,
    ));
    lemma_add_child_at_wf(t, parent, t.nodes[parent].children.len() as int, it);
    assert(r =~~= add_child_at_spec(t, parent, t.nodes[parent].children.len() as int, it));
}

/// As [`lemma_add_child_wf`], for insertion at any position (positions past
/// the end append).
proof fn lemma_add_child_at_wf(t: TreeView, parent: int, pos: int, it: ItemView)
    requires
        t.wf(),
        0 <= parent < t.len(),
        0 <= pos,
        it.children.len() == 0,
    ensures
        add_child_at_spec(t, parent, pos, it).wf(),
        t.linked() ==> add_child_at_spec(t, parent, pos, it).linked(),
{
    let r = add_child_at_spec(t, parent, pos, it);
    let n = t.len();
    let ks = t.nodes[parent].children;
    let at = if pos > ks.len() {
        ks.len() as int
    } else {
        pos
    };
    let nks = ks.insert(at, n);
    ks.insert_ensures(at, n);
    assert(r.nodes[parent].children == nks);
    assert forall|y: int| 0 <= y < nks.len() implies nks[y] == (if y < at {
        ks[y]
    } else if y == at {
        n
    } else {
        ks[y - 1]
    }) by {}
    assert(r.wf()) by {
        assert(r.parents[0] == None::<int>);
        assert(forall|i: int|
            1 <= i < r.len() ==> ((#[trigger] r.parents[i]) matches Some(q) && 0 <= q < i));
        assert forall|i: int, y: int|
            0 <= i < r.len() && 0 <= y < r.nodes[i].children.len() implies {
            &&& i < (#[trigger] r.nodes[i].children[y]) < r.len()
            &&& r.parents[r.nodes[i].children[y]] == Some(i)
        } by {
            if i == parent {
                assert(r.nodes[i].children == nks);
                if y != at {
                    let orig = if y < at {
                        y
                    } else {
                        y - 1
                    };
                    assert(nks[y] == ks[orig]);
                }
            } else if i < t.len() {
                assert(r.nodes[i].children == t.nodes[i].children);
            } else {
                assert(r.nodes[i] == it);
            }
        }
        assert forall|i: int, y1: int, y2: int|
            0 <= i < r.len() && 0 <= y1 < y2 < r.nodes[i].children.len() implies r.nodes[i].children[y1]
            != r.nodes[i].children[y2] by {
            if i == parent {
                if y1 != at && y2 != at {
                    let o1 = if y1 < at {
                        y1
                    } else {
                        y1 - 1
                    };
                    let o2 = if y2 < at {
                        y2
                    } else {
                        y2 - 1
                    };
                    assert(nks[y1] == ks[o1] && nks[y2] == ks[o2]);
                    assert(o1 < o2);
                } else {
                    // one of the two is the fresh id, larger than any older entry
                    assert(forall|x: int| 0 <= x < ks.len() ==> #[trigger] ks[x] < n);
                }
            } else if i < t.len() {
                assert(r.nodes[i].children == t.nodes[i].children);
            }
        }
    }
    if t.linked() {
        assert forall|c: int| 1 <= c < r.len() implies #[trigger] r.nodes[r.par_of(c)].children.contains(
            c,
        ) by {
            if c < t.len() {
                assert(t.nodes[t.par_of(c)].children.contains(c));
                let x = choose|x: int|
                    0 <= x < t.nodes[t.par_of(c)].children.len() && t.nodes[t.par_of(
                        c,
                    )].children[x] == c;
                if t.par_of(c) == parent {
                    let y = if x < at {
                        x
                    } else {
                        x + 1
                    };
                    assert(nks[y] == c);
                } else {
                    assert(r.nodes[r.par_of(c)].children[x] == c);
                }
            } else {
                assert(r.par_of(c) == parent);
                assert(nks[at] == c);
            }
        }
    }
}

/// Replacing the kind and text of one node, children kept, leaves every
/// structural clause of `wf` untouched.
proof fn lemma_replace_wf(t: TreeView, r: TreeView, id: int)
    requires
        t.wf(),
        0 <= id < t.len(),
        r.parents == t.parents,
        r.nodes.len() == t.nodes.len(),
        forall|i: int| 0 <= i < t.len() && i != id ==> r.nodes[i] == t.nodes[i],
        r.nodes[id].children == t.nodes[id].children,
    ensures
        r.wf(),
{
    assert forall|i: int, j: int|
        0 <= i < r.len() && 0 <= j < r.nodes[i].children.len() implies {
        &&& i < (#[trigger] r.nodes[i].children[j]) < r.len()
        &&& r.parents[r.nodes[i].children[j]] == Some(i)
    } by {
        assert(r.nodes[i].children == t.nodes[i].children);
    }
    assert forall|i: int, j1: int, j2: int|
        0 <= i < r.len() && 0 <= j1 < j2 < r.nodes[i].children.len() implies r.nodes[i].children[j1]
        != r.nodes[i].children[j2] by {
        assert(r.nodes[i].children == t.nodes[i].children);
    }
}

} // verus!

