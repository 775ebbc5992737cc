//! The older single-line node model, kept alongside [`crate::itemtree`] for
//! callers still on its names.
//!
//! A [`Node`] is one typed line, like [`crate::itemtree::Item`]; the marker
//! layer differs in that [`NodeKind::parse`] reports an unmarked line as an
//! error code instead of defaulting, leaving the fallback to its caller.

use vstd::prelude::*;
use vstd::string::StrSliceExecFns;
use vstd::string::StringExecFns;

use crate::itemtree::display_spec;
use crate::itemtree::marker_kind;
use crate::itemtree::parse_item_spec;
use crate::itemtree::symbol_char;
use crate::itemtree::ItemId;
use crate::itemtree::KindView;

verus! {

/// Index of one node; the same handles as [`ItemId`].
pub type NodeIdx = ItemId;

/// The kind of a node; the same closed five-kind set as
/// [`crate::itemtree::ItemKind`], with the same markers.
#[derive(Clone, Debug, PartialEq)]
pub enum NodeKind {
    Planned,
    Doing,
    Done,
    Info,
    Verbatim(Option<String>),
}

impl View for NodeKind {
    type V = KindView;

    open spec fn view(&self) -> KindView {
        match self {
            NodeKind::Planned => KindView::Planned,
            NodeKind::Doing => KindView::Doing,
            NodeKind::Done => KindView::Done,
            NodeKind::Info => KindView::Info,
            NodeKind::Verbatim(tag) => KindView::Verbatim(
                match tag {
                    Some(s) => Some(s@),
                    None => None,
                },
            ),
        }
    }
}

impl NodeKind {
    /// The one-character marker of this kind, as a string.
    pub fn symbol(&self) -> (r: &'static str)
        ensures
            r@ =~= seq![symbol_char(self@)],
    {
        proof {
            reveal_strlit("?");
            reveal_strlit("*");
            reveal_strlit("#");
            reveal_strlit("-");
            reveal_strlit("|");
        }
        match self {
            NodeKind::Planned => "?",
            NodeKind::Doing => "*",
            NodeKind::Done => "#",
            NodeKind::Info => "-",
            NodeKind::Verbatim(_) => "|",
        }
    }

    /// Reads the marker at the head of `text`. Unlike the item layer this
    /// one reports rather than defaults: `Err(0)` for an empty line,
    /// `Err(1)` for a first character that is no marker; the error value is
    /// the number of characters the caller may skip.
    pub fn parse(text: &str) -> (r: Result<NodeKind, usize>)
        ensures
            text@.len() == 0 ==> r == Err::<NodeKind, usize>(0usize),
            text@.len() > 0 && marker_kind(text@[0]) is None ==> r == Err::<NodeKind, usize>(
                1usize,
            ),
            text@.len() > 0 && marker_kind(text@[0]) is Some ==> (r matches Ok(k) && k@
                == marker_kind(text@[0])->Some_0),
    {
        let n = text.unicode_len();
        if n == 0 {
            Err(0)
        } else {
            let c = text.get_char(0);
            match c {
                '?' => Ok(NodeKind::Planned),
                '*' => Ok(NodeKind::Doing),
                '#' => Ok(NodeKind::Done),
                '-' => Ok(NodeKind::Info),
                '|' => Ok(NodeKind::Verbatim(None)),
                _ => Err(1),
            }
        }
    }
}

/// One typed line with the ordered indices of its children.
#[derive(Clone, Debug, PartialEq)]
pub struct Node {
    pub kind: NodeKind,
    pub text: String,
    pub children_ids: Vec<NodeIdx>,
}

impl Node {
    /// A childless node.
    pub fn leaf(kind: NodeKind, text: &str) -> (r: Self)
        ensures
            r.kind == kind,
            r.text@ == text@,
            r.children_ids@.len() == 0,
    {
        Node { kind, text: text.to_owned(), children_ids: Vec::new() }
    }

    /// Reads one line as a childless node, exactly as [`Item::parse`] does:
    /// a recognized marker gives the kind and is removed, then exactly one
    /// separating space is stripped when present; a line with no marker
    /// (or an empty line) is an `Info` node keeping the full line as text.
    ///
    /// [`Item::parse`]: crate::itemtree::Item::parse
    pub fn parse(line: &str) -> (r: Node)
        ensures
            r.kind@ == parse_item_spec(line@).kind,
            r.text@ == parse_item_spec(line@).text,
            r.children_ids@.len() == 0,
    {
        let maybe_kind = NodeKind::parse(line);
        let consumed: usize = match &maybe_kind {
            Ok(_) => 1,
            Err(_) => 0,
        };
        let kind = match maybe_kind {
            Ok(k) => k,
            Err(_) => NodeKind::Info,
        };
        let n = line.unicode_len();
        let start = if consumed < n && line.get_char(consumed) == ' ' {
            consumed + 1
        } else {
            consumed
        };
        let text = line.substring_char(start, n);
        proof {
            assert(text@ =~= parse_item_spec(line@).text);
        }
        Node::leaf(kind, text)
    }

    /// The canonical single-line form: marker, one space, text.
    pub fn display(&self) -> (r: String)
        ensures
            r@ =~= display_spec(self.kind@, self.text@),
    {
        proof {
            reveal_strlit(" ");
        }
        let mut out = self.kind.symbol().to_owned();
        out.append(" ");
        out.append(self.text.as_str());
        out
    }
}

} // verus!
