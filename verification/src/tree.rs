//! Building the ordered directory tree.
//!
//! A caller enumerates the filesystem and hands the outcome over as
//! plain values: a [`DirProbe`] for the root, and one [`RawEntry`] per
//! enumerated entry, in whatever order the enumeration produced them.
//! [`build_tree`] turns that into the listing the editor shows: hidden
//! names dropped everywhere, an unreadable subdirectory degraded to an
//! empty one, and every sibling list ordered with directories first and
//! case-insensitively within each group.

use vstd::prelude::*;
use vstd::multiset::Multiset;

use crate::order::lex_le;
use crate::order::lower_of;
use crate::order::lowercase;
use crate::order::str_lex_le;
use crate::order::lemma_lex_le_total;
use crate::order::lemma_lex_le_trans;

verus! {

broadcast use {
    vstd::std_specs::vec::group_vec_axioms,
    vstd::seq_lib::group_to_multiset_ensures,
    vstd::multiset::group_multiset_axioms,
};

/// One node of the returned listing: a file, or a directory with its
/// own ordered child list.
#[derive(Debug)]
pub struct FileNode {
    /// Final path segment of the entry.
    pub name: String,
    /// Caller-supplied path identifying the entry.
    pub path: String,
    /// Whether the entry is a directory.
    pub is_directory: bool,
    /// Absent for files; present (possibly empty) for directories.
    pub children: Option<Vec<FileNode>>,
}

/// What a filesystem enumeration reported about one directory entry,
/// before any rule of this crate is applied.
#[derive(Debug)]
pub enum RawEntryKind {
    /// The entry is not a directory.
    File,
    /// The entry is a directory; `entries` is `None` when its own
    /// enumeration failed, and the enumerated entries otherwise.
    Directory { entries: Option<Vec<RawEntry>> },
}

/// One enumerated directory entry, as the caller saw it.
#[derive(Debug)]
pub struct RawEntry {
    /// Final path segment of the entry.
    pub name: String,
    /// Caller-supplied path identifying the entry.
    pub path: String,
    /// File or directory, with the subdirectory's own enumeration.
    pub kind: RawEntryKind,
}

/// What probing the root path reported.
#[derive(Debug)]
pub enum DirProbe {
    /// The path does not exist.
    Missing,
    /// The path exists but is not a directory.
    NotDirectory,
    /// The path is a directory whose entries could not be enumerated;
    /// the message describes the failure.
    Unreadable { message: String },
    /// The path is a directory and these are its enumerated entries.
    Listed { entries: Vec<RawEntry> },
}

/// Why an operation could not proceed.
#[derive(Debug)]
pub enum ErrorKind {
    /// The path does not exist.
    NotFound,
    /// The path exists but is not a directory.
    NotADirectory,
    /// The entries (or a file's contents) could not be read.
    ReadError(String),
    /// A file could not be written.
    WriteError(String),
}

/// Mathematical form of a [`RawEntryKind`].
pub enum RawKindView {
    File,
    Directory(Option<Seq<RawView>>),
}

/// Mathematical form of a [`RawEntry`].
pub struct RawView {
    pub name: Seq<char>,
    pub path: Seq<char>,
    pub kind: RawKindView,
}

/// Mathematical form of a [`FileNode`].
pub struct NodeView {
    pub name: Seq<char>,
    pub path: Seq<char>,
    pub is_directory: bool,
    pub children: Option<Seq<NodeView>>,
}

/// The mathematical form of one raw entry.
pub open spec fn raw_view(e: RawEntry) -> RawView
    decreases e,
{
    RawView {
        name: e.name@,
        path: e.path@,
        kind: match e.kind {
            RawEntryKind::File => RawKindView::File,
            RawEntryKind::Directory { entries: None } => RawKindView::Directory(None),
            RawEntryKind::Directory { entries: Some(sub) } => RawKindView::Directory(
                Some(raw_seq_view(sub@)),
            ),
        },
    }
}

/// The mathematical form of a sequence of raw entries, element-wise.
pub open spec fn raw_seq_view(s: Seq<RawEntry>) -> Seq<RawView>
    decreases s, s.len(),
{
    if s.len() == 0 {
        Seq::empty()
    } else {
        raw_seq_view(s.drop_last()).push(raw_view(s.last()))
    }
}

/// The mathematical form of one node.
pub open spec fn node_view(n: FileNode) -> NodeView
    decreases n,
{
    NodeView {
        name: n.name@,
        path: n.path@,
        is_directory: n.is_directory,
        children: match n.children {
            None => None,
            Some(c) => Some(node_seq_view(c@)),
        },
    }
}

/// The mathematical form of a sequence of nodes, element-wise.
pub open spec fn node_seq_view(s: Seq<FileNode>) -> Seq<NodeView>
    decreases s, s.len(),
{
    if s.len() == 0 {
        Seq::empty()
    } else {
        node_seq_view(s.drop_last()).push(node_view(s.last()))
    }
}

pub proof fn lemma_raw_seq_view_len(s: Seq<RawEntry>)
    ensures
        raw_seq_view(s).len() == s.len(),
    decreases s.len(),
{
    if s.len() > 0 {
        lemma_raw_seq_view_len(s.drop_last());
    }
}

pub proof fn lemma_raw_seq_view_index(s: Seq<RawEntry>, i: int)
    requires
        0 <= i < s.len(),
    ensures
        raw_seq_view(s).len() == s.len(),
        raw_seq_view(s)[i] == raw_view(s[i]),
    decreases s.len(),
{
    lemma_raw_seq_view_len(s);
    if s.len() > 0 {
        if i < s.len() - 1 {
            lemma_raw_seq_view_index(s.drop_last(), i);
        } else {
            lemma_raw_seq_view_len(s.drop_last());
        }
    }
}

pub proof fn lemma_node_seq_view_len(s: Seq<FileNode>)
    ensures
        node_seq_view(s).len() == s.len(),
    decreases s.len(),
{
    if s.len() > 0 {
        lemma_node_seq_view_len(s.drop_last());
    }
}

pub proof fn lemma_node_seq_view_index(s: Seq<FileNode>, i: int)
    requires
        0 <= i < s.len(),
    ensures
        node_seq_view(s).len() == s.len(),
        node_seq_view(s)[i] == node_view(s[i]),
    decreases s.len(),
{
    lemma_node_seq_view_len(s);
    if s.len() > 0 {
        if i < s.len() - 1 {
            lemma_node_seq_view_index(s.drop_last(), i);
        } else {
            lemma_node_seq_view_len(s.drop_last());
        }
    }
}

/// A name the listing drops: one whose first character is `.`.
pub open spec fn hidden_name(name: Seq<char>) -> bool {
    name.len() > 0 && name[0] == '.'
}

/// The sibling order: every directory precedes every file, and within
/// each of the two groups names compare case-insensitively.
pub open spec fn node_le(a: NodeView, b: NodeView) -> bool {
    if a.is_directory != b.is_directory {
        a.is_directory
    } else {
        lex_le(lower_of(a.name), lower_of(b.name))
    }
}

/// A sibling list in which every earlier node precedes every later one.
pub open spec fn ordered(s: Seq<NodeView>) -> bool {
    forall|i: int, j: int| 0 <= i < j < s.len() ==> node_le(s[i], s[j])
}

/// The sibling order is total.
pub proof fn lemma_node_le_total(a: NodeView, b: NodeView)
    ensures
        node_le(a, b) || node_le(b, a),
{
    if a.is_directory == b.is_directory {
        lemma_lex_le_total(lower_of(a.name), lower_of(b.name));
    }
}

/// The sibling order is transitive.
pub proof fn lemma_node_le_trans(a: NodeView, b: NodeView, c: NodeView)
    requires
        node_le(a, b),
        node_le(b, c),
    ensures
        node_le(a, c),
{
    if a.is_directory == b.is_directory && b.is_directory == c.is_directory {
        lemma_lex_le_trans(lower_of(a.name), lower_of(b.name), lower_of(c.name));
    }
}

/// Where a new node lands in a sibling list: the first position whose
/// node does not precede it, or the end.
pub open spec fn insert_pos(s: Seq<NodeView>, n: NodeView) -> int
    decreases s.len(),
{
    if s.len() == 0 {
        0
    } else if !node_le(s[0], n) {
        0
    } else {
        1 + insert_pos(s.drop_first(), n)
    }
}

/// A sibling list with one more node, placed after every node that
/// precedes it and before the rest.
pub open spec fn insert_ordered(s: Seq<NodeView>, n: NodeView) -> Seq<NodeView>
    decreases s.len(),
{
    if s.len() == 0 {
        seq![n]
    } else if !node_le(s[0], n) {
        seq![n] + s
    } else {
        seq![s[0]] + insert_ordered(s.drop_first(), n)
    }
}

/// `insert_pos` and the shape of `insert_ordered`: the new node stands
/// at `insert_pos`, everything before it precedes it, and the node at
/// that position (if any) does not.
pub proof fn lemma_insert_shape(s: Seq<NodeView>, n: NodeView)
    ensures
        0 <= insert_pos(s, n) <= s.len(),
        forall|k: int| 0 <= k < insert_pos(s, n) ==> node_le(#[trigger] s[k], n),
        insert_pos(s, n) < s.len() ==> !node_le(s[insert_pos(s, n)], n),
        insert_ordered(s, n) =~= s.subrange(0, insert_pos(s, n)) + seq![n] + s.subrange(
            insert_pos(s, n),
            s.len() as int,
        ),
    decreases s.len(),
{
    if s.len() == 0 {
    } else if !node_le(s[0], n) {
        assert(s.subrange(0, 0) =~= Seq::empty());
        assert(s.subrange(0, s.len() as int) =~= s);
    } else {
        lemma_insert_shape(s.drop_first(), n);
        let p = insert_pos(s, n);
        assert(p == 1 + insert_pos(s.drop_first(), n));
        assert(forall|k: int| 1 <= k < p ==> s.drop_first()[k - 1] == #[trigger] s[k]);
    }
}

/// Inserting into an ordered list keeps it ordered.
pub proof fn lemma_insert_ordered_keeps_order(s: Seq<NodeView>, n: NodeView)
    requires
        ordered(s),
    ensures
        ordered(insert_ordered(s, n)),
{
    lemma_insert_shape(s, n);
    let p = insert_pos(s, n);
    let r = insert_ordered(s, n);
    if p < s.len() {
        lemma_node_le_total(s[p], n);
    }
    assert forall|i: int, j: int| 0 <= i < j < r.len() implies node_le(r[i], r[j]) by {
        if i < p && j == p {
            // r[i] == s[i] precedes n
        } else if i == p && j > p {
            // n precedes s[j - 1]: n <= s[p] <= s[j - 1]
            if j - 1 > p {
                lemma_node_le_trans(n, s[p], s[j - 1]);
            }
        } else if i < p && j > p {
            // both from s
            assert(node_le(s[i], s[j - 1]));
        } else {
            // both strictly on the same side of p
        }
    }
}

/// The nodes of `insert_ordered(s, n)` are the nodes of `s` plus `n`.
pub proof fn lemma_insert_ordered_elems(s: Seq<NodeView>, n: NodeView)
    ensures
        insert_ordered(s, n).len() == s.len() + 1,
        forall|k: int|
            0 <= k < s.len() + 1 ==> (#[trigger] insert_ordered(s, n)[k] == n || exists|j: int|
                0 <= j < s.len() && insert_ordered(s, n)[k] == s[j]),
{
    lemma_insert_shape(s, n);
    let p = insert_pos(s, n);
    let r = insert_ordered(s, n);
    assert forall|k: int| 0 <= k < s.len() + 1 implies (#[trigger] r[k] == n || exists|j: int|
        0 <= j < s.len() && r[k] == s[j]) by {
        if k < p {
            assert(r[k] == s[k]);
        } else if k > p {
            assert(r[k] == s[k - 1]);
        }
    }
}

/// One built node: files keep no child list, directories keep the
/// listing built from their own enumeration, an unreadable directory
/// keeps an empty one.
pub open spec fn built_node(e: RawView) -> NodeView
    decreases e, 0int,
{
    NodeView {
        name: e.name,
        path: e.path,
        is_directory: e.kind is Directory,
        children: match e.kind {
            RawKindView::File => None,
            RawKindView::Directory(None) => Some(Seq::empty()),
            RawKindView::Directory(Some(sub)) => Some(built_forest(sub)),
        },
    }
}

/// The listing built from the first `n` raw entries: hidden names are
/// dropped, the rest are built and placed into sibling order.
pub open spec fn built_prefix(s: Seq<RawView>, n: int) -> Seq<NodeView>
    decreases s, n,
{
    if n <= 0 || s.len() < n {
        Seq::empty()
    } else if hidden_name(s[n - 1].name) {
        built_prefix(s, n - 1)
    } else {
        insert_ordered(built_prefix(s, n - 1), built_node(s[n - 1]))
    }
}

/// The listing built from a whole enumeration.
pub open spec fn built_forest(s: Seq<RawView>) -> Seq<NodeView>
    decreases s, s.len() + 1,
{
    built_prefix(s, s.len() as int)
}

/// Inserting into a sibling list adds exactly the one node.
pub proof fn lemma_insert_ordered_multiset(s: Seq<NodeView>, n: NodeView)
    ensures
        insert_ordered(s, n).to_multiset() == s.to_multiset().insert(n),
{
    lemma_insert_shape(s, n);
    let p = insert_pos(s, n);
    assert(insert_ordered(s, n) =~= s.insert(p, n));
    assert(s.insert(p, n).to_multiset() =~= s.to_multiset().insert(n));
}

/// The nodes a listing must contain: one built node for each entry of
/// the enumeration whose name is not hidden.
pub open spec fn kept_nodes(s: Seq<RawView>) -> Multiset<NodeView>
    decreases s, s.len(),
{
    if s.len() == 0 {
        Multiset::empty()
    } else if hidden_name(s.last().name) {
        kept_nodes(s.drop_last())
    } else {
        kept_nodes(s.drop_last()).insert(built_node(s.last()))
    }
}

proof fn lemma_built_prefix_multiset(s: Seq<RawView>, n: int)
    requires
        0 <= n <= s.len(),
    ensures
        built_prefix(s, n).to_multiset() == kept_nodes(s.subrange(0, n)),
    decreases n,
{
    let sub = s.subrange(0, n);
    if n == 0 {
        assert(built_prefix(s, 0).to_multiset() =~= kept_nodes(sub));
    } else {
        lemma_built_prefix_multiset(s, n - 1);
        assert(sub.drop_last() =~= s.subrange(0, n - 1));
        assert(sub.last() == s[n - 1]);
        if !hidden_name(s[n - 1].name) {
            lemma_insert_ordered_multiset(built_prefix(s, n - 1), built_node(s[n - 1]));
        }
    }
}

/// A built listing holds exactly the kept nodes of its enumeration:
/// one node for every entry whose name is not hidden, and nothing else.
pub proof fn lemma_built_forest_multiset(s: Seq<RawView>)
    ensures
        built_forest(s).to_multiset() == kept_nodes(s),
{
    lemma_built_prefix_multiset(s, s.len() as int);
    assert(s.subrange(0, s.len() as int) =~= s);
}

/// What one entry contributes to the kept nodes.
pub open spec fn kept_of(m: Multiset<NodeView>, e: RawView) -> Multiset<NodeView> {
    if hidden_name(e.name) {
        m
    } else {
        m.insert(built_node(e))
    }
}

proof fn lemma_kept_nodes_remove(s: Seq<RawView>, j: int)
    requires
        0 <= j < s.len(),
    ensures
        kept_nodes(s) == kept_of(kept_nodes(s.remove(j)), s[j]),
    decreases s.len(),
{
    if j == s.len() - 1 {
        assert(s.remove(j) =~= s.drop_last());
    } else {
        assert(s.remove(j).drop_last() =~= s.drop_last().remove(j));
        assert(s.remove(j).last() == s.last());
        lemma_kept_nodes_remove(s.drop_last(), j);
        let inner = kept_nodes(s.drop_last().remove(j));
        if !hidden_name(s.last().name) && !hidden_name(s[j].name) {
            assert(inner.insert(built_node(s[j])).insert(built_node(s.last()))
                =~= inner.insert(built_node(s.last())).insert(built_node(s[j])));
        }
    }
}

/// Which entries an enumeration kept does not depend on the order the
/// enumeration produced them in.
pub proof fn lemma_kept_nodes_permutation(s1: Seq<RawView>, s2: Seq<RawView>)
    requires
        s1.to_multiset() == s2.to_multiset(),
    ensures
        kept_nodes(s1) == kept_nodes(s2),
    decreases s1.len(),
{
    assert(s1.len() == s1.to_multiset().len());
    assert(s2.len() == s2.to_multiset().len());
    if s1.len() > 0 {
        let e = s1.last();
        assert(s1.to_multiset().count(e) > 0) by {
            assert(s1.contains(e));
        }
        assert(s2.contains(e));
        let j = choose|j: int| 0 <= j < s2.len() && s2[j] == e;
        lemma_kept_nodes_remove(s1, s1.len() - 1);
        lemma_kept_nodes_remove(s2, j);
        assert(s1.remove(s1.len() - 1).to_multiset() == s2.remove(j).to_multiset()) by {
            assert(s1.remove(s1.len() - 1).to_multiset() == s1.to_multiset().remove(e));
            assert(s2.remove(j).to_multiset() == s2.to_multiset().remove(e));
        }
        lemma_kept_nodes_permutation(s1.remove(s1.len() - 1), s2.remove(j));
    }
}

/// Order ties occur only between equal nodes.
pub open spec fn ties_only_between_equals(s: Seq<NodeView>) -> bool {
    forall|i: int, j: int|
        0 <= i < s.len() && 0 <= j < s.len() && node_le(s[i], s[j]) && node_le(s[j], s[i])
            ==> s[i] == s[j]
}

/// An ordered sibling list is determined by which nodes it holds, as
/// long as order ties occur only between equal nodes.
pub proof fn lemma_ordered_listing_determined(a: Seq<NodeView>, b: Seq<NodeView>)
    requires
        ordered(a),
        ordered(b),
        ties_only_between_equals(a),
        a.to_multiset() == b.to_multiset(),
    ensures
        a == b,
    decreases a.len(),
{
    assert(a.len() == a.to_multiset().len());
    assert(b.len() == b.to_multiset().len());
    if a.len() == 0 {
        assert(a =~= b);
    } else {
        assert(a.contains(a[0]));
        assert(b.to_multiset().count(a[0]) > 0);
        let k = choose|k: int| 0 <= k < b.len() && b[k] == a[0];
        assert(b.contains(b[0]));
        assert(a.to_multiset().count(b[0]) > 0);
        let i = choose|i: int| 0 <= i < a.len() && a[i] == b[0];
        if a[0] != b[0] {
            assert(node_le(a[0], a[i]));
            assert(node_le(b[0], b[k]));
            assert(node_le(a[i], a[0]));
            assert(false);
        }
        let ta = a.drop_first();
        let tb = b.drop_first();
        assert(ta =~= a.remove(0));
        assert(tb =~= b.remove(0));
        assert(ta.to_multiset() == tb.to_multiset()) by {
            assert(a.remove(0).to_multiset() == a.to_multiset().remove(a[0]));
            assert(b.remove(0).to_multiset() == b.to_multiset().remove(b[0]));
        }
        assert forall|m: int, n: int| 0 <= m < n < ta.len() implies node_le(ta[m], ta[n]) by {
            assert(ta[m] == a[m + 1] && ta[n] == a[n + 1]);
        }
        assert forall|m: int, n: int|
            0 <= m < ta.len() && 0 <= n < ta.len() && node_le(ta[m], ta[n]) && node_le(
                ta[n],
                ta[m],
            ) implies ta[m] == ta[n] by {
            assert(ta[m] == a[m + 1] && ta[n] == a[n + 1]);
        }
        assert forall|m: int, n: int| 0 <= m < n < tb.len() implies node_le(tb[m], tb[n]) by {
            assert(tb[m] == b[m + 1] && tb[n] == b[n + 1]);
        }
        lemma_ordered_listing_determined(ta, tb);
        assert forall|m: int| 0 <= m < a.len() implies a[m] == b[m] by {
            if m > 0 {
                assert(a[m] == ta[m - 1] && b[m] == tb[m - 1]);
            }
        }
        assert(a =~= b);
    }
}

/// The listing does not depend on the order the filesystem produced
/// the entries in: two enumerations holding the same entries build the
/// same listing, provided no two distinct kept nodes tie in the
/// sibling order (two kept entries of the same kind whose names fold
/// alike keep their enumeration order instead).
pub proof fn lemma_enumeration_order_immaterial(s1: Seq<RawView>, s2: Seq<RawView>)
    requires
        s1.to_multiset() == s2.to_multiset(),
        ties_only_between_equals(built_forest(s1)),
    ensures
        built_forest(s1) == built_forest(s2),
{
    lemma_built_forest_multiset(s1);
    lemma_built_forest_multiset(s2);
    lemma_kept_nodes_permutation(s1, s2);
    lemma_built_forest_wf(s1);
    lemma_built_forest_wf(s2);
    lemma_ordered_listing_determined(built_forest(s1), built_forest(s2));
}

/// A node the listing may contain: its name is not hidden, it has a
/// child list exactly when it is a directory, and that list is itself a
/// well-formed listing.
pub open spec fn node_wf(n: NodeView) -> bool
    decreases n, 0int,
{
    &&& !hidden_name(n.name)
    &&& n.is_directory <==> n.children is Some
    &&& match n.children {
        None => true,
        Some(c) => forest_wf(c),
    }
}

/// A well-formed listing: the siblings stand in order and every node,
/// at any depth, is itself well formed.
pub open spec fn forest_wf(s: Seq<NodeView>) -> bool
    decreases s, 1int,
{
    &&& ordered(s)
    &&& forall|i: int| 0 <= i < s.len() ==> node_wf(#[trigger] s[i])
}

proof fn lemma_built_node_wf(e: RawView)
    requires
        !hidden_name(e.name),
    ensures
        node_wf(built_node(e)),
    decreases e, 0int,
{
    match e.kind {
        RawKindView::Directory(Some(sub)) => {
            lemma_built_forest_wf(sub);
        },
        _ => {},
    }
}

proof fn lemma_built_prefix_wf(s: Seq<RawView>, n: int)
    ensures
        forest_wf(built_prefix(s, n)),
    decreases s, n,
{
    if n <= 0 || s.len() < n {
    } else {
        lemma_built_prefix_wf(s, n - 1);
        if !hidden_name(s[n - 1].name) {
            let acc = built_prefix(s, n - 1);
            let node = built_node(s[n - 1]);
            lemma_built_node_wf(s[n - 1]);
            lemma_insert_ordered_keeps_order(acc, node);
            lemma_insert_ordered_elems(acc, node);
        }
    }
}

/// Every listing this crate builds is well formed: at every depth the
/// siblings stand in order (directories first, case-insensitively
/// within each group), no node bears a hidden name, and a node carries
/// a child list exactly when it is a directory.
pub proof fn lemma_built_forest_wf(s: Seq<RawView>)
    ensures
        forest_wf(built_forest(s)),
    decreases s, s.len() + 1,
{
    lemma_built_prefix_wf(s, s.len() as int);
}

/// The message shown for an error: a fixed sentence for the two root
/// classifications, and the carried text for a read or write failure.
pub fn error_message(e: &ErrorKind) -> (m: String)
    ensures
        (match *e {
            ErrorKind::NotFound => m@ == "Path does not exist"@,
            ErrorKind::NotADirectory => m@ == "Path is not a directory"@,
            ErrorKind::ReadError(msg) => m@ == msg@,
            ErrorKind::WriteError(msg) => m@ == msg@,
        }),
{
    match e {
        ErrorKind::NotFound => "Path does not exist".to_owned(),
        ErrorKind::NotADirectory => "Path is not a directory".to_owned(),
        ErrorKind::ReadError(msg) => msg.clone(),
        ErrorKind::WriteError(msg) => msg.clone(),
    }
}

/// Decides whether a name is hidden.
pub fn name_is_hidden(name: &str) -> (r: bool)
    ensures
        r == hidden_name(name@),
{
    if name.unicode_len() == 0 {
        false
    } else {
        name.get_char(0) == '.'
    }
}

/// Decides the sibling order between two nodes.
fn node_le_exec(a: &FileNode, b: &FileNode) -> (r: bool)
    ensures
        r == node_le(node_view(*a), node_view(*b)),
{
    if a.is_directory != b.is_directory {
        a.is_directory
    } else {
        let la = lowercase(a.name.as_str());
        let lb = lowercase(b.name.as_str());
        str_lex_le(la.as_str(), lb.as_str())
    }
}

/// Places a node into a sibling list, after every node that precedes it
/// and before the rest.
fn insert_node(out: &mut Vec<FileNode>, n: FileNode)
    ensures
        node_seq_view(final(out)@) == insert_ordered(
            node_seq_view(old(out)@),
            node_view(n),
        ),
{
    let ghost s = node_seq_view(old(out)@);
    let ghost sn = node_view(n);
    proof {
        lemma_node_seq_view_len(old(out)@);
    }
    let mut p: usize = 0;
    loop
        invariant
            p <= out.len(),
            out == old(out),
            s == node_seq_view(out@),
            sn == node_view(n),
            s.len() == out.len(),
            forall|k: int| 0 <= k < p ==> node_le(#[trigger] s[k], sn),
        ensures
            p <= out.len(),
            out == old(out),
            forall|k: int| 0 <= k < p ==> node_le(#[trigger] s[k], sn),
            p < out.len() ==> !node_le(s[p as int], sn),
        decreases out.len() - p,
    {
        if p >= out.len() {
            break;
        }
        let le = node_le_exec(&out[p], &n);
        proof {
            lemma_node_seq_view_index(out@, p as int);
        }
        if !le {
            break;
        }
        p = p + 1;
    }
    let ghost pos = p as int;
    out.insert(p, n);
    proof {
        lemma_insert_shape(s, sn);
        // the found position is the one the shape lemma speaks of
        if pos < insert_pos(s, sn) {
            assert(node_le(s[pos], sn));
            assert(false);
        }
        if pos > insert_pos(s, sn) {
            assert(node_le(s[insert_pos(s, sn)], sn));
            assert(false);
        }
        lemma_node_seq_view_len(out@);
        assert forall|k: int| 0 <= k < out@.len() implies node_seq_view(out@)[k]
            == insert_ordered(s, sn)[k] by {
            lemma_node_seq_view_index(out@, k);
            if k < pos {
                lemma_node_seq_view_index(old(out)@, k);
            } else if k > pos {
                lemma_node_seq_view_index(old(out)@, k - 1);
            }
        }
        assert(node_seq_view(out@) =~= insert_ordered(s, sn));
    }
}

/// Builds the node for one enumerated entry, or drops it when its name
/// is hidden.
pub fn build_entry(e: &RawEntry) -> (r: Option<FileNode>)
    ensures
        (match r {
            None => hidden_name(raw_view(*e).name),
            Some(node) => !hidden_name(raw_view(*e).name) && node_view(node) == built_node(
                raw_view(*e),
            ),
        }),
    decreases *e,
{
    if name_is_hidden(e.name.as_str()) {
        return None;
    }
    match &e.kind {
        RawEntryKind::File => Some(FileNode {
            name: e.name.clone(),
            path: e.path.clone(),
            is_directory: false,
            children: None,
        }),
        RawEntryKind::Directory { entries: None } => {
            let node = FileNode {
                name: e.name.clone(),
                path: e.path.clone(),
                is_directory: true,
                children: Some(Vec::new()),
            };
            proof {
                assert(node_seq_view(Seq::<FileNode>::empty()) =~= Seq::<NodeView>::empty());
            }
            Some(node)
        },
        RawEntryKind::Directory { entries: Some(sub) } => {
            let kids = build_forest(sub);
            Some(FileNode {
                name: e.name.clone(),
                path: e.path.clone(),
                is_directory: true,
                children: Some(kids),
            })
        },
    }
}

/// Builds the ordered listing of one enumerated directory: hidden names
/// dropped, subdirectories built recursively, siblings placed in order.
pub fn build_forest(raw: &Vec<RawEntry>) -> (out: Vec<FileNode>)
    ensures
        node_seq_view(out@) == built_forest(raw_seq_view(raw@)),
    decreases *raw,
{
    let ghost rs = raw_seq_view(raw@);
    proof {
        lemma_raw_seq_view_len(raw@);
    }
    let mut out: Vec<FileNode> = Vec::new();
    let mut i: usize = 0;
    proof {
        assert(node_seq_view(Seq::<FileNode>::empty()) =~= built_prefix(rs, 0));
    }
    while i < raw.len()
        invariant
            i <= raw.len(),
            rs == raw_seq_view(raw@),
            rs.len() == raw.len(),
            node_seq_view(out@) == built_prefix(rs, i as int),
        decreases raw.len() - i,
    {
        proof {
            lemma_raw_seq_view_index(raw@, i as int);
        }
        let node_opt = build_entry(&raw[i]);
        match node_opt {
            None => {},
            Some(node) => {
                insert_node(&mut out, node);
            },
        }
        i = i + 1;
    }
    out
}

/// Builds the whole listing from what probing the root reported: a
/// missing root, a non-directory root and an unenumerable root each
/// fail with their own error; an enumerated root yields the ordered
/// listing of its entries.
pub fn build_tree(probe: DirProbe) -> (r: Result<Vec<FileNode>, ErrorKind>)
    ensures
        (match probe {
            DirProbe::Missing => r == Err::<Vec<FileNode>, ErrorKind>(ErrorKind::NotFound),
            DirProbe::NotDirectory => r == Err::<Vec<FileNode>, ErrorKind>(
                ErrorKind::NotADirectory,
            ),
            DirProbe::Unreadable { message } => r == Err::<Vec<FileNode>, ErrorKind>(
                ErrorKind::ReadError(message),
            ),
            DirProbe::Listed { entries } => r matches Ok(nodes) && node_seq_view(nodes@)
                == built_forest(raw_seq_view(entries@)),
        }),
{
    match probe {
        DirProbe::Missing => Err(ErrorKind::NotFound),
        DirProbe::NotDirectory => Err(ErrorKind::NotADirectory),
        DirProbe::Unreadable { message } => Err(ErrorKind::ReadError(message)),
        DirProbe::Listed { entries } => Ok(build_forest(&entries)),
    }
}

} // verus!
