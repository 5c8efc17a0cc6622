//! Bounded-depth listing of the directories below a root, in ascending
//! order of lowercase path.

use vstd::prelude::*;
use crate::entry::{arrange, entry_views, DirectoryEntry, EntryView};
use crate::listing::ListError;
use crate::sort::{
    comes_before, lemma_sorted_positions, sorted_positions, stable_order, stable_sorted, texts,
};
use crate::text::{chars_of, is_hidden, is_hidden_name, lowercase, lowercased, text_le};

verus! {

/// What a walk found at a node.
#[derive(Debug, Clone, Copy, PartialEq, Eq)]
pub enum NodeKind {
    /// A directory.
    Directory,
    /// Anything else whose metadata could be read.
    Other,
    /// A node whose metadata could not be read.
    Unreadable,
}

/// One node that a walk below a root visited.
#[derive(Debug, Clone, PartialEq, Eq)]
pub struct WalkNode {
    /// The names on the way from the root to the node, the root's own
    /// excluded and the node's own last. Their number is the node's depth.
    pub segments: Vec<String>,
    /// Full path.
    pub path: String,
    /// What the walk found there.
    pub kind: NodeKind,
}

/// The depth of a node below the root; the root itself has depth 0.
pub open spec fn depth_of(node: WalkNode) -> nat {
    node.segments@.len()
}

/// Whether the node or one of the directories above it, below the root, is
/// hidden.
pub open spec fn under_hidden(node: WalkNode) -> bool {
    exists|i: int| 0 <= i < node.segments@.len() && is_hidden_name(#[trigger] node.segments@[i]@)
}

/// Whether a walk to `max_depth` lists the node: it is a directory at a
/// depth from 1 to `max_depth`, neither hidden nor below a hidden one.
pub open spec fn shown_in_tree(node: WalkNode, max_depth: u32) -> bool {
    &&& node.kind == NodeKind::Directory
    &&& 1 <= depth_of(node) <= max_depth
    &&& !under_hidden(node)
}

/// The entry listed for a directory of the tree.
pub open spec fn tree_entry(node: WalkNode) -> EntryView {
    EntryView {
        name: node.segments@.last()@,
        path: node.path@,
        is_dir: true,
        size: 0,
        extension: None,
        modified_time: None,
    }
}

/// The nodes that a walk to `max_depth` lists, in the order of the walk.
pub open spec fn shown_nodes(nodes: Seq<WalkNode>, max_depth: u32) -> Seq<WalkNode>
    decreases nodes.len(),
{
    if nodes.len() == 0 {
        Seq::empty()
    } else {
        let front = shown_nodes(nodes.drop_last(), max_depth);
        if shown_in_tree(nodes.last(), max_depth) {
            front.push(nodes.last())
        } else {
            front
        }
    }
}

/// The sort keys of a group of nodes: their lowercase paths.
pub open spec fn path_keys(nodes: Seq<WalkNode>) -> Seq<Seq<char>> {
    Seq::new(nodes.len(), |i: int| lowercased(nodes[i].path@))
}

/// The entries of a group of nodes.
pub open spec fn tree_entries(nodes: Seq<WalkNode>) -> Seq<EntryView> {
    Seq::new(nodes.len(), |i: int| tree_entry(nodes[i]))
}

/// The listing of a walk: the entries of the listed nodes in ascending
/// order of lowercase path; entries with equal keys stay in the order of
/// the walk.
pub open spec fn tree_listing(nodes: Seq<WalkNode>, max_depth: u32) -> Seq<EntryView> {
    stable_sorted(
        tree_entries(shown_nodes(nodes, max_depth)),
        path_keys(shown_nodes(nodes, max_depth)),
    )
}

/// Whether one of the names is hidden.
pub fn any_hidden(segments: &Vec<String>) -> (r: bool)
    ensures
        r == exists|i: int| 0 <= i < segments@.len() && is_hidden_name(#[trigger] segments@[i]@),
{
    let mut i: usize = 0;
    while i < segments.len()
        invariant
            i <= segments.len(),
            forall|j: int| 0 <= j < i ==> !is_hidden_name(#[trigger] segments@[j]@),
        decreases segments.len() - i,
    {
        if is_hidden(segments[i].as_str()) {
            return true;
        }
        i += 1;
    }
    false
}

/// Whether a walk to `max_depth` lists `node`.
pub fn lists_node(node: &WalkNode, max_depth: u32) -> (r: bool)
    ensures
        r == shown_in_tree(*node, max_depth),
{
    let depth = node.segments.len();
    match node.kind {
        NodeKind::Directory => depth >= 1 && depth as u64 <= max_depth as u64 && !any_hidden(
            &node.segments,
        ),
        _ => false,
    }
}

/// Adding a node to a group adds its key and its entry at the end.
proof fn lemma_group_push(nodes: Seq<WalkNode>, node: WalkNode)
    ensures
        path_keys(nodes.push(node)) == path_keys(nodes).push(lowercased(node.path@)),
        tree_entries(nodes.push(node)) == tree_entries(nodes).push(tree_entry(node)),
{
    assert(path_keys(nodes.push(node)) =~= path_keys(nodes).push(lowercased(node.path@)));
    assert(tree_entries(nodes.push(node)) =~= tree_entries(nodes).push(tree_entry(node)));
}

/// Adding an entry and its key to the collected ones adds their values at
/// the end.
proof fn lemma_collected_push(
    entries: Seq<DirectoryEntry>,
    entry: DirectoryEntry,
    keys: Seq<Vec<char>>,
    key: Vec<char>,
)
    ensures
        entry_views(entries.push(entry)) == entry_views(entries).push(entry@),
        texts(keys.push(key)) == texts(keys).push(key@),
{
    assert(entry_views(entries.push(entry)) =~= entry_views(entries).push(entry@));
    assert(texts(keys.push(key)) =~= texts(keys).push(key@));
}

/// Lists the directories among the nodes of a walk, to `max_depth`.
pub fn list_tree(nodes: &Vec<WalkNode>, max_depth: u32) -> (list: Vec<DirectoryEntry>)
    ensures
        entry_views(list@) == tree_listing(nodes@, max_depth),
{
    let mut dirs: Vec<DirectoryEntry> = Vec::new();
    let mut keys: Vec<Vec<char>> = Vec::new();
    let mut i: usize = 0;
    assert(nodes@.take(0) =~= Seq::empty());
    while i < nodes.len()
        invariant
            i <= nodes.len(),
            entry_views(dirs@) =~= tree_entries(shown_nodes(nodes@.take(i as int), max_depth)),
            texts(keys@) =~= path_keys(shown_nodes(nodes@.take(i as int), max_depth)),
        decreases nodes.len() - i,
    {
        let ghost before = nodes@.take(i as int);
        let ghost after = nodes@.take(i + 1);
        let node = &nodes[i];
        proof {
            assert(after.drop_last() =~= before);
            assert(after.last() == *node);
            assert(shown_nodes(after, max_depth) == if shown_in_tree(*node, max_depth) {
                shown_nodes(before, max_depth).push(*node)
            } else {
                shown_nodes(before, max_depth)
            });
        }
        if lists_node(node, max_depth) {
            let key = chars_of(lowercase(node.path.as_str()).as_str());
            let entry = DirectoryEntry {
                name: node.segments[node.segments.len() - 1].clone(),
                path: node.path.clone(),
                is_dir: true,
                size: 0,
                extension: None,
                modified_time: None,
            };
            proof {
                assert(entry@ == tree_entry(*node));
                lemma_group_push(shown_nodes(before, max_depth), *node);
                lemma_collected_push(dirs@, entry, keys@, key);
            }
            dirs.push(entry);
            keys.push(key);
        }
        i += 1;
    }
    assert(nodes@.take(i as int) =~= nodes@);
    let order = stable_order(&keys);
    assert(entry_views(dirs@).len() == texts(keys@).len());
    arrange(&dirs, &order)
}

/// Lists the directories below a root from what a walk of it gave.
///
/// `walk` is the cause where the root could not be enumerated at all, else
/// the nodes that the walk visited, in the order of the walk. Nodes whose
/// metadata could not be read are passed over. The result is the listing,
/// or the message of the failure to enumerate.
pub fn read_directory_tree(walk: Result<Vec<WalkNode>, String>, depth: u32) -> (r: Result<
    Vec<DirectoryEntry>,
    String,
>)
    ensures
        match walk {
            Err(cause) => r matches Err(message) && message@ == "Failed to read directory: "@
                + cause@,
            Ok(nodes) => r matches Ok(list) && entry_views(list@) == tree_listing(nodes@, depth),
        },
{
    match walk {
        Err(cause) => Err(ListError::ReadDirectory(cause).message()),
        Ok(nodes) => Ok(list_tree(&nodes, depth)),
    }
}

/// Every node of the shown group is listed by the walk, and the group is no
/// longer than the walk.
pub proof fn lemma_shown_nodes(nodes: Seq<WalkNode>, max_depth: u32)
    ensures
        shown_nodes(nodes, max_depth).len() <= nodes.len(),
        forall|k: int| 0 <= k < shown_nodes(nodes, max_depth).len() ==> shown_in_tree(
            #[trigger] shown_nodes(nodes, max_depth)[k],
            max_depth,
        ),
    decreases nodes.len(),
{
    if nodes.len() > 0 {
        lemma_shown_nodes(nodes.drop_last(), max_depth);
    }
}

/// A walk to depth 0 lists nothing.
pub proof fn lemma_depth_zero_lists_nothing(nodes: Seq<WalkNode>)
    requires
        nodes.len() <= usize::MAX,
    ensures
        tree_listing(nodes, 0).len() == 0,
{
    lemma_shown_nodes(nodes, 0);
    if shown_nodes(nodes, 0).len() > 0 {
        assert(shown_in_tree(shown_nodes(nodes, 0)[0], 0));
    }
    lemma_sorted_positions(path_keys(shown_nodes(nodes, 0)));
}

/// Whether `entry` is the entry of a node of the walk that a walk to
/// `max_depth` lists.
pub open spec fn shows_a_node(nodes: Seq<WalkNode>, max_depth: u32, entry: EntryView) -> bool {
    exists|node: WalkNode|
        {
            &&& #[trigger] nodes.contains(node)
            &&& shown_in_tree(node, max_depth)
            &&& entry == tree_entry(node)
        }
}

/// Every listed entry is that of a directory at a depth from 1 to
/// `max_depth` that is neither hidden nor below a hidden directory, and
/// there are as many entries as such nodes.
pub proof fn lemma_tree_lists_shown_only(nodes: Seq<WalkNode>, max_depth: u32)
    requires
        nodes.len() <= usize::MAX,
    ensures
        tree_listing(nodes, max_depth).len() == shown_nodes(nodes, max_depth).len(),
        forall|k: int| 0 <= k < tree_listing(nodes, max_depth).len() ==> shows_a_node(
            nodes,
            max_depth,
            #[trigger] tree_listing(nodes, max_depth)[k],
        ),
{
    let shown = shown_nodes(nodes, max_depth);
    let order = sorted_positions(path_keys(shown));
    lemma_shown_nodes(nodes, max_depth);
    lemma_shown_from_walk(nodes, max_depth);
    lemma_sorted_positions(path_keys(shown));
    assert forall|k: int| 0 <= k < tree_listing(nodes, max_depth).len() implies shows_a_node(
        nodes,
        max_depth,
        #[trigger] tree_listing(nodes, max_depth)[k],
    ) by {
        let node = shown[order[k] as int];
        assert(shown_in_tree(node, max_depth));
        assert(shown.contains(node));
        assert(nodes.contains(node));
    }
}

/// Every node of the walk that a walk to `max_depth` lists has its entry in
/// the listing.
pub proof fn lemma_tree_holds_every_shown(nodes: Seq<WalkNode>, max_depth: u32, node: WalkNode)
    requires
        nodes.len() <= usize::MAX,
        nodes.contains(node),
        shown_in_tree(node, max_depth),
    ensures
        tree_listing(nodes, max_depth).contains(tree_entry(node)),
{
    let shown = shown_nodes(nodes, max_depth);
    let order = sorted_positions(path_keys(shown));
    lemma_shown_nodes(nodes, max_depth);
    lemma_walk_to_shown(nodes, max_depth, node);
    lemma_sorted_positions(path_keys(shown));
    let j = choose|j: int| 0 <= j < shown.len() && shown[j] == node;
    assert(order.contains(j as usize));
    let k = choose|k: int| 0 <= k < order.len() && order[k] == j as usize;
    assert(tree_listing(nodes, max_depth)[k] == tree_entry(node));
}

/// A listed node of the walk stands in the shown group.
proof fn lemma_walk_to_shown(nodes: Seq<WalkNode>, max_depth: u32, node: WalkNode)
    requires
        nodes.contains(node),
        shown_in_tree(node, max_depth),
    ensures
        shown_nodes(nodes, max_depth).contains(node),
    decreases nodes.len(),
{
    let front = nodes.drop_last();
    let n = nodes.len() - 1;
    if nodes[n] == node {
        assert(shown_nodes(nodes, max_depth)[shown_nodes(front, max_depth).len() as int] == node);
    } else {
        let j = choose|j: int| 0 <= j < nodes.len() && nodes[j] == node;
        assert(front[j] == node);
        lemma_walk_to_shown(front, max_depth, node);
        let k = choose|k: int|
            0 <= k < shown_nodes(front, max_depth).len() && shown_nodes(front, max_depth)[k]
                == node;
        assert(shown_nodes(nodes, max_depth)[k] == node);
    }
}

/// Every node of the shown group is a node of the walk.
proof fn lemma_shown_from_walk(nodes: Seq<WalkNode>, max_depth: u32)
    ensures
        forall|node: WalkNode| #[trigger]
            shown_nodes(nodes, max_depth).contains(node) ==> nodes.contains(node),
    decreases nodes.len(),
{
    if nodes.len() > 0 {
        let front = nodes.drop_last();
        lemma_shown_from_walk(front, max_depth);
        assert forall|node: WalkNode| #[trigger]
            shown_nodes(nodes, max_depth).contains(node) implies nodes.contains(node) by {
            let k = choose|k: int|
                0 <= k < shown_nodes(nodes, max_depth).len() && shown_nodes(nodes, max_depth)[k]
                    == node;
            if k < shown_nodes(front, max_depth).len() {
                assert(shown_nodes(front, max_depth)[k] == node);
                assert(shown_nodes(front, max_depth).contains(node));
                let j = choose|j: int| 0 <= j < front.len() && front[j] == node;
                assert(nodes[j] == node);
            } else {
                assert(nodes[nodes.len() - 1] == node);
            }
        }
    }
}

/// The listed paths ascend in lowercase.
pub proof fn lemma_tree_ascends(nodes: Seq<WalkNode>, max_depth: u32)
    requires
        nodes.len() <= usize::MAX,
    ensures
        forall|a: int, b: int| 0 <= a < b < tree_listing(nodes, max_depth).len() ==> text_le(
            lowercased((#[trigger] tree_listing(nodes, max_depth)[a]).path),
            lowercased((#[trigger] tree_listing(nodes, max_depth)[b]).path),
        ),
{
    let shown = shown_nodes(nodes, max_depth);
    let order = sorted_positions(path_keys(shown));
    lemma_shown_nodes(nodes, max_depth);
    lemma_sorted_positions(path_keys(shown));
    assert forall|a: int, b: int| 0 <= a < b < tree_listing(nodes, max_depth).len() implies text_le(
        lowercased((#[trigger] tree_listing(nodes, max_depth)[a]).path),
        lowercased((#[trigger] tree_listing(nodes, max_depth)[b]).path),
    ) by {
        assert(comes_before(path_keys(shown), order[a] as int, order[b] as int));
    }
}

} // verus!
