//! The directory tree built by replaying a parsed command transcript, and
//! the size queries run over it.
//!
//! The tree lives in an `indextree::Arena`; every node holds one
//! [`DirectoryEntry`].  Nodes are only ever appended, never removed or
//! reparented, so a node's one-based arena id is always greater than its
//! parent's.  The arena's contents are described by the uninterpreted
//! [`arena_model`], and every arena operation goes through a small trusted
//! wrapper whose contract states what the operation does to that model.

use vstd::prelude::*;
use std::num::NonZeroUsize;
use crate::terminal::{Command, CommandView, CommandIterator, Directory, DirectoryEntry,
    DirectoryView, EntryView, spec_commands};
use crate::text::{push_char, digit_char, dec_str};

verus! {

/// Mathematical value of one tree node: its entry, the id of its parent,
/// and the ids of its children in insertion order.  Ids are one-based; the
/// node with id `i` is element `i - 1` of the model sequence.
pub struct NodeModel {
    pub entry: EntryView,
    pub parent: Option<int>,
    pub children: Seq<int>,
}

#[verifier::external_type_specification]
#[verifier::external_body]
#[verifier::reject_recursive_types(T)]
pub struct ExArena<T>(indextree::Arena<T>);

/// What the arena holds: one `NodeModel` per node, in creation order.  The
/// node created `k`-th (starting at zero) has arena id `k + 1`.
pub uninterp spec fn arena_model(a: indextree::Arena<DirectoryEntry>) -> Seq<NodeModel>;

/// Relies on `indextree::Arena::new`: a fresh arena holds no nodes.
#[verifier::external_body]
fn arena_new() -> (a: indextree::Arena<DirectoryEntry>)
    ensures
        arena_model(a) == Seq::<NodeModel>::empty(),
{
    indextree::Arena::new()
}

/// Relies on `indextree::Arena::new_node`: appends a fresh node holding
/// `entry`, with no parent and no children, and returns its id, the new
/// node count.  `From<NodeId> for usize` yields the one-based index.
#[verifier::external_body]
fn arena_new_node(a: &mut indextree::Arena<DirectoryEntry>, entry: DirectoryEntry) -> (id: usize)
    requires
        arena_model(*old(a)).len() < usize::MAX,
    ensures
        arena_model(*final(a)) == arena_model(*old(a)).push(
            NodeModel { entry: entry@, parent: None, children: Seq::empty() },
        ),
        id == arena_model(*old(a)).len() + 1,
{
    usize::from(a.new_node(entry))
}

/// Relies on `indextree::NodeId::append` (and `Arena::get_node_id_at` to
/// turn indices back into ids): makes `child` the last child of `parent`.
/// The child must be fresh — no parent, no children — so the call cannot
/// detach anything or build a cycle.
#[verifier::external_body]
fn arena_append(a: &mut indextree::Arena<DirectoryEntry>, parent: usize, child: usize)
    requires
        1 <= parent <= arena_model(*old(a)).len(),
        1 <= child <= arena_model(*old(a)).len(),
        parent != child,
        arena_model(*old(a))[child - 1].parent is None,
        arena_model(*old(a))[child - 1].children.len() == 0,
    ensures
        arena_model(*final(a)) == arena_model(*old(a)).update(
            parent - 1,
            NodeModel {
                children: arena_model(*old(a))[parent - 1].children.push(child as int),
                ..arena_model(*old(a))[parent - 1]
            },
        ).update(
            child - 1,
            NodeModel { parent: Some(parent as int), ..arena_model(*old(a))[child - 1] },
        ),
{
    let p = a.get_node_id_at(NonZeroUsize::new(parent).unwrap()).unwrap();
    let c = a.get_node_id_at(NonZeroUsize::new(child).unwrap()).unwrap();
    p.append(c, a);
}

/// Relies on `indextree::Arena::get` and `Node::get`: the entry stored in
/// the node with the given id.
#[verifier::external_body]
fn arena_entry<'a>(a: &'a indextree::Arena<DirectoryEntry>, id: usize) -> (r: &'a DirectoryEntry)
    requires
        1 <= id <= arena_model(*a).len(),
    ensures
        r@ == arena_model(*a)[id - 1].entry,
{
    a.get(a.get_node_id_at(NonZeroUsize::new(id).unwrap()).unwrap()).unwrap().get()
}

/// Relies on `indextree::Arena::get` and `Node::parent`: the id of the
/// node's parent, if it has one.
#[verifier::external_body]
fn arena_parent(a: &indextree::Arena<DirectoryEntry>, id: usize) -> (r: Option<usize>)
    requires
        1 <= id <= arena_model(*a).len(),
    ensures
        match (r, arena_model(*a)[id - 1].parent) {
            (Some(p), Some(q)) => p as int == q,
            (None, None) => true,
            _ => false,
        },
{
    a.get(a.get_node_id_at(NonZeroUsize::new(id).unwrap()).unwrap()).unwrap().parent().map(
        usize::from,
    )
}

/// Relies on `indextree::NodeId::children`: the ids of the node's children,
/// first to last.
#[verifier::external_body]
fn arena_children(a: &indextree::Arena<DirectoryEntry>, id: usize) -> (r: Vec<usize>)
    requires
        1 <= id <= arena_model(*a).len(),
    ensures
        r@.map_values(|x: usize| x as int) == arena_model(*a)[id - 1].children,
{
    a.get_node_id_at(NonZeroUsize::new(id).unwrap()).unwrap().children(a).map(usize::from).collect()
}

/// A well-formed tree model: node 1 is the root; every other node names a
/// parent with a smaller id and stands in that parent's child list; child
/// lists point down the sequence, agree with the parent fields, and hold no
/// duplicates.
pub open spec fn wf_model(m: Seq<NodeModel>) -> bool {
    &&& m.len() >= 1
    &&& m[0].parent is None
    &&& forall|i: int|
        1 <= i < m.len() ==> ((#[trigger] m[i].parent) matches Some(p) && 1 <= p <= i && m[p
            - 1].children.contains(i + 1))
    &&& forall|i: int, k: int|
        0 <= i < m.len() && 0 <= k < m[i].children.len() ==> i + 2 <= #[trigger] m[i].children[k]
            <= m.len() && m[m[i].children[k] - 1].parent == Some(i + 1)
    &&& forall|i: int, k1: int, k2: int|
        0 <= i < m.len() && 0 <= k1 < k2 < m[i].children.len() ==> #[trigger] m[i].children[k1]
            != #[trigger] m[i].children[k2]
}

/// The model a replay starts from: one root directory named `/`.
pub open spec fn init_model() -> Seq<NodeModel> {
    seq![
        NodeModel {
            entry: EntryView::Directory { name: seq!['/'] },
            parent: None,
            children: Seq::empty(),
        },
    ]
}

/// The first id in `children` holding a directory named `name`.
pub open spec fn find_child(m: Seq<NodeModel>, children: Seq<int>, name: Seq<char>) -> Option<int>
    decreases children.len(),
{
    if children.len() == 0 {
        None
    } else {
        let c = children[0];
        if 1 <= c <= m.len() && (m[c - 1].entry matches EntryView::Directory { name: n } && n
            == name) {
            Some(c)
        } else {
            find_child(m, children.skip(1), name)
        }
    }
}

/// Appending one listed entry: a fresh node goes in as the last child of
/// the cursor.
pub open spec fn append_node(m: Seq<NodeModel>, cursor: int, e: EntryView) -> Seq<NodeModel> {
    m.update(
        cursor - 1,
        NodeModel { children: m[cursor - 1].children.push(m.len() as int + 1), ..m[cursor - 1] },
    ).push(NodeModel { entry: e, parent: Some(cursor), children: Seq::empty() })
}

/// Appending the entries of one `ls` block, in order.
pub open spec fn apply_ls(m: Seq<NodeModel>, cursor: int, entries: Seq<EntryView>) -> Seq<
    NodeModel,
>
    decreases entries.len(),
{
    if entries.len() == 0 {
        m
    } else {
        apply_ls(append_node(m, cursor, entries[0]), cursor, entries.skip(1))
    }
}

/// One command applied to the tree and the cursor.  `cd /` is ignored,
/// `cd ..` at the root is a fault (`None`), `cd name` with no matching
/// child leaves the cursor where it is, and `ls` appends its entries under
/// the cursor.
pub open spec fn replay_step(m: Seq<NodeModel>, cursor: int, c: CommandView) -> Option<
    (Seq<NodeModel>, int),
> {
    match c {
        CommandView::Cd(DirectoryView::Root) => Some((m, cursor)),
        CommandView::Cd(DirectoryView::Parent) => match m[cursor - 1].parent {
            Some(p) => Some((m, p)),
            None => None,
        },
        CommandView::Cd(DirectoryView::Child(name)) => match find_child(
            m,
            m[cursor - 1].children,
            name,
        ) {
            Some(c2) => Some((m, c2)),
            None => Some((m, cursor)),
        },
        CommandView::Ls(entries) => Some((apply_ls(m, cursor, entries), cursor)),
    }
}

/// A command sequence replayed from the given tree and cursor.
pub open spec fn replay_from(m: Seq<NodeModel>, cursor: int, cmds: Seq<CommandView>) -> Option<
    (Seq<NodeModel>, int),
>
    decreases cmds.len(),
{
    if cmds.len() == 0 {
        Some((m, cursor))
    } else {
        match replay_step(m, cursor, cmds[0]) {
            None => None,
            Some((m2, c2)) => replay_from(m2, c2, cmds.skip(1)),
        }
    }
}

/// A command sequence replayed from scratch: the root directory alone,
/// with the cursor on it.
pub open spec fn replay(cmds: Seq<CommandView>) -> Option<(Seq<NodeModel>, int)> {
    replay_from(init_model(), 1, cmds)
}

/// Number of entries the `ls` blocks of a command sequence list in total:
/// every one becomes a node of the tree.
pub open spec fn total_entry_count(cmds: Seq<CommandView>) -> int
    decreases cmds.len(),
{
    if cmds.len() == 0 {
        0
    } else {
        let head = match cmds[0] {
            CommandView::Ls(entries) => entries.len() as int,
            _ => 0,
        };
        head + total_entry_count(cmds.skip(1))
    }
}

proof fn lemma_total_entry_count_nonneg(cmds: Seq<CommandView>)
    ensures
        total_entry_count(cmds) >= 0,
    decreases cmds.len(),
{
    if cmds.len() > 0 {
        lemma_total_entry_count_nonneg(cmds.skip(1));
    }
}

proof fn lemma_total_entry_count_append(a: Seq<CommandView>, b: Seq<CommandView>)
    ensures
        total_entry_count(a + b) == total_entry_count(a) + total_entry_count(b),
    decreases a.len(),
{
    if a.len() == 0 {
        assert(a + b =~= b);
    } else {
        assert((a + b)[0] == a[0]);
        assert((a + b).skip(1) =~= a.skip(1) + b);
        lemma_total_entry_count_append(a.skip(1), b);
    }
}

proof fn lemma_replay_from_snoc(m: Seq<NodeModel>, cursor: int, cmds: Seq<CommandView>, c: CommandView)
    ensures
        replay_from(m, cursor, cmds.push(c)) == match replay_from(m, cursor, cmds) {
            Some((m2, c2)) => replay_step(m2, c2, c),
            None => None,
        },
    decreases cmds.len(),
{
    if cmds.len() == 0 {
        assert(cmds.push(c).skip(1) =~= Seq::<CommandView>::empty());
        assert(cmds.push(c)[0] == c);
        match replay_step(m, cursor, c) {
            None => (),
            Some((m2, c2)) => {
                assert(replay_from(m2, c2, Seq::<CommandView>::empty()) == Some((m2, c2)));
            },
        }
    } else {
        assert(cmds.push(c)[0] == cmds[0]);
        assert(cmds.push(c).skip(1) =~= cmds.skip(1).push(c));
        match replay_step(m, cursor, cmds[0]) {
            None => (),
            Some((m2, c2)) => {
                lemma_replay_from_snoc(m2, c2, cmds.skip(1), c);
            },
        }
    }
}

proof fn lemma_replay_from_append(
    m: Seq<NodeModel>,
    cursor: int,
    a: Seq<CommandView>,
    b: Seq<CommandView>,
)
    ensures
        replay_from(m, cursor, a + b) == match replay_from(m, cursor, a) {
            Some((m2, c2)) => replay_from(m2, c2, b),
            None => None,
        },
    decreases a.len(),
{
    if a.len() == 0 {
        assert(a + b =~= b);
    } else {
        assert((a + b)[0] == a[0]);
        assert((a + b).skip(1) =~= a.skip(1) + b);
        match replay_step(m, cursor, a[0]) {
            None => (),
            Some((m2, c2)) => {
                lemma_replay_from_append(m2, c2, a.skip(1), b);
            },
        }
    }
}

/// Appending a fresh node keeps the model well formed.
proof fn lemma_append_node_wf(m: Seq<NodeModel>, cursor: int, e: EntryView)
    requires
        wf_model(m),
        1 <= cursor <= m.len(),
    ensures
        wf_model(append_node(m, cursor, e)),
        append_node(m, cursor, e).len() == m.len() + 1,
{
    let m2 = append_node(m, cursor, e);
    assert forall|i: int| 1 <= i < m2.len() implies (#[trigger] m2[i].parent) matches Some(p) && 1
        <= p <= i && m2[p - 1].children.contains(i + 1) by {
        if i < m.len() {
            assert(m[i].parent matches Some(p) && 1 <= p <= i && m[p - 1].children.contains(i + 1));
            let p = m[i].parent->Some_0;
            if p - 1 == cursor - 1 {
                let k = choose|k: int|
                    0 <= k < m[p - 1].children.len() && #[trigger] m[p - 1].children[k] == i + 1;
                assert(m2[p - 1].children[k] == i + 1);
            }
        } else {
            assert(m2[i].parent == Some(cursor));
            assert(m2[cursor - 1].children.last() == m.len() + 1);
        }
    }
    assert forall|i: int, k: int|
        0 <= i < m2.len() && 0 <= k < m2[i].children.len() implies i + 2 <= #[trigger] m2[
        i].children[k] <= m2.len() && m2[m2[i].children[k] - 1].parent == Some(i + 1) by {
        if i == cursor - 1 {
            if k < m[i].children.len() {
                assert(m[i].children[k] == m2[i].children[k]);
                assert(i + 2 <= m[i].children[k] <= m.len());
            } else {
                assert(m2[i].children[k] == m.len() + 1);
            }
        } else if i < m.len() {
            assert(m2[i].children == m[i].children);
            assert(i + 2 <= m[i].children[k] <= m.len());
        } else {
            assert(m2[i].children.len() == 0);
        }
    }
    assert forall|i: int, k1: int, k2: int|
        0 <= i < m2.len() && 0 <= k1 < k2 < m2[i].children.len() implies #[trigger] m2[i].children[
        k1] != #[trigger] m2[i].children[k2] by {
        if i == cursor - 1 {
            if k2 < m[i].children.len() {
            } else {
                assert(m2[i].children[k2] == m.len() + 1);
                assert(m[i].children[k1] <= m.len());
            }
        } else if i < m.len() {
            assert(m2[i].children == m[i].children);
        } else {
            assert(m2[i].children.len() == 0);
        }
    }
}

/// Replaying an `ls` block keeps the model well formed and grows it by one
/// node per entry.
proof fn lemma_apply_ls_wf(m: Seq<NodeModel>, cursor: int, entries: Seq<EntryView>)
    requires
        wf_model(m),
        1 <= cursor <= m.len(),
    ensures
        wf_model(apply_ls(m, cursor, entries)),
        apply_ls(m, cursor, entries).len() == m.len() + entries.len(),
    decreases entries.len(),
{
    if entries.len() > 0 {
        lemma_append_node_wf(m, cursor, entries[0]);
        lemma_apply_ls_wf(append_node(m, cursor, entries[0]), cursor, entries.skip(1));
    }
}

/// A found child is one of the cursor's children.
proof fn lemma_find_child_valid(m: Seq<NodeModel>, children: Seq<int>, name: Seq<char>)
    requires
        find_child(m, children, name) is Some,
    ensures
        children.contains(find_child(m, children, name)->Some_0),
        1 <= find_child(m, children, name)->Some_0 <= m.len(),
    decreases children.len(),
{
    if children.len() > 0 {
        let c = children[0];
        if 1 <= c <= m.len() && (m[c - 1].entry matches EntryView::Directory { name: n } && n
            == name) {
        } else {
            lemma_find_child_valid(m, children.skip(1), name);
            assert(children.contains(find_child(m, children, name)->Some_0));
        }
    }
}

/// Replaying keeps the model well formed, keeps the cursor on a node, and
/// grows the model by one node per listed entry.
proof fn lemma_replay_from_wf(m: Seq<NodeModel>, cursor: int, cmds: Seq<CommandView>)
    requires
        wf_model(m),
        1 <= cursor <= m.len(),
        replay_from(m, cursor, cmds) is Some,
    ensures
        ({
            let (m2, c2) = replay_from(m, cursor, cmds)->Some_0;
            &&& wf_model(m2)
            &&& 1 <= c2 <= m2.len()
            &&& m2.len() == m.len() + total_entry_count(cmds)
        }),
    decreases cmds.len(),
{
    if cmds.len() > 0 {
        match replay_step(m, cursor, cmds[0]) {
            None => (),
            Some((m2, c2)) => {
                match cmds[0] {
                    CommandView::Cd(DirectoryView::Root) => (),
                    CommandView::Cd(DirectoryView::Parent) => (),
                    CommandView::Cd(DirectoryView::Child(name)) => {
                        if find_child(m, m[cursor - 1].children, name) is Some {
                            lemma_find_child_valid(m, m[cursor - 1].children, name);
                        }
                    },
                    CommandView::Ls(entries) => {
                        lemma_apply_ls_wf(m, cursor, entries);
                    },
                }
                lemma_replay_from_wf(m2, c2, cmds.skip(1));
            },
        }
    }
}

/// The filesystem tree: an arena of entries and the id of the root node.
pub struct Filesystem {
    root: usize,
    arena: indextree::Arena<DirectoryEntry>,
}

impl View for Filesystem {
    type V = Seq<NodeModel>;

    closed spec fn view(&self) -> Seq<NodeModel> {
        arena_model(self.arena)
    }
}

impl Filesystem {
    /// A filesystem that can be queried: a well-formed tree whose root is
    /// node 1.
    pub closed spec fn wf(&self) -> bool {
        &&& wf_model(self@)
        &&& self.root == 1
    }

    /// Replay the transcript's commands into a tree.  The input must not
    /// drive the cursor above the root (`cd ..` there is a programming
    /// error the caller is expected to rule out), and the node count must
    /// fit the machine.
    pub fn parse(input: &str) -> (r: Filesystem)
        requires
            replay(spec_commands(input@)) is Some,
            1 + total_entry_count(spec_commands(input@)) <= usize::MAX,
        ensures
            r.wf(),
            r@ == replay(spec_commands(input@))->Some_0.0,
    {
        let ghost all_cmds = spec_commands(input@);
        let mut arena: indextree::Arena<DirectoryEntry> = arena_new();
        let root_name: String = "/".to_owned();
        proof {
            reveal_strlit("/");
            assert(root_name@ =~= seq!['/']);
        }
        let root: usize = arena_new_node(&mut arena, DirectoryEntry::Directory { name: root_name });
        proof {
            assert(arena_model(arena) =~= init_model());
        }
        let mut current_dir: usize = root;
        let mut it: CommandIterator = Command::parse_multiple(input);
        let ghost mut done: Seq<CommandView> = Seq::empty();
        proof {
            assert(done + spec_commands(it.input@) =~= all_cmds);
        }
        loop
            invariant
                all_cmds == spec_commands(input@),
                replay(all_cmds) is Some,
                1 + total_entry_count(all_cmds) <= usize::MAX,
                all_cmds == done + spec_commands(it.input@),
                replay_from(init_model(), 1, done) == Some((arena_model(arena), current_dir as int)),
                wf_model(arena_model(arena)),
                1 <= current_dir <= arena_model(arena).len(),
                arena_model(arena).len() == 1 + total_entry_count(done),
            ensures
                spec_commands(it.input@) =~= Seq::<CommandView>::empty(),
            decreases it.input@.len(),
        {
            let ghost rest_before = spec_commands(it.input@);
            let ghost len_before = it.input@.len();
            let command: Command = match it.next() {
                Some(c) => c,
                None => {
                    break ;
                },
            };
            let ghost m0 = arena_model(arena);
            let ghost cur0 = current_dir as int;
            proof {
                // The full replay succeeds, so this step does too.
                assert(all_cmds =~= done + (seq![command@] + spec_commands(it.input@)));
                assert(all_cmds =~= (done + seq![command@]) + spec_commands(it.input@));
                lemma_replay_from_append(
                    init_model(),
                    1,
                    done + seq![command@],
                    spec_commands(it.input@),
                );
                assert(done + seq![command@] =~= done.push(command@));
                lemma_replay_from_snoc(init_model(), 1, done, command@);
                assert(replay_step(m0, cur0, command@) is Some);
                lemma_total_entry_count_snoc(done, command@);
            }
            match command {
                Command::Cd(Directory::Root) => {
                },
                Command::Cd(Directory::Parent) => {
                    current_dir = match arena_parent(&arena, current_dir) {
                        Some(p) => p,
                        None => {
                            proof {
                                assert(false);
                            }
                            current_dir
                        },
                    };
                },
                Command::Cd(Directory::Child(name)) => {
                    let children: Vec<usize> = arena_children(&arena, current_dir);
                    let ghost cs = m0[cur0 - 1].children;
                    let mut k: usize = 0;
                    let mut found: Option<usize> = None;
                    proof {
                        assert(cs.skip(0) =~= cs);
                    }
                    while k < children.len() && found.is_none()
                        invariant
                            wf_model(m0),
                            1 <= cur0 <= m0.len(),
                            arena_model(arena) == m0,
                            children@.map_values(|x: usize| x as int) == cs,
                            cs == m0[cur0 - 1].children,
                            0 <= k <= cs.len(),
                            match found {
                                Some(f) => find_child(m0, cs, name@) == Some(f as int),
                                None => find_child(m0, cs, name@) == find_child(
                                    m0,
                                    cs.skip(k as int),
                                    name@,
                                ),
                            },
                        decreases cs.len() - k, (if found is None { 1int } else { 0int }),
                    {
                        let child: usize = children[k];
                        proof {
                            assert(children@.map_values(|x: usize| x as int)[k as int] == child
                                as int);
                            assert(m0[cur0 - 1].children[k as int] == child as int);
                            assert(1 <= child as int <= m0.len());
                            assert(cs.skip(k as int)[0] == cs[k as int]);
                            assert(cs.skip(k as int).skip(1) =~= cs.skip(k as int + 1));
                        }
                        let entry: &DirectoryEntry = arena_entry(&arena, child);
                        match entry {
                            DirectoryEntry::Directory { name: n } => {
                                if *n == name {
                                    found = Some(child);
                                } else {
                                    k = k + 1;
                                }
                            },
                            DirectoryEntry::File { .. } => {
                                k = k + 1;
                            },
                        }
                    }
                    proof {
                        if found is None {
                            assert(cs.skip(cs.len() as int) =~= Seq::<int>::empty());
                        }
                    }
                    match found {
                        Some(f) => {
                            current_dir = f;
                            proof {
                                lemma_find_child_valid(m0, cs, name@);
                            }
                        },
                        None => {
                        },
                    }
                },
                Command::Ls(entries) => {
                    let ghost evs = entries@.map_values(|e: DirectoryEntry| e@);
                    let mut entries: Vec<DirectoryEntry> = entries;
                    let ghost mut idx: int = 0;
                    proof {
                        assert(evs.skip(0) =~= evs);
                        assert(evs.take(0) =~= Seq::<EntryView>::empty());
                        // The node count stays within the machine: the whole
                        // transcript's entry count is bounded.
                        lemma_total_entry_count_append(
                            done + seq![command@],
                            spec_commands(it.input@),
                        );
                        lemma_total_entry_count_nonneg(spec_commands(it.input@));
                        assert(m0.len() + evs.len() <= usize::MAX);
                    }
                    while entries.len() > 0
                        invariant
                            0 <= idx <= evs.len(),
                            entries@.map_values(|e: DirectoryEntry| e@) == evs.skip(idx),
                            wf_model(arena_model(arena)),
                            1 <= current_dir as int <= arena_model(arena).len(),
                            arena_model(arena) == apply_ls(m0, cur0, evs.take(idx)),
                            cur0 == current_dir as int,
                            wf_model(m0),
                            1 <= cur0 <= m0.len(),
                            arena_model(arena).len() == m0.len() + idx,
                            m0.len() + evs.len() <= usize::MAX,
                        decreases entries@.len(),
                    {
                        proof {
                            assert(entries@.map_values(|e: DirectoryEntry| e@).len()
                                == entries@.len());
                            assert(idx < evs.len());
                        }
                        let ghost entries_before = entries@;
                        let e: DirectoryEntry = entries.remove(0);
                        let ghost m_before = arena_model(arena);
                        proof {
                            assert(evs.skip(idx)[0] == e@);
                        }
                        let new_id: usize = arena_new_node(&mut arena, e);
                        arena_append(&mut arena, current_dir, new_id);
                        proof {
                            assert(arena_model(arena) =~= append_node(m_before, cur0, e@));
                            lemma_append_node_wf(m_before, cur0, e@);
                            lemma_apply_ls_take_step(m0, cur0, evs, idx);
                            assert(entries@ =~= entries_before.skip(1));
                            assert(entries@.map_values(|en: DirectoryEntry| en@)
                                =~= entries_before.map_values(|en: DirectoryEntry| en@).skip(1));
                            assert(evs.skip(idx).skip(1) =~= evs.skip(idx + 1));
                            idx = idx + 1;
                            assert(entries@.map_values(|en: DirectoryEntry| en@) =~= evs.skip(idx));
                        }
                    }
                    proof {
                        assert(evs.take(evs.len() as int) =~= evs);
                    }
                },
            }
            proof {
                done = done.push(command@);
            }
        }
        proof {
            assert(done =~= all_cmds);
        }
        Filesystem { root, arena }
    }
}

proof fn lemma_total_entry_count_snoc(cmds: Seq<CommandView>, c: CommandView)
    ensures
        total_entry_count(cmds.push(c)) == total_entry_count(cmds) + (match c {
            CommandView::Ls(entries) => entries.len() as int,
            _ => 0,
        }),
    decreases cmds.len(),
{
    if cmds.len() == 0 {
        assert(cmds.push(c)[0] == c);
        assert(cmds.push(c).skip(1) =~= Seq::<CommandView>::empty());
        assert(total_entry_count(Seq::<CommandView>::empty()) == 0);
    } else {
        assert(cmds.push(c)[0] == cmds[0]);
        assert(cmds.push(c).skip(1) =~= cmds.skip(1).push(c));
        lemma_total_entry_count_snoc(cmds.skip(1), c);
    }
}

/// The aggregate size of the node with id `id`: files contribute their own
/// size, directories the sum over their subtree.
pub open spec fn node_size(m: Seq<NodeModel>, id: int) -> nat
    decreases m.len() - id, 2int, 0int
        when wf_model(m) && 1 <= id <= m.len()
{
    csize(m, id, m[id - 1].children.len() as int)
}

/// The sizes of the first `k` children of node `id`, added up.
pub open spec fn csize(m: Seq<NodeModel>, id: int, k: int) -> nat
    decreases m.len() - id, 1int, k
        when wf_model(m) && 1 <= id <= m.len() && k <= m[id - 1].children.len()
{
    if k <= 0 {
        0
    } else {
        let c = m[id - 1].children[k - 1];
        csize(m, id, k - 1) + (match m[c - 1].entry {
            EntryView::File { size, .. } => size as nat,
            EntryView::Directory { .. } => node_size(m, c),
        })
    }
}

proof fn lemma_csize_monotone(m: Seq<NodeModel>, id: int, k1: int, k2: int)
    requires
        wf_model(m),
        1 <= id <= m.len(),
        0 <= k1 <= k2 <= m[id - 1].children.len(),
    ensures
        csize(m, id, k1) <= csize(m, id, k2),
    decreases k2 - k1,
{
    if k1 < k2 {
        lemma_csize_monotone(m, id, k1, k2 - 1);
    }
}

/// A directory's aggregate size is at most its parent's.
proof fn lemma_child_size_le(m: Seq<NodeModel>, id: int, k: int)
    requires
        wf_model(m),
        1 <= id <= m.len(),
        0 <= k < m[id - 1].children.len(),
        m[m[id - 1].children[k] - 1].entry is Directory,
    ensures
        node_size(m, m[id - 1].children[k]) <= node_size(m, id),
{
    let c = m[id - 1].children[k];
    assert(csize(m, id, k + 1) == csize(m, id, k) + node_size(m, c));
    lemma_csize_monotone(m, id, k + 1, m[id - 1].children.len() as int);
}

/// Which aggregated directories a query keeps.
#[derive(Debug, Clone, Copy, PartialEq, Eq, Structural)]
pub enum SizeFilter {
    /// Keep directories whose aggregate size is at most the bound.
    AtMost(u64),
    /// Keep directories whose aggregate size is at least the bound.
    AtLeast(u64),
    /// Keep nothing; only the returned total is of interest.
    Never,
}

impl SizeFilter {
    /// Whether a directory of aggregate size `size` is kept.
    pub open spec fn matches(self, size: nat) -> bool {
        match self {
            SizeFilter::AtMost(bound) => size <= bound,
            SizeFilter::AtLeast(bound) => size >= bound,
            SizeFilter::Never => false,
        }
    }

    /// Run the filter on a concrete size.
    pub fn accepts(&self, size: u64) -> (r: bool)
        ensures
            r == self.matches(size as nat),
    {
        match self {
            SizeFilter::AtMost(bound) => size <= *bound,
            SizeFilter::AtLeast(bound) => size >= *bound,
            SizeFilter::Never => false,
        }
    }
}

/// The directories a query over the subtree at `id` records, in post-order:
/// each name paired with its aggregate size.
pub open spec fn spec_collect(m: Seq<NodeModel>, id: int, f: SizeFilter) -> Seq<(Seq<char>, u64)>
    decreases m.len() - id, 2int, 0int
        when wf_model(m) && 1 <= id <= m.len()
{
    collect_children(m, id, m[id - 1].children.len() as int, f) + (if f.matches(
        node_size(m, id),
    ) {
        seq![(m[id - 1].entry.name(), node_size(m, id) as u64)]
    } else {
        Seq::empty()
    })
}

/// What the subtrees of the first `k` children record.
pub open spec fn collect_children(m: Seq<NodeModel>, id: int, k: int, f: SizeFilter) -> Seq<
    (Seq<char>, u64),
>
    decreases m.len() - id, 1int, k
        when wf_model(m) && 1 <= id <= m.len() && k <= m[id - 1].children.len()
{
    if k <= 0 {
        Seq::empty()
    } else {
        let c = m[id - 1].children[k - 1];
        collect_children(m, id, k - 1, f) + (match m[c - 1].entry {
            EntryView::File { .. } => Seq::empty(),
            EntryView::Directory { .. } => spec_collect(m, c, f),
        })
    }
}

/// The views of collected name/size pairs.
pub open spec fn pairs_view(s: Seq<(String, u64)>) -> Seq<(Seq<char>, u64)> {
    s.map_values(|p: (String, u64)| (p.0@, p.1))
}

impl Filesystem {
    /// Post-order query over the subtree at `dir`: returns the aggregate
    /// size of `dir` and records every directory the filter keeps (the
    /// node `dir` itself included) into `dirs`.
    pub fn filter_subdirs_by_size(
        &self,
        filter: &SizeFilter,
        dir: usize,
        dirs: &mut Vec<(String, u64)>,
    ) -> (size: u64)
        requires
            self.wf(),
            1 <= dir <= self@.len(),
            node_size(self@, dir as int) <= u64::MAX,
        ensures
            size == node_size(self@, dir as int),
            pairs_view(final(dirs)@) == pairs_view(old(dirs)@) + spec_collect(
                self@,
                dir as int,
                *filter,
            ),
        decreases self@.len() - dir,
    {
        let ghost m = self@;
        let ghost dirs0 = old(dirs)@;
        let children: Vec<usize> = arena_children(&self.arena, dir);
        let ghost cs = m[dir - 1].children;
        let mut size: u64 = 0;
        let mut k: usize = 0;
        proof {
            assert(pairs_view(dirs@) =~= pairs_view(dirs0) + collect_children(
                m,
                dir as int,
                0,
                *filter,
            ));
        }
        while k < children.len()
            invariant
                self.wf(),
                m == self@,
                cs == m[dir - 1].children,
                1 <= dir <= m.len(),
                node_size(m, dir as int) <= u64::MAX,
                children@.map_values(|x: usize| x as int) == cs,
                0 <= k <= cs.len(),
                size == csize(m, dir as int, k as int),
                pairs_view(dirs@) == pairs_view(dirs0) + collect_children(
                    m,
                    dir as int,
                    k as int,
                    *filter,
                ),
            decreases cs.len() - k,
        {
            let child: usize = children[k];
            proof {
                assert(children@.map_values(|x: usize| x as int)[k as int] == child as int);
                assert(m[dir - 1].children[k as int] == child as int);
                assert(1 <= child as int <= m.len());
                assert(dir as int + 1 <= child as int);
                lemma_csize_monotone(m, dir as int, k as int + 1, cs.len() as int);
            }
            let entry: &DirectoryEntry = arena_entry(&self.arena, child);
            match entry {
                DirectoryEntry::File { name: _, size: file_size } => {
                    size = size + *file_size;
                },
                DirectoryEntry::Directory { name: _ } => {
                    proof {
                        lemma_child_size_le(m, dir as int, k as int);
                    }
                    let dir_size: u64 = self.filter_subdirs_by_size(filter, child, dirs);
                    size = size + dir_size;
                    proof {
                        assert(pairs_view(dirs@) =~= pairs_view(dirs0) + collect_children(
                            m,
                            dir as int,
                            k as int + 1,
                            *filter,
                        ));
                    }
                },
            }
            k = k + 1;
        }
        if filter.accepts(size) {
            let name: String = arena_entry(&self.arena, dir).name().to_owned();
            let ghost before_push = dirs@;
            dirs.push((name, size));
            proof {
                assert(size as nat == node_size(m, dir as int));
                assert(name@ == m[dir - 1].entry.name());
                assert(pairs_view(dirs@) =~= pairs_view(before_push).push((name@, size)));
                assert(pairs_view(dirs@) =~= pairs_view(dirs0) + spec_collect(
                    m,
                    dir as int,
                    *filter,
                ));
            }
        } else {
            proof {
                assert(spec_collect(m, dir as int, *filter) =~= collect_children(
                    m,
                    dir as int,
                    cs.len() as int,
                    *filter,
                ));
            }
        }
        size
    }

    /// Every directory of the tree (the root included) whose aggregate
    /// size the filter keeps, with its size, deepest directories first.
    pub fn filter_dirs_by_size(&self, filter: SizeFilter) -> (r: Vec<(String, u64)>)
        requires
            self.wf(),
            node_size(self@, 1) <= u64::MAX,
        ensures
            pairs_view(r@) == spec_collect(self@, 1, filter),
    {
        let mut dirs: Vec<(String, u64)> = Vec::new();
        proof {
            assert(pairs_view(Seq::<(String, u64)>::empty()) =~= Seq::<(Seq<char>, u64)>::empty());
        }
        self.filter_subdirs_by_size(&filter, self.root, &mut dirs);
        proof {
            assert(pairs_view(dirs@) =~= spec_collect(self@, 1, filter));
        }
        dirs
    }

    /// The aggregate size of the whole tree.
    pub fn total_size(&self) -> (r: u64)
        requires
            self.wf(),
            node_size(self@, 1) <= u64::MAX,
        ensures
            r == node_size(self@, 1),
    {
        let mut dirs: Vec<(String, u64)> = Vec::new();
        self.filter_subdirs_by_size(&SizeFilter::Never, self.root, &mut dirs)
    }
}

/// Sum of the sizes of the recorded directories.
pub open spec fn sum_sizes(ps: Seq<(Seq<char>, u64)>) -> int
    decreases ps.len(),
{
    if ps.len() == 0 {
        0
    } else {
        sum_sizes(ps.drop_last()) + ps.last().1
    }
}

proof fn lemma_sum_sizes_prefix(ps: Seq<(Seq<char>, u64)>, k: int)
    requires
        0 <= k <= ps.len(),
    ensures
        0 <= sum_sizes(ps.take(k)) <= sum_sizes(ps),
    decreases ps.len() - k,
{
    if k == ps.len() {
        assert(ps.take(k) =~= ps);
        lemma_sum_sizes_nonneg(ps);
    } else {
        lemma_sum_sizes_prefix(ps, k + 1);
        lemma_sum_sizes_nonneg(ps.take(k));
        assert(ps.take(k + 1).drop_last() =~= ps.take(k));
        assert(ps.take(k + 1).last() == ps[k]);
    }
}

proof fn lemma_sum_sizes_nonneg(ps: Seq<(Seq<char>, u64)>)
    ensures
        sum_sizes(ps) >= 0,
    decreases ps.len(),
{
    if ps.len() > 0 {
        lemma_sum_sizes_nonneg(ps.drop_last());
    }
}

/// The smallest size among the recorded directories (well defined only for
/// a non-empty record).
pub open spec fn min_size(ps: Seq<(Seq<char>, u64)>) -> int
    decreases ps.len(),
{
    if ps.len() <= 1 {
        if ps.len() == 1 {
            ps[0].1 as int
        } else {
            0
        }
    } else if (ps.last().1 as int) < min_size(ps.drop_last()) {
        ps.last().1 as int
    } else {
        min_size(ps.drop_last())
    }
}

/// The fixed size bound of the first question.
pub open spec fn spec_part1_filter() -> SizeFilter {
    SizeFilter::AtMost(100000)
}

/// Sum of the aggregate sizes of all directories no larger than 100000.
pub fn solution_part1(fs: &Filesystem) -> (r: u64)
    requires
        fs.wf(),
        node_size(fs@, 1) <= u64::MAX,
        sum_sizes(spec_collect(fs@, 1, spec_part1_filter())) <= u64::MAX,
    ensures
        r == sum_sizes(spec_collect(fs@, 1, spec_part1_filter())),
{
    let dirs: Vec<(String, u64)> = fs.filter_dirs_by_size(SizeFilter::AtMost(100000));
    let ghost ps = pairs_view(dirs@);
    let mut total: u64 = 0;
    let mut i: usize = 0;
    proof {
        assert(ps.take(0) =~= Seq::<(Seq<char>, u64)>::empty());
    }
    while i < dirs.len()
        invariant
            ps == pairs_view(dirs@),
            ps == spec_collect(fs@, 1, spec_part1_filter()),
            sum_sizes(ps) <= u64::MAX,
            0 <= i <= dirs@.len(),
            ps.len() == dirs@.len(),
            total == sum_sizes(ps.take(i as int)),
        decreases dirs@.len() - i,
    {
        proof {
            lemma_sum_sizes_prefix(ps, i as int + 1);
            assert(ps.take(i as int + 1).drop_last() =~= ps.take(i as int));
            assert(ps.take(i as int + 1).last() == ps[i as int]);
            assert(ps[i as int].1 == dirs@[i as int].1);
        }
        total = total + dirs[i].1;
        i = i + 1;
    }
    proof {
        assert(ps.take(ps.len() as int) =~= ps);
    }
    total
}

/// The space that must be freed, given the total used size: the update
/// needs 30000000 of the disk's 70000000 free.
pub open spec fn spec_size_to_free(total: nat) -> int {
    30000000 - (70000000 - total)
}

/// The smallest aggregate size among directories that are big enough to
/// free the needed space on their own.
pub fn solution_part2(fs: &Filesystem) -> (r: u64)
    requires
        fs.wf(),
        40000000 <= node_size(fs@, 1) <= 70000000,
    ensures
        r == min_size(
            spec_collect(
                fs@,
                1,
                SizeFilter::AtLeast(spec_size_to_free(node_size(fs@, 1)) as u64),
            ),
        ),
{
    let total: u64 = fs.total_size();
    let size_to_free: u64 = 30000000 - (70000000 - total);
    let dirs: Vec<(String, u64)> = fs.filter_dirs_by_size(SizeFilter::AtLeast(size_to_free));
    let ghost ps = pairs_view(dirs@);
    proof {
        // The root is always recorded: its size is the whole total.
        assert(ps.len() >= 1);
    }
    let mut best: u64 = dirs[0].1;
    let mut i: usize = 1;
    proof {
        assert(ps.take(1).drop_last() =~= Seq::<(Seq<char>, u64)>::empty());
        assert(ps.take(1)[0] == ps[0]);
    }
    while i < dirs.len()
        invariant
            ps == pairs_view(dirs@),
            1 <= i <= dirs@.len(),
            ps.len() == dirs@.len(),
            best as int == min_size(ps.take(i as int)),
        decreases dirs@.len() - i,
    {
        proof {
            assert(ps.take(i as int + 1).drop_last() =~= ps.take(i as int));
            assert(ps.take(i as int + 1).last() == ps[i as int]);
            assert(ps[i as int].1 == dirs@[i as int].1);
        }
        let candidate: u64 = dirs[i].1;
        if candidate < best {
            best = candidate;
        }
        i = i + 1;
    }
    proof {
        assert(ps.take(ps.len() as int) =~= ps);
    }
    best
}

/// Whether node `a` is the node `d` itself or one of its ancestors.
pub open spec fn in_chain(m: Seq<NodeModel>, a: int, d: int) -> bool
    decreases d when wf_model(m) && 1 <= d <= m.len()
{
    if d == a {
        true
    } else {
        match m[d - 1].parent {
            Some(p) => in_chain(m, a, p),
            None => false,
        }
    }
}

/// Ancestors have smaller ids: nodes always point up the sequence.
proof fn lemma_in_chain_le(m: Seq<NodeModel>, a: int, d: int)
    requires
        wf_model(m),
        1 <= d <= m.len(),
        in_chain(m, a, d),
    ensures
        a <= d,
    decreases d,
{
    if d != a {
        let p = m[d - 1].parent->Some_0;
        lemma_in_chain_le(m, a, p);
    }
}

/// The root is an ancestor of every node.
proof fn lemma_root_in_chain(m: Seq<NodeModel>, d: int)
    requires
        wf_model(m),
        1 <= d <= m.len(),
    ensures
        in_chain(m, 1, d),
    decreases d,
{
    if d != 1 {
        let p = m[d - 1].parent->Some_0;
        lemma_root_in_chain(m, p);
    }
}

/// At most one child of a node lies on the path down to `d`.
proof fn lemma_chain_sibling_unique(m: Seq<NodeModel>, c1: int, c2: int, d: int)
    requires
        wf_model(m),
        1 <= d <= m.len(),
        1 <= c1 <= m.len(),
        1 <= c2 <= m.len(),
        m[c1 - 1].parent == m[c2 - 1].parent,
        m[c1 - 1].parent is Some,
        in_chain(m, c1, d),
        in_chain(m, c2, d),
    ensures
        c1 == c2,
    decreases d,
{
    if d == c1 {
        if c2 != d {
            let p = m[d - 1].parent->Some_0;
            lemma_in_chain_le(m, c2, p);
        }
    } else if d == c2 {
        let p = m[d - 1].parent->Some_0;
        lemma_in_chain_le(m, c1, p);
    } else {
        let p = m[d - 1].parent->Some_0;
        lemma_chain_sibling_unique(m, c1, c2, p);
    }
}

/// If a node lies strictly above `d`, the path to `d` passes through one
/// of its children.
proof fn lemma_chain_child_exists(m: Seq<NodeModel>, id: int, d: int)
    requires
        wf_model(m),
        1 <= d <= m.len(),
        1 <= id <= m.len(),
        in_chain(m, id, d),
        id != d,
    ensures
        exists|jc: int|
            0 <= jc < m[id - 1].children.len() && in_chain(
                m,
                #[trigger] m[id - 1].children[jc],
                d,
            ),
    decreases d,
{
    let p = m[d - 1].parent->Some_0;
    if p == id {
        let jc = choose|jc: int|
            0 <= jc < m[id - 1].children.len() && #[trigger] m[id - 1].children[jc] == d;
        assert(in_chain(m, m[id - 1].children[jc], d));
    } else {
        lemma_chain_child_exists(m, id, p);
        let jc = choose|jc: int|
            0 <= jc < m[id - 1].children.len() && in_chain(
                m,
                #[trigger] m[id - 1].children[jc],
                p,
            );
        assert(in_chain(m, m[id - 1].children[jc], d));
    }
}

/// How many of the first `k` children of `id` lie on the path down to `d`.
spec fn count_chain(m: Seq<NodeModel>, id: int, d: int, k: int) -> int
    decreases k,
{
    if k <= 0 {
        0
    } else {
        count_chain(m, id, d, k - 1) + (if in_chain(m, m[id - 1].children[k - 1], d) {
            1int
        } else {
            0int
        })
    }
}

proof fn lemma_count_chain_zero(m: Seq<NodeModel>, id: int, d: int, k: int)
    requires
        wf_model(m),
        1 <= d <= m.len(),
        1 <= id <= m.len(),
        0 <= k <= m[id - 1].children.len(),
        !in_chain(m, id, d) || id == d,
    ensures
        count_chain(m, id, d, k) == 0,
    decreases k,
{
    if k > 0 {
        lemma_count_chain_zero(m, id, d, k - 1);
        let c = m[id - 1].children[k - 1];
        if in_chain(m, c, d) {
            // A child on the path would put `id` itself on the path,
            // strictly above `d` — against both assumptions.
            lemma_in_chain_le(m, c, d);
            if id == d {
                assert(false);
            } else {
                lemma_chain_up(m, c, d);
                assert(false);
            }
        }
    }
}

/// A child on the path puts its parent on the path too.
proof fn lemma_chain_up(m: Seq<NodeModel>, c: int, d: int)
    requires
        wf_model(m),
        1 <= d <= m.len(),
        1 <= c <= m.len(),
        in_chain(m, c, d),
        m[c - 1].parent is Some,
    ensures
        in_chain(m, m[c - 1].parent->Some_0, d),
    decreases d,
{
    lemma_in_chain_le(m, c, d);
    if d == c {
    } else {
        let p = m[d - 1].parent->Some_0;
        lemma_chain_up(m, c, p);
    }
}

proof fn lemma_count_chain_one(m: Seq<NodeModel>, id: int, d: int)
    requires
        wf_model(m),
        1 <= d <= m.len(),
        1 <= id <= m.len(),
        in_chain(m, id, d),
        id != d,
    ensures
        count_chain(m, id, d, m[id - 1].children.len() as int) == 1,
{
    lemma_chain_child_exists(m, id, d);
    let jc = choose|jc: int|
        0 <= jc < m[id - 1].children.len() && in_chain(m, #[trigger] m[id - 1].children[jc], d);
    lemma_count_chain_split(m, id, d, jc, m[id - 1].children.len() as int);
}

/// Counting with one known path child at `jc`: everything else counts
/// zero, by uniqueness.
proof fn lemma_count_chain_split(m: Seq<NodeModel>, id: int, d: int, jc: int, k: int)
    requires
        wf_model(m),
        1 <= d <= m.len(),
        1 <= id <= m.len(),
        0 <= jc < m[id - 1].children.len(),
        in_chain(m, m[id - 1].children[jc], d),
        k <= m[id - 1].children.len(),
    ensures
        count_chain(m, id, d, k) == if jc < k {
            1int
        } else {
            0int
        },
    decreases k,
{
    if k > 0 {
        lemma_count_chain_split(m, id, d, jc, k - 1);
        let c = m[id - 1].children[k - 1];
        if k - 1 != jc && in_chain(m, c, d) {
            lemma_chain_sibling_unique(m, c, m[id - 1].children[jc], d);
            assert(false);
        }
    }
}

/// The size a listed entry contributes: a file its own size, a directory
/// nothing of its own.
pub open spec fn entry_weight(e: EntryView) -> nat {
    match e {
        EntryView::File { size, .. } => size as nat,
        EntryView::Directory { .. } => 0,
    }
}

/// Only directories have children; the tree builder points the cursor at
/// directories alone and appends everything beneath one.
pub open spec fn files_are_leaves(m: Seq<NodeModel>) -> bool {
    forall|i: int|
        0 <= i < m.len() ==> ((#[trigger] m[i].entry) is File ==> m[i].children.len() == 0)
}

/// A file node never stands strictly above another node, and never stands
/// on the path down to a directory.
proof fn lemma_file_not_in_chain(m: Seq<NodeModel>, c: int, cursor: int)
    requires
        wf_model(m),
        files_are_leaves(m),
        1 <= c <= m.len(),
        1 <= cursor <= m.len(),
        m[c - 1].entry is File,
        m[cursor - 1].entry is Directory,
    ensures
        !in_chain(m, c, cursor),
{
    if in_chain(m, c, cursor) {
        if c == cursor {
            assert(false);
        } else {
            lemma_chain_child_exists(m, c, cursor);
            assert(m[c - 1].children.len() > 0);
            assert(false);
        }
    }
}

/// Appending one fresh leaf adds its weight to the aggregate size of
/// exactly the cursor and the cursor's ancestors.
proof fn lemma_append_delta_node(m: Seq<NodeModel>, cursor: int, e: EntryView, id: int)
    requires
        wf_model(m),
        files_are_leaves(m),
        1 <= cursor <= m.len(),
        1 <= id <= m.len(),
        m[cursor - 1].entry is Directory,
    ensures
        node_size(append_node(m, cursor, e), id) == node_size(m, id) + (if in_chain(
            m,
            id,
            cursor,
        ) {
            entry_weight(e)
        } else {
            0
        }),
    decreases m.len() - id, 2int, 0int,
{
    let m2 = append_node(m, cursor, e);
    lemma_append_node_wf(m, cursor, e);
    let len = m[id - 1].children.len() as int;
    lemma_append_delta_children(m, cursor, e, id, len);
    if id == cursor {
        // The fresh node is the one extra child; as a leaf it contributes
        // exactly its weight.
        assert(m2[id - 1].children.len() == len + 1);
        assert(m2[id - 1].children[len] == m.len() + 1);
        assert(m2[m.len() as int].children.len() == 0);
        if e is Directory {
            assert(node_size(m2, m.len() as int + 1) == 0);
        }
        assert(csize(m2, id, len + 1) == csize(m2, id, len) + entry_weight(e));
        lemma_count_chain_zero(m, id, cursor, len);
    } else {
        assert(m2[id - 1].children == m[id - 1].children);
        if in_chain(m, id, cursor) {
            lemma_count_chain_one(m, id, cursor);
        } else {
            lemma_count_chain_zero(m, id, cursor, len);
        }
    }
}

/// The children sums under the append: the first `k` children of `id`
/// gain the weight once per child standing on the cursor's path.
proof fn lemma_append_delta_children(
    m: Seq<NodeModel>,
    cursor: int,
    e: EntryView,
    id: int,
    k: int,
)
    requires
        wf_model(m),
        files_are_leaves(m),
        1 <= cursor <= m.len(),
        1 <= id <= m.len(),
        0 <= k <= m[id - 1].children.len(),
        m[cursor - 1].entry is Directory,
    ensures
        csize(append_node(m, cursor, e), id, k) == csize(m, id, k) + entry_weight(e)
            * count_chain(m, id, cursor, k),
    decreases m.len() - id, 1int, k,
{
    let m2 = append_node(m, cursor, e);
    lemma_append_node_wf(m, cursor, e);
    if k > 0 {
        lemma_append_delta_children(m, cursor, e, id, k - 1);
        let c = m[id - 1].children[k - 1];
        assert(m2[id - 1].children[k - 1] == c);
        assert(m2[c - 1].entry == m[c - 1].entry);
        match m[c - 1].entry {
            EntryView::File { .. } => {
                lemma_file_not_in_chain(m, c, cursor);
            },
            EntryView::Directory { .. } => {
                lemma_append_delta_node(m, cursor, e, c);
            },
        }
        let w = entry_weight(e);
        let cc = count_chain(m, id, cursor, k - 1);
        assert(w * (cc + 1) == w * cc + w) by (nonlinear_arith);
    }
}

/// The file sizes one `ls` block lists, added up.
pub open spec fn entries_weight(entries: Seq<EntryView>) -> nat
    decreases entries.len(),
{
    if entries.len() == 0 {
        0
    } else {
        entry_weight(entries[0]) + entries_weight(entries.skip(1))
    }
}

/// The file sizes every `ls` block of the transcript lists, added up:
/// each such entry becomes exactly one file node of the tree.
pub open spec fn total_listed_weight(cmds: Seq<CommandView>) -> nat
    decreases cmds.len(),
{
    if cmds.len() == 0 {
        0
    } else {
        (match cmds[0] {
            CommandView::Ls(entries) => entries_weight(entries),
            _ => 0,
        }) + total_listed_weight(cmds.skip(1))
    }
}

proof fn lemma_append_node_leaves(m: Seq<NodeModel>, cursor: int, e: EntryView)
    requires
        wf_model(m),
        files_are_leaves(m),
        1 <= cursor <= m.len(),
        m[cursor - 1].entry is Directory,
    ensures
        files_are_leaves(append_node(m, cursor, e)),
        append_node(m, cursor, e)[cursor - 1].entry == m[cursor - 1].entry,
{
    let m2 = append_node(m, cursor, e);
    assert forall|i: int|
        0 <= i < m2.len() && (#[trigger] m2[i].entry) is File implies m2[i].children.len()
        == 0 by {
        if i < m.len() {
            assert(m2[i].entry == m[i].entry);
            if i != cursor - 1 {
                assert(m2[i].children == m[i].children);
            }
        }
    }
}

/// Every directory found by the cursor search is a directory.
proof fn lemma_find_child_directory(m: Seq<NodeModel>, children: Seq<int>, name: Seq<char>)
    requires
        find_child(m, children, name) is Some,
    ensures
        ({
            let c = find_child(m, children, name)->Some_0;
            &&& 1 <= c <= m.len()
            &&& m[c - 1].entry is Directory
        }),
    decreases children.len(),
{
    if children.len() > 0 {
        let c = children[0];
        if 1 <= c <= m.len() && (m[c - 1].entry matches EntryView::Directory { name: n } && n
            == name) {
        } else {
            lemma_find_child_directory(m, children.skip(1), name);
        }
    }
}

/// Replaying one `ls` block grows the root's aggregate size by exactly
/// the file sizes the block lists.
proof fn lemma_apply_ls_total(m: Seq<NodeModel>, cursor: int, entries: Seq<EntryView>)
    requires
        wf_model(m),
        files_are_leaves(m),
        1 <= cursor <= m.len(),
        m[cursor - 1].entry is Directory,
    ensures
        ({
            let m2 = apply_ls(m, cursor, entries);
            &&& wf_model(m2)
            &&& files_are_leaves(m2)
            &&& m2[cursor - 1].entry == m[cursor - 1].entry
            &&& m2.len() >= m.len()
            &&& node_size(m2, 1) == node_size(m, 1) + entries_weight(entries)
        }),
    decreases entries.len(),
{
    if entries.len() > 0 {
        let e = entries[0];
        let m1 = append_node(m, cursor, e);
        lemma_append_node_wf(m, cursor, e);
        lemma_append_node_leaves(m, cursor, e);
        lemma_root_in_chain(m, cursor);
        lemma_append_delta_node(m, cursor, e, 1);
        lemma_apply_ls_total(m1, cursor, entries.skip(1));
    }
}

/// Replaying a command sequence grows the root's aggregate size by
/// exactly the file sizes its `ls` blocks list, and keeps the cursor on a
/// directory.
proof fn lemma_replay_from_total(m: Seq<NodeModel>, cursor: int, cmds: Seq<CommandView>)
    requires
        wf_model(m),
        files_are_leaves(m),
        1 <= cursor <= m.len(),
        m[cursor - 1].entry is Directory,
        replay_from(m, cursor, cmds) is Some,
    ensures
        ({
            let (m2, c2) = replay_from(m, cursor, cmds)->Some_0;
            &&& files_are_leaves(m2)
            &&& 1 <= c2 <= m2.len()
            &&& m2[c2 - 1].entry is Directory
            &&& node_size(m2, 1) == node_size(m, 1) + total_listed_weight(cmds)
        }),
    decreases cmds.len(),
{
    lemma_replay_from_wf(m, cursor, cmds);
    if cmds.len() > 0 {
        match replay_step(m, cursor, cmds[0]) {
            None => (),
            Some((m1, c1)) => {
                match cmds[0] {
                    CommandView::Cd(DirectoryView::Root) => (),
                    CommandView::Cd(DirectoryView::Parent) => {
                        // The parent of the current directory has a child,
                        // so it cannot be a file.
                        let p = m[cursor - 1].parent->Some_0;
                        assert(m[p - 1].children.contains(cursor));
                        assert(m[p - 1].children.len() > 0);
                        assert(m[p - 1].entry is Directory);
                    },
                    CommandView::Cd(DirectoryView::Child(name)) => {
                        if find_child(m, m[cursor - 1].children, name) is Some {
                            lemma_find_child_directory(m, m[cursor - 1].children, name);
                        }
                    },
                    CommandView::Ls(entries) => {
                        lemma_apply_ls_total(m, cursor, entries);
                    },
                }
                lemma_replay_from_total(m1, c1, cmds.skip(1));
            },
        }
    }
}

/// TREE TOTAL: for any tree built from a transcript, the root's aggregate
/// size equals the sum of the sizes of every file entry the transcript's
/// `ls` blocks ever listed — independent of directory nesting.
pub proof fn lemma_tree_total(cmds: Seq<CommandView>)
    requires
        replay(cmds) is Some,
    ensures
        node_size(replay(cmds)->Some_0.0, 1) == total_listed_weight(cmds),
{
    let m0 = init_model();
    assert(wf_model(m0));
    assert(files_are_leaves(m0));
    assert(node_size(m0, 1) == 0) by {
        assert(m0[0].children.len() == 0);
        assert(csize(m0, 1, 0) == 0);
    }
    lemma_replay_from_total(m0, 1, cmds);
}

/// Raising the size bound keeps every directory a query selected: what
/// `size <= t1` records is contained in what `size <= t2` records whenever
/// `t1 <= t2`.
pub proof fn lemma_collect_monotone(m: Seq<NodeModel>, id: int, t1: u64, t2: u64)
    requires
        wf_model(m),
        1 <= id <= m.len(),
        t1 <= t2,
    ensures
        forall|p: (Seq<char>, u64)|
            spec_collect(m, id, SizeFilter::AtMost(t1)).contains(p) ==> spec_collect(
                m,
                id,
                SizeFilter::AtMost(t2),
            ).contains(p),
    decreases m.len() - id, 2int, 0int,
{
    let len = m[id - 1].children.len() as int;
    lemma_collect_children_monotone(m, id, len, t1, t2);
    let c1 = spec_collect(m, id, SizeFilter::AtMost(t1));
    let c2 = spec_collect(m, id, SizeFilter::AtMost(t2));
    let cc1 = collect_children(m, id, len, SizeFilter::AtMost(t1));
    let cc2 = collect_children(m, id, len, SizeFilter::AtMost(t2));
    assert forall|p: (Seq<char>, u64)| c1.contains(p) implies c2.contains(p) by {
        let i = choose|i: int| 0 <= i < c1.len() && #[trigger] c1[i] == p;
        if i < cc1.len() {
            assert(cc1[i] == p);
            assert(cc1.contains(p));
            assert(cc2.contains(p));
            let j = choose|j: int| 0 <= j < cc2.len() && #[trigger] cc2[j] == p;
            assert(c2[j] == p);
        } else {
            // The pair is the node itself; a size within `t1` is within `t2`.
            assert(node_size(m, id) <= t1);
            assert(c2[cc2.len() as int] == p);
        }
    }
}

proof fn lemma_collect_children_monotone(m: Seq<NodeModel>, id: int, k: int, t1: u64, t2: u64)
    requires
        wf_model(m),
        1 <= id <= m.len(),
        0 <= k <= m[id - 1].children.len(),
        t1 <= t2,
    ensures
        forall|p: (Seq<char>, u64)|
            collect_children(m, id, k, SizeFilter::AtMost(t1)).contains(p) ==> collect_children(
                m,
                id,
                k,
                SizeFilter::AtMost(t2),
            ).contains(p),
    decreases m.len() - id, 1int, k,
{
    if k > 0 {
        lemma_collect_children_monotone(m, id, k - 1, t1, t2);
        let c = m[id - 1].children[k - 1];
        let pre1 = collect_children(m, id, k - 1, SizeFilter::AtMost(t1));
        let pre2 = collect_children(m, id, k - 1, SizeFilter::AtMost(t2));
        let cur1 = collect_children(m, id, k, SizeFilter::AtMost(t1));
        let cur2 = collect_children(m, id, k, SizeFilter::AtMost(t2));
        if m[c - 1].entry is Directory {
            lemma_collect_monotone(m, c, t1, t2);
        }
        assert forall|p: (Seq<char>, u64)| cur1.contains(p) implies cur2.contains(p) by {
            let i = choose|i: int| 0 <= i < cur1.len() && #[trigger] cur1[i] == p;
            if i < pre1.len() {
                assert(pre1[i] == p);
                assert(pre1.contains(p));
                assert(pre2.contains(p));
                let j = choose|j: int| 0 <= j < pre2.len() && #[trigger] pre2[j] == p;
                assert(cur2[j] == p);
            } else {
                let tail1 = spec_collect(m, c, SizeFilter::AtMost(t1));
                let tail2 = spec_collect(m, c, SizeFilter::AtMost(t2));
                assert(m[c - 1].entry is Directory);
                assert(tail1[i - pre1.len()] == p);
                assert(tail1.contains(p));
                assert(tail2.contains(p));
                let j = choose|j: int| 0 <= j < tail2.len() && #[trigger] tail2[j] == p;
                assert(cur2[pre2.len() + j] == p);
            }
        }
    }
}

/// Aggregation has no hidden state: what a query records is a function of
/// the frozen tree and the filter alone, so running it twice yields the
/// same record.
pub proof fn lemma_aggregation_deterministic(
    m: Seq<NodeModel>,
    f: SizeFilter,
    r1: Seq<(Seq<char>, u64)>,
    r2: Seq<(Seq<char>, u64)>,
)
    requires
        r1 == spec_collect(m, 1, f),
        r2 == spec_collect(m, 1, f),
    ensures
        r1 == r2,
{
}

/// Write `n` in decimal.
pub fn u64_to_string(n: u64) -> (r: String)
    ensures
        r@ == dec_str(n as nat),
    decreases n,
{
    if n < 10 {
        let mut s: String = String::new();
        push_char(&mut s, (48 + n as u8) as char);
        proof {
            assert(s@ =~= seq![digit_char(n as nat)]);
        }
        s
    } else {
        let mut s: String = u64_to_string(n / 10);
        push_char(&mut s, (48 + (n % 10) as u8) as char);
        s
    }
}

/// The one-line description of an entry in the tree dump.
pub open spec fn spec_entry_label(e: EntryView) -> Seq<char> {
    match e {
        EntryView::Directory { name } => name + " (dir)"@,
        EntryView::File { name, size } => name + " (file, size="@ + dec_str(size as nat) + ")"@,
    }
}

impl DirectoryEntry {
    /// The entry's one-line description: `<name> (dir)` or
    /// `<name> (file, size=<n>)`.
    pub fn render(&self) -> (r: String)
        ensures
            r@ == spec_entry_label(self@),
    {
        match self {
            DirectoryEntry::Directory { name } => {
                let mut s: String = name.clone();
                s.append(" (dir)");
                s
            },
            DirectoryEntry::File { name, size } => {
                let mut s: String = name.clone();
                s.append(" (file, size=");
                let digits: String = u64_to_string(*size);
                s.append(digits.as_str());
                s.append(")");
                proof {
                    assert(s@ =~= spec_entry_label(self@));
                }
                s
            },
        }
    }
}

/// The indented dump of the subtree at `id`: the node's own line, then the
/// children, each two spaces deeper.
pub open spec fn spec_render(m: Seq<NodeModel>, id: int, ind: Seq<char>) -> Seq<char>
    decreases m.len() - id, 2int, 0int
        when wf_model(m) && 1 <= id <= m.len()
{
    ind + "- "@ + spec_entry_label(m[id - 1].entry) + "\n"@ + spec_render_children(
        m,
        id,
        m[id - 1].children.len() as int,
        ind + "  "@,
    )
}

/// The dumps of the first `k` children, one after the other.
pub open spec fn spec_render_children(m: Seq<NodeModel>, id: int, k: int, ind: Seq<char>) -> Seq<
    char,
>
    decreases m.len() - id, 1int, k
        when wf_model(m) && 1 <= id <= m.len() && k <= m[id - 1].children.len()
{
    if k <= 0 {
        Seq::empty()
    } else {
        spec_render_children(m, id, k - 1, ind) + spec_render(m, m[id - 1].children[k - 1], ind)
    }
}

impl Filesystem {
    /// Append the dump of the subtree at `id` to `out`.
    fn render_node(&self, id: usize, indent: &str, out: &mut String)
        requires
            self.wf(),
            1 <= id <= self@.len(),
        ensures
            final(out)@ == old(out)@ + spec_render(self@, id as int, indent@),
        decreases self@.len() - id,
    {
        let ghost m = self@;
        let ghost out0 = old(out)@;
        out.append(indent);
        out.append("- ");
        let label: String = arena_entry(&self.arena, id).render();
        out.append(label.as_str());
        out.append("\n");
        let mut child_indent: String = indent.to_owned();
        child_indent.append("  ");
        let ghost line = indent@ + "- "@ + spec_entry_label(m[id - 1].entry) + "\n"@;
        proof {
            assert(out@ =~= out0 + line);
        }
        let children: Vec<usize> = arena_children(&self.arena, id);
        let ghost cs = m[id - 1].children;
        let mut k: usize = 0;
        while k < children.len()
            invariant
                self.wf(),
                m == self@,
                cs == m[id - 1].children,
                1 <= id <= m.len(),
                children@.map_values(|x: usize| x as int) == cs,
                0 <= k <= cs.len(),
                child_indent@ == indent@ + "  "@,
                out@ == out0 + line + spec_render_children(
                    m,
                    id as int,
                    k as int,
                    child_indent@,
                ),
            decreases cs.len() - k,
        {
            let child: usize = children[k];
            proof {
                assert(children@.map_values(|x: usize| x as int)[k as int] == child as int);
                assert(m[id - 1].children[k as int] == child as int);
                assert(1 <= child as int <= m.len());
            }
            self.render_node(child, child_indent.as_str(), out);
            proof {
                assert(out@ =~= out0 + line + spec_render_children(
                    m,
                    id as int,
                    k as int + 1,
                    child_indent@,
                ));
            }
            k = k + 1;
        }
        proof {
            assert(out@ =~= out0 + spec_render(m, id as int, indent@));
        }
    }

    /// The whole tree as an indented text dump, one line per node.
    pub fn render(&self) -> (r: String)
        requires
            self.wf(),
        ensures
            r@ == spec_render(self@, 1, Seq::empty()),
    {
        let mut out: String = String::new();
        proof {
            reveal_strlit("");
            assert(""@ =~= Seq::<char>::empty());
        }
        self.render_node(self.root, "", &mut out);
        proof {
            assert(out@ =~= spec_render(self@, 1, Seq::empty()));
        }
        out
    }
}

/// One more entry taken from an `ls` block moves `apply_ls` one step.
proof fn lemma_apply_ls_take_step(m: Seq<NodeModel>, cursor: int, evs: Seq<EntryView>, idx: int)
    requires
        0 <= idx < evs.len(),
    ensures
        apply_ls(m, cursor, evs.take(idx + 1)) == append_node(
            apply_ls(m, cursor, evs.take(idx)),
            cursor,
            evs[idx],
        ),
    decreases idx,
{
    if idx == 0 {
        assert(evs.take(1)[0] == evs[0]);
        assert(evs.take(1).skip(1) =~= Seq::<EntryView>::empty());
        assert(evs.take(0) =~= Seq::<EntryView>::empty());
        assert(apply_ls(m, cursor, Seq::<EntryView>::empty()) == m);
        assert(apply_ls(append_node(m, cursor, evs[0]), cursor, Seq::<EntryView>::empty())
            == append_node(m, cursor, evs[0]));
    } else {
        assert(evs.take(idx + 1)[0] == evs[0]);
        assert(evs.take(idx)[0] == evs[0]);
        assert(evs.take(idx + 1).skip(1) =~= evs.skip(1).take(idx));
        assert(evs.take(idx).skip(1) =~= evs.skip(1).take(idx - 1));
        lemma_apply_ls_take_step(append_node(m, cursor, evs[0]), cursor, evs.skip(1), idx - 1);
        assert(evs.skip(1)[idx - 1] == evs[idx]);
    }
}

} // verus!
