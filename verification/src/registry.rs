//! The registry: the top-level nodes of a script, found by name.

use vstd::prelude::*;
use crate::ast::CommandNode;
use crate::ast::NodeView;
use crate::ast::nodes_view;
use crate::seqs::last_index;
use crate::seqs::lemma_last_index;
use crate::text::equal;

verus! {

/// The lookup table that declaring `nodes` in order gives: each name leads to
/// the node that was declared last under it.
pub open spec fn table_of(nodes: Seq<NodeView>) -> Map<Seq<char>, NodeView>
    decreases nodes.len(),
{
    if nodes.len() == 0 {
        Map::empty()
    } else {
        table_of(nodes.drop_last()).insert(nodes.last().name, nodes.last())
    }
}

/// The nodes called `name`.
pub open spec fn called(name: Seq<char>) -> spec_fn(NodeView) -> bool {
    |node: NodeView| node.name == name
}

/// The meanings of the nodes that a vector of references points at.
pub open spec fn targets(v: Seq<&CommandNode>) -> Seq<NodeView> {
    Seq::new(v.len(), |i: int| v[i]@)
}

/// A name that no node from index `i` on carries is looked up in the nodes
/// before `i` alone.
proof fn lemma_table_skips(nodes: Seq<NodeView>, name: Seq<char>, i: int)
    requires
        0 <= i <= nodes.len(),
        forall|j: int| i <= j < nodes.len() ==> (#[trigger] nodes[j]).name != name,
    ensures
        table_of(nodes).dom().contains(name) == table_of(nodes.take(i)).dom().contains(name),
        table_of(nodes).dom().contains(name) ==> table_of(nodes)[name] == table_of(
            nodes.take(i),
        )[name],
    decreases nodes.len() - i,
{
    if i == nodes.len() {
        assert(nodes.take(i) =~= nodes);
    } else {
        let front = nodes.drop_last();
        assert(nodes.last() == nodes[nodes.len() - 1]);
        assert forall|j: int| i <= j < front.len() implies (#[trigger] front[j]).name != name by {
            assert(front[j] == nodes[j]);
        }
        lemma_table_skips(front, name, i);
        assert(front.take(i) =~= nodes.take(i));
    }
}

/// The name of a node leads to that node, where no node declared later
/// carries the same name: the last one declared wins.
pub proof fn lemma_last_declared_wins(nodes: Seq<NodeView>, i: int)
    requires
        0 <= i < nodes.len(),
        forall|j: int| i < j < nodes.len() ==> (#[trigger] nodes[j]).name != nodes[i].name,
    ensures
        table_of(nodes).dom().contains(nodes[i].name),
        table_of(nodes)[nodes[i].name] == nodes[i],
{
    let name = nodes[i].name;
    lemma_table_skips(nodes, name, i + 1);
    let upto = nodes.take(i + 1);
    assert(upto.last() == nodes[i]);
}

/// A name leads to the last node that was declared under it, and to none
/// where no node was.
pub proof fn lemma_table_last(nodes: Seq<NodeView>, name: Seq<char>)
    ensures
        table_of(nodes).dom().contains(name) <==> last_index(nodes, called(name)) >= 0,
        last_index(nodes, called(name)) >= 0 ==> table_of(nodes)[name] == nodes[last_index(
            nodes,
            called(name),
        )],
{
    lemma_last_index(nodes, called(name));
    let i = last_index(nodes, called(name));
    if i >= 0 {
        assert forall|j: int| i < j < nodes.len() implies (#[trigger] nodes[j]).name
            != nodes[i].name by {
            assert(!called(name)(nodes[j]));
        }
        lemma_last_declared_wins(nodes, i);
    } else {
        assert forall|j: int| 0 <= j < nodes.len() implies (#[trigger] nodes[j]).name != name by {
            assert(!called(name)(nodes[j]));
        }
        lemma_table_skips(nodes, name, 0);
        assert(nodes.take(0) =~= Seq::<NodeView>::empty());
    }
}

/// Replacing the last node of a name by another of that name is the same as
/// declaring the other one after all.
proof fn lemma_table_update(nodes: Seq<NodeView>, i: int, node: NodeView)
    requires
        0 <= i < nodes.len(),
        nodes[i].name == node.name,
        forall|j: int| i < j < nodes.len() ==> (#[trigger] nodes[j]).name != node.name,
    ensures
        table_of(nodes.update(i, node)) =~= table_of(nodes).insert(node.name, node),
    decreases nodes.len() - i,
{
    let changed = nodes.update(i, node);
    if i == nodes.len() - 1 {
        assert(changed.drop_last() =~= nodes.drop_last());
    } else {
        let front = nodes.drop_last();
        assert forall|j: int| i < j < front.len() implies (#[trigger] front[j]).name
            != node.name by {
            assert(front[j] == nodes[j]);
        }
        lemma_table_update(front, i, node);
        assert(changed.drop_last() =~= front.update(i, node));
        assert(changed.last() == nodes.last());
        assert(nodes.last() == nodes[nodes.len() - 1]);
    }
}

/// The name-to-node lookup of one script. It borrows the nodes; it does not
/// own them.
pub struct Registry<'a> {
    entries: Vec<&'a CommandNode>,
}

impl<'a> View for Registry<'a> {
    type V = Map<Seq<char>, NodeView>;

    closed spec fn view(&self) -> Map<Seq<char>, NodeView> {
        table_of(targets(self.entries@))
    }
}

impl<'a> Registry<'a> {
    /// A registry without nodes.
    pub fn new() -> (r: Self)
        ensures
            r@ == Map::<Seq<char>, NodeView>::empty(),
    {
        let r = Registry { entries: Vec::new() };
        assert(targets(r.entries@) =~= Seq::<NodeView>::empty());
        r
    }

    /// The index of the last entry named `name`, or the number of entries
    /// where none is.
    fn position(&self, name: &str) -> (i: usize)
        ensures
            i <= self.entries@.len(),
            i < self.entries@.len() ==> self.entries@[i as int]@.name == name@,
            forall|j: int|
                (if i < self.entries@.len() {
                    i as int + 1
                } else {
                    0
                }) <= j < self.entries@.len() ==> (#[trigger] self.entries@[j])@.name != name@,
    {
        let n = self.entries.len();
        let mut i: usize = n;
        while i > 0
            invariant
                n == self.entries@.len(),
                i <= n,
                forall|j: int| i <= j < n ==> (#[trigger] self.entries@[j])@.name != name@,
            decreases i,
        {
            i -= 1;
            if equal(self.entries[i].name.as_str(), name) {
                return i;
            }
        }
        n
    }

    /// Registers `node` under its name. A node that was registered under that
    /// name before is no longer found: the last one declared wins.
    pub fn register(&mut self, node: &'a CommandNode)
        ensures
            final(self)@ == old(self)@.insert(node@.name, node@),
    {
        let ghost before = targets(self.entries@);
        let i = self.position(node.name.as_str());
        if i < self.entries.len() {
            proof {
                assert forall|j: int| i < j < before.len() implies (#[trigger] before[j]).name
                    != node@.name by {
                    assert(before[j] == self.entries@[j]@);
                }
                lemma_table_update(before, i as int, node@);
            }
            self.entries.set(i, node);
            assert(targets(self.entries@) =~= before.update(i as int, node@));
        } else {
            self.entries.push(node);
            assert(targets(self.entries@).drop_last() =~= before);
            assert(targets(self.entries@).last() == node@);
        }
    }

    /// The registry of the top-level nodes of a script, declared in order.
    pub fn from_nodes(nodes: &'a [CommandNode]) -> (r: Self)
        ensures
            r@ == table_of(nodes_view(nodes@)),
    {
        let mut r = Registry::new();
        let n = nodes.len();
        let mut i: usize = 0;
        assert(nodes_view(nodes@).take(0) =~= Seq::<NodeView>::empty());
        while i < n
            invariant
                n == nodes@.len(),
                i <= n,
                r@ == table_of(nodes_view(nodes@).take(i as int)),
            decreases n - i,
        {
            r.register(&nodes[i]);
            proof {
                let next = nodes_view(nodes@).take(i as int + 1);
                assert(next.drop_last() =~= nodes_view(nodes@).take(i as int));
                assert(next.last() == nodes@[i as int]@);
            }
            i += 1;
        }
        assert(nodes_view(nodes@).take(n as int) =~= nodes_view(nodes@));
        r
    }

    /// The node registered under `name`, if any.
    pub fn get(&self, name: &str) -> (r: Option<&'a CommandNode>)
        ensures
            match r {
                Some(node) => self@.dom().contains(name@) && node@ == self@[name@],
                None => !self@.dom().contains(name@),
            },
    {
        let ghost all = targets(self.entries@);
        let i = self.position(name);
        if i < self.entries.len() {
            proof {
                assert forall|j: int| i < j < all.len() implies (#[trigger] all[j]).name
                    != all[i as int].name by {
                    assert(all[j] == self.entries@[j]@);
                }
                lemma_last_declared_wins(all, i as int);
            }
            Some(self.entries[i])
        } else {
            proof {
                assert forall|j: int| 0 <= j < all.len() implies (#[trigger] all[j]).name
                    != name@ by {
                    assert(all[j] == self.entries@[j]@);
                }
                lemma_table_skips(all, name@, 0);
                assert(all.take(0) =~= Seq::<NodeView>::empty());
            }
            None
        }
    }
}

} // verus!
