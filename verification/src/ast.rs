//! The syntax tree that the source parser builds and the generator reads.
//!
//! A node carries either captured text (a leaf) or named groups of children.
//! The groups are kept in the order in which their names first appeared, and
//! the nodes of a group in the order in which they were added.

use vstd::prelude::*;

verus! {

/// All children of a node that share one rule name, oldest first.
#[derive(Debug)]
pub struct ChildGroup {
    pub name: String,
    pub nodes: Vec<ASTNode>,
}

/// One node of the tree.
#[derive(Debug)]
pub struct ASTNode {
    /// The rule that produced the node, or an internal name starting with `_`.
    pub name: String,
    /// The captured source text; empty for nodes that have children.
    pub value: String,
    /// The children, grouped by rule name; no two groups share a name.
    pub children: Vec<ChildGroup>,
}

/// The mathematical value of a [`ChildGroup`].
pub struct GroupView {
    pub name: Seq<char>,
    pub nodes: Seq<NodeView>,
}

/// The mathematical value of an [`ASTNode`].
pub struct NodeView {
    pub name: Seq<char>,
    pub value: Seq<char>,
    pub children: Seq<GroupView>,
}

impl View for ChildGroup {
    type V = GroupView;

    open spec fn view(&self) -> GroupView
        decreases self,
    {
        GroupView {
            name: self.name@,
            nodes: Seq::new(
                self.nodes.len() as nat,
                |i: int|
                    if 0 <= i < self.nodes.len() {
                        self.nodes[i]@
                    } else {
                        NodeView::leaf(Seq::empty(), Seq::empty())
                    },
            ),
        }
    }
}

impl View for ASTNode {
    type V = NodeView;

    open spec fn view(&self) -> NodeView
        decreases self,
    {
        NodeView {
            name: self.name@,
            value: self.value@,
            children: Seq::new(
                self.children.len() as nat,
                |i: int|
                    if 0 <= i < self.children.len() {
                        self.children[i]@
                    } else {
                        GroupView { name: Seq::empty(), nodes: Seq::empty() }
                    },
            ),
        }
    }
}

/// The index of the first group of `groups` named `name`, or `groups.len()`.
pub open spec fn group_index(groups: Seq<GroupView>, name: Seq<char>) -> int
    decreases groups.len(),
{
    if groups.len() == 0 || groups[0].name == name {
        0
    } else {
        1 + group_index(groups.drop_first(), name)
    }
}

/// The first group of a name is within the list, and no group before it has
/// the name.
pub proof fn lemma_group_index(groups: Seq<GroupView>, name: Seq<char>)
    ensures
        0 <= group_index(groups, name) <= groups.len(),
        forall|i: int| 0 <= i < group_index(groups, name) ==> (#[trigger] groups[i]).name != name,
        group_index(groups, name) < groups.len() ==> groups[group_index(groups, name)].name
            == name,
    decreases groups.len(),
{
    if groups.len() == 0 || groups[0].name == name {
    } else {
        let rest = groups.drop_first();
        lemma_group_index(rest, name);
        assert forall|i: int| 0 <= i < group_index(groups, name) implies (
        #[trigger] groups[i]).name != name by {
            if i > 0 {
                assert(groups[i] == rest[i - 1]);
            }
        }
        if group_index(groups, name) < groups.len() {
            assert(groups[group_index(groups, name)] == rest[group_index(rest, name)]);
        }
    }
}

/// The index of the first group of a name is known from the names before
/// and at it.
pub proof fn lemma_group_index_unique(groups: Seq<GroupView>, name: Seq<char>, k: int)
    requires
        0 <= k <= groups.len(),
        forall|i: int| 0 <= i < k ==> (#[trigger] groups[i]).name != name,
        k < groups.len() ==> groups[k].name == name,
    ensures
        group_index(groups, name) == k,
    decreases groups.len(),
{
    if groups.len() == 0 || groups[0].name == name {
        if k > 0 {
            assert(groups[0].name != name);
        }
    } else {
        let rest = groups.drop_first();
        assert forall|i: int| 0 <= i < k - 1 implies (#[trigger] rest[i]).name != name by {
            assert(rest[i] == groups[i + 1]);
        }
        if k - 1 < rest.len() {
            assert(rest[k - 1] == groups[k]);
        }
        lemma_group_index_unique(rest, name, k - 1);
    }
}

/// No two groups share a name, no group is empty, and every node stands in
/// the group of its own name.
pub open spec fn groups_well_formed(groups: Seq<GroupView>) -> bool {
    &&& forall|i: int, j: int|
        0 <= i < j < groups.len() ==> (#[trigger] groups[i]).name != (#[trigger] groups[j]).name
    &&& forall|i: int| 0 <= i < groups.len() ==> (#[trigger] groups[i]).nodes.len() > 0
    &&& forall|i: int, k: int|
        0 <= i < groups.len() && 0 <= k < groups[i].nodes.len() ==> (
        #[trigger] groups[i].nodes[k]).name == groups[i].name
}

/// `groups` after `child` has been filed under its own name: appended to the
/// group of that name, or to a new last group if there is none.
pub open spec fn groups_with(groups: Seq<GroupView>, child: NodeView) -> Seq<GroupView> {
    let k = group_index(groups, child.name);
    if k < groups.len() {
        groups.update(k, GroupView { name: child.name, nodes: groups[k].nodes.push(child) })
    } else {
        groups.push(GroupView { name: child.name, nodes: seq![child] })
    }
}

/// `groups` after all of `nodes` have been filed, in order.
pub open spec fn groups_with_all(groups: Seq<GroupView>, nodes: Seq<NodeView>) -> Seq<GroupView>
    decreases nodes.len(),
{
    if nodes.len() == 0 {
        groups
    } else {
        groups_with(groups_with_all(groups, nodes.drop_last()), nodes.last())
    }
}

/// The nodes of the group named `name`, or none.
pub open spec fn nodes_named(groups: Seq<GroupView>, name: Seq<char>) -> Seq<NodeView> {
    let k = group_index(groups, name);
    if k < groups.len() {
        groups[k].nodes
    } else {
        Seq::empty()
    }
}

/// All nodes of all groups, group after group.
pub open spec fn all_nodes(groups: Seq<GroupView>) -> Seq<NodeView>
    decreases groups.len(),
{
    if groups.len() == 0 {
        Seq::empty()
    } else {
        all_nodes(groups.drop_last()) + groups.last().nodes
    }
}

impl NodeView {
    /// A node without children.
    pub open spec fn leaf(name: Seq<char>, value: Seq<char>) -> NodeView {
        NodeView { name, value, children: Seq::empty() }
    }

    /// The children named `name`, oldest first.
    pub open spec fn children_named(self, name: Seq<char>) -> Seq<NodeView> {
        nodes_named(self.children, name)
    }

    /// The oldest child named `name`.
    pub open spec fn first_child(self, name: Seq<char>) -> Option<NodeView> {
        if self.children_named(name).len() > 0 {
            Some(self.children_named(name)[0])
        } else {
            None
        }
    }

    /// The node after `child` has been added.
    pub open spec fn with_child(self, child: NodeView) -> NodeView {
        NodeView { children: groups_with(self.children, child), ..self }
    }

    /// The node after the children of `other` have been added, group after
    /// group.
    pub open spec fn with_children_of(self, other: NodeView) -> NodeView {
        NodeView { children: groups_with_all(self.children, all_nodes(other.children)), ..self }
    }

    /// The groups of the node are well formed, and so are those of every
    /// node below it.
    pub open spec fn well_formed(self) -> bool
        decreases self,
    {
        &&& groups_well_formed(self.children)
        &&& forall|i: int, k: int|
            0 <= i < self.children.len() && 0 <= k < self.children[i].nodes.len() ==> (
            #[trigger] self.children[i].nodes[k]).well_formed()
    }

    /// Whether the name marks a node that the parser made for its own use.
    pub open spec fn is_internal(self) -> bool {
        self.name.len() > 0 && self.name[0] == '_'
    }
}

/// Every node of every group of `groups` is well formed.
pub open spec fn nodes_well_formed(groups: Seq<GroupView>) -> bool {
    forall|i: int, k: int|
        0 <= i < groups.len() && 0 <= k < groups[i].nodes.len() ==> (
        #[trigger] groups[i].nodes[k]).well_formed()
}

/// Adding a well-formed child keeps a node well formed.
pub proof fn lemma_add_child_well_formed(node: NodeView, child: NodeView)
    requires
        node.well_formed(),
        child.well_formed(),
    ensures
        node.with_child(child).well_formed(),
{
    let groups = node.children;
    lemma_group_index(groups, child.name);
    let k = group_index(groups, child.name);
    let after = groups_with(groups, child);
    assert(nodes_well_formed(groups));
    if k < groups.len() {
        assert forall|i: int, j: int| 0 <= i < j < after.len() implies (#[trigger] after[i]).name
            != (#[trigger] after[j]).name by {
            assert(after[i].name == groups[i].name);
            assert(after[j].name == groups[j].name);
        }
        assert forall|i: int, m: int|
            0 <= i < after.len() && 0 <= m < after[i].nodes.len() implies (
        #[trigger] after[i].nodes[m]).name == after[i].name && after[i].nodes[m].well_formed() by {
            if i == k {
                if m < groups[k].nodes.len() {
                    assert(after[i].nodes[m] == groups[k].nodes[m]);
                }
            } else {
                assert(after[i] == groups[i]);
            }
        }
        assert forall|i: int| 0 <= i < after.len() implies (#[trigger] after[i]).nodes.len()
            > 0 by {
            if i != k {
                assert(after[i] == groups[i]);
            }
        }
    } else {
        assert forall|i: int, j: int| 0 <= i < j < after.len() implies (#[trigger] after[i]).name
            != (#[trigger] after[j]).name by {
            assert(after[i] == groups[i]);
            if j < groups.len() {
                assert(after[j] == groups[j]);
            }
        }
        assert forall|i: int, m: int|
            0 <= i < after.len() && 0 <= m < after[i].nodes.len() implies (
        #[trigger] after[i].nodes[m]).name == after[i].name && after[i].nodes[m].well_formed() by {
            if i < groups.len() {
                assert(after[i] == groups[i]);
            }
        }
        assert forall|i: int| 0 <= i < after.len() implies (#[trigger] after[i]).nodes.len()
            > 0 by {
            if i < groups.len() {
                assert(after[i] == groups[i]);
            }
        }
    }
    assert(groups_well_formed(after));
    assert(nodes_well_formed(after));
}

/// The nodes of the groups of a well-formed node are well formed.
pub proof fn lemma_all_nodes_well_formed(groups: Seq<GroupView>)
    requires
        nodes_well_formed(groups),
    ensures
        forall|i: int| 0 <= i < all_nodes(groups).len() ==> (#[trigger] all_nodes(
            groups,
        )[i]).well_formed(),
    decreases groups.len(),
{
    if groups.len() > 0 {
        let front = groups.drop_last();
        assert forall|i: int, k: int|
            0 <= i < front.len() && 0 <= k < front[i].nodes.len() implies (
        #[trigger] front[i].nodes[k]).well_formed() by {
            assert(front[i] == groups[i]);
        }
        lemma_all_nodes_well_formed(front);
        let all = all_nodes(groups);
        assert forall|i: int| 0 <= i < all.len() implies (#[trigger] all[i]).well_formed() by {
            if i >= all_nodes(front).len() {
                let k = i - all_nodes(front).len();
                assert(all[i] == groups[groups.len() - 1].nodes[k]);
            } else {
                assert(all[i] == all_nodes(front)[i]);
            }
        }
    }
}

/// Taking the children of a well-formed node keeps a node well formed.
pub proof fn lemma_take_children_well_formed(node: NodeView, other: NodeView)
    requires
        node.well_formed(),
        other.well_formed(),
    ensures
        node.with_children_of(other).well_formed(),
{
    assert(nodes_well_formed(other.children));
    lemma_all_nodes_well_formed(other.children);
    lemma_file_all_well_formed(node, all_nodes(other.children));
}

/// Filing well-formed nodes one after the other keeps a node well formed.
proof fn lemma_file_all_well_formed(node: NodeView, nodes: Seq<NodeView>)
    requires
        node.well_formed(),
        forall|i: int| 0 <= i < nodes.len() ==> (#[trigger] nodes[i]).well_formed(),
    ensures
        (NodeView { children: groups_with_all(node.children, nodes), ..node }).well_formed(),
    decreases nodes.len(),
{
    if nodes.len() > 0 {
        let front = nodes.drop_last();
        assert forall|i: int| 0 <= i < front.len() implies (#[trigger] front[i]).well_formed() by {
            assert(front[i] == nodes[i]);
        }
        lemma_file_all_well_formed(node, front);
        let sofar = NodeView { children: groups_with_all(node.children, front), ..node };
        lemma_add_child_well_formed(sofar, nodes.last());
        assert(sofar.with_child(nodes.last()) == NodeView {
            children: groups_with_all(node.children, nodes),
            ..node
        });
    }
}

/// Adding a child puts it last among the children of its name and leaves
/// every other child where it was: children of one name stay in the order in
/// which they were added.
pub proof fn lemma_add_child_keeps_order(node: NodeView, child: NodeView, name: Seq<char>)
    ensures
        node.with_child(child).children_named(name) == if name == child.name {
            node.children_named(name).push(child)
        } else {
            node.children_named(name)
        },
{
    let groups = node.children;
    let after = groups_with(groups, child);
    lemma_group_index(groups, child.name);
    lemma_group_index(groups, name);
    let k = group_index(groups, child.name);
    let m = group_index(groups, name);
    if name == child.name {
        assert forall|i: int| 0 <= i < k implies (#[trigger] after[i]).name != name by {
            assert(after[i] == groups[i]);
        }
        lemma_group_index_unique(after, name, k);
    } else {
        if m < groups.len() {
            assert(m != k);
            assert forall|i: int| 0 <= i < m implies (#[trigger] after[i]).name != name by {
                assert(after[i].name == groups[i].name);
            }
            lemma_group_index_unique(after, name, m);
        } else {
            assert forall|i: int| 0 <= i < after.len() implies (#[trigger] after[i]).name
                != name by {
                if i < groups.len() {
                    assert(after[i].name == groups[i].name);
                }
            }
            lemma_group_index_unique(after, name, after.len() as int);
        }
    }
}

/// The nodes of `nodes` that are named `name`, in their order.
pub open spec fn named(nodes: Seq<NodeView>, name: Seq<char>) -> Seq<NodeView>
    decreases nodes.len(),
{
    if nodes.len() == 0 {
        Seq::empty()
    } else if nodes.last().name == name {
        named(nodes.drop_last(), name).push(nodes.last())
    } else {
        named(nodes.drop_last(), name)
    }
}

/// Taking the children of another node puts those of each name, in their
/// order, after the children of that name already there.
pub proof fn lemma_take_children_keeps_order(node: NodeView, other: NodeView, name: Seq<char>)
    ensures
        node.with_children_of(other).children_named(name) == node.children_named(name) + named(
            all_nodes(other.children),
            name,
        ),
{
    lemma_file_all_keeps_order(node, all_nodes(other.children), name);
}

/// Filing nodes one after the other puts those of each name, in their
/// order, after the children of that name already there.
proof fn lemma_file_all_keeps_order(node: NodeView, nodes: Seq<NodeView>, name: Seq<char>)
    ensures
        nodes_named(groups_with_all(node.children, nodes), name) == node.children_named(name)
            + named(nodes, name),
    decreases nodes.len(),
{
    if nodes.len() == 0 {
        assert(node.children_named(name) + Seq::<NodeView>::empty() =~= node.children_named(
            name,
        ));
    } else {
        let front = nodes.drop_last();
        lemma_file_all_keeps_order(node, front, name);
        let sofar = NodeView { children: groups_with_all(node.children, front), ..node };
        lemma_add_child_keeps_order(sofar, nodes.last(), name);
        if nodes.last().name == name {
            assert(node.children_named(name) + named(front, name).push(nodes.last()) =~= (
            node.children_named(name) + named(front, name)).push(nodes.last()));
        }
    }
}

impl ChildGroup {
    /// Whether the group is the one for `name`.
    fn is_named(&self, name: &String) -> (r: bool)
        ensures
            r == (self@.name == name@),
    {
        self.name == *name
    }
}

/// The index of the first group named `name`, or `groups.len()`.
fn find_group(groups: &Vec<ChildGroup>, name: &String) -> (k: usize)
    ensures
        k == group_index(groups_view(groups), name@),
        k <= groups.len(),
{
    let mut k: usize = 0;
    while k < groups.len()
        invariant
            k <= groups.len(),
            forall|i: int| 0 <= i < k ==> (#[trigger] groups_view(groups)[i]).name != name@,
        decreases groups.len() - k,
    {
        if groups[k].is_named(name) {
            proof {
                lemma_group_index_unique(groups_view(groups), name@, k as int);
            }
            return k;
        }
        k += 1;
    }
    proof {
        lemma_group_index_unique(groups_view(groups), name@, k as int);
    }
    k
}

/// The mathematical value of a list of groups.
pub open spec fn groups_view(groups: &Vec<ChildGroup>) -> Seq<GroupView> {
    Seq::new(groups.len() as nat, |i: int| groups[i]@)
}

/// The mathematical value of a list of nodes.
pub open spec fn nodes_view(nodes: &Vec<ASTNode>) -> Seq<NodeView> {
    Seq::new(nodes.len() as nat, |i: int| nodes[i]@)
}

/// The value of a node, field by field.
pub proof fn lemma_node_view(node: &ASTNode)
    ensures
        node@.name == node.name@,
        node@.value == node.value@,
        node@.children == groups_view(&node.children),
{
    assert(node@.children =~= groups_view(&node.children));
}

/// The value of a group, field by field.
pub proof fn lemma_group_view(group: &ChildGroup)
    ensures
        group@.name == group.name@,
        group@.nodes == nodes_view(&group.nodes),
{
    assert(group@.nodes =~= nodes_view(&group.nodes));
}

impl ASTNode {
    /// A node named `name` with no text and no children.
    pub fn new(name: &str) -> (node: ASTNode)
        ensures
            node@ == NodeView::leaf(name@, Seq::empty()),
            node@.well_formed(),
    {
        let node = ASTNode { name: name.to_owned(), value: String::new(), children: Vec::new() };
        proof {
            lemma_node_view(&node);
            assert(node@.children =~= Seq::empty());
        }
        node
    }

    /// A leaf named `name` that captures `value`.
    pub fn with_value(name: &str, value: &str) -> (node: ASTNode)
        ensures
            node@ == NodeView::leaf(name@, value@),
            node@.well_formed(),
    {
        let node = ASTNode { name: name.to_owned(), value: value.to_owned(), children: Vec::new() };
        proof {
            lemma_node_view(&node);
            assert(node@.children =~= Seq::empty());
        }
        node
    }

    /// Files `child` under its own name, after the children already there.
    pub fn add_child(&mut self, child: ASTNode)
        ensures
            final(self)@ == old(self)@.with_child(child@),
            old(self)@.well_formed() && child@.well_formed() ==> final(self)@.well_formed(),
    {
        proof {
            lemma_node_view(self);
            if self@.well_formed() && child@.well_formed() {
                lemma_add_child_well_formed(self@, child@);
            }
        }
        let ghost before = groups_view(&self.children);
        let k = find_group(&self.children, &child.name);
        if k < self.children.len() {
            let mut group = self.children.remove(k);
            proof {
                lemma_group_view(&group);
            }
            let ghost old_nodes = nodes_view(&group.nodes);
            group.nodes.push(child);
            proof {
                lemma_group_view(&group);
                assert(nodes_view(&group.nodes) =~= old_nodes.push(child@));
            }
            let ghost filed = group@;
            self.children.insert(k, group);
            proof {
                lemma_node_view(self);
                lemma_node_view(&child);
                lemma_group_index(before, child@.name);
                assert(before[k as int].name == child@.name);
                assert(filed == GroupView {
                    name: child@.name,
                    nodes: before[k as int].nodes.push(child@),
                });
                let after = groups_view(&self.children);
                let expected = groups_with(before, child@);
                assert(after.len() == expected.len());
                assert forall|i: int| 0 <= i < after.len() implies after[i] == expected[i] by {
                    if i == k {
                        assert(self.children@[i] == group);
                    } else {
                        assert(self.children@[i] == old(self).children@[i]);
                    }
                }
                assert(after =~= expected);
            }
        } else {
            let mut nodes: Vec<ASTNode> = Vec::new();
            let name = child.name.clone();
            nodes.push(child);
            let group = ChildGroup { name, nodes };
            proof {
                lemma_group_view(&group);
                assert(nodes_view(&group.nodes) =~= seq![child@]);
            }
            self.children.push(group);
            proof {
                lemma_node_view(self);
                assert(groups_view(&self.children) =~= groups_with(before, child@));
            }
        }
    }

    /// Whether the name marks a node that the parser made for its own use.
    pub fn is_internal(&self) -> (r: bool)
        ensures
            r == self@.is_internal(),
    {
        proof {
            lemma_node_view(self);
        }
        let name = crate::text::to_chars(self.name.as_str());
        name.len() > 0 && name[0] == '_'
    }

    /// Files the children of `other` under their own names, group after
    /// group, after the children already there.
    pub fn take_children_of(&mut self, other: ASTNode)
        ensures
            final(self)@ == old(self)@.with_children_of(other@),
            old(self)@.well_formed() && other@.well_formed() ==> final(self)@.well_formed(),
    {
        proof {
            lemma_node_view(&other);
            lemma_node_view(self);
            if self@.well_formed() && other@.well_formed() {
                lemma_take_children_well_formed(self@, other@);
            }
        }
        let ghost all = all_nodes(other@.children);
        let ghost before = self@.children;
        let mut groups = other.children;
        let mut stack: Vec<ASTNode> = Vec::new();
        proof {
            assert(all.take(all.len() as int) =~= all);
        }
        while groups.len() > 0
            invariant
                stack.len() <= all.len(),
                all.take(all.len() - stack.len()) == all_nodes(groups_view(&groups)),
                forall|k: int|
                    0 <= k < stack.len() ==> (#[trigger] stack[k])@ == all[all.len() - 1 - k],
            decreases groups.len(),
        {
            let ghost these = groups_view(&groups);
            let group = groups.pop().unwrap();
            proof {
                lemma_group_view(&group);
                assert(groups_view(&groups) =~= these.drop_last());
                assert(these.last() == group@);
            }
            let mut nodes = group.nodes;
            while nodes.len() > 0
                invariant
                    stack.len() <= all.len(),
                    all.take(all.len() - stack.len()) == all_nodes(groups_view(&groups))
                        + nodes_view(&nodes),
                    forall|k: int|
                        0 <= k < stack.len() ==> (#[trigger] stack[k])@ == all[all.len() - 1 - k],
                decreases nodes.len(),
            {
                let ghost left = nodes_view(&nodes);
                let ghost upto = all.len() - stack.len();
                let node = nodes.pop().unwrap();
                proof {
                    assert(nodes_view(&nodes) =~= left.drop_last());
                    assert(left.last() == node@);
                    let front = all_nodes(groups_view(&groups));
                    assert(all.take(upto).len() == front.len() + left.len());
                    assert(all[upto - 1] == all.take(upto)[upto - 1]);
                    assert((front + left)[upto - 1] == left.last());
                    assert(all.take(upto - 1) =~= front + left.drop_last());
                }
                stack.push(node);
            }
            proof {
                assert(all_nodes(groups_view(&groups)) + nodes_view(&nodes) =~= all_nodes(
                    groups_view(&groups),
                ));
            }
        }
        proof {
            assert(groups_view(&groups).len() == 0);
            assert(all.take(all.len() - stack.len()).len() == 0);
            assert(all.take(0) =~= Seq::empty());
        }
        let ghost mut done: int = 0;
        while stack.len() > 0
            invariant
                stack.len() + done == all.len(),
                0 <= done,
                forall|k: int|
                    0 <= k < stack.len() ==> (#[trigger] stack[k])@ == all[all.len() - 1 - k],
                self@.children == groups_with_all(before, all.take(done)),
                self@.name == old(self)@.name,
                self@.value == old(self)@.value,
            decreases stack.len(),
        {
            let node = stack.pop().unwrap();
            proof {
                assert(node@ == all[done]);
                assert(all.take(done + 1).drop_last() =~= all.take(done));
                assert(all.take(done + 1).last() == all[done]);
            }
            self.add_child(node);
            proof {
                done = done + 1;
            }
        }
        proof {
            assert(all.take(done) =~= all);
        }
    }

    /// The oldest child named `name`, if there is one.
    pub fn get_child(&self, name: &str) -> (child: Option<&ASTNode>)
        ensures
            match child {
                Some(c) => self@.first_child(name@) == Some(c@),
                None => self@.first_child(name@) is None,
            },
    {
        let nodes = self.get_children(name);
        if nodes.len() > 0 {
            Some(&nodes[0])
        } else {
            None
        }
    }

    /// All children named `name`, oldest first.
    pub fn get_children(&self, name: &str) -> (nodes: &[ASTNode])
        ensures
            nodes@.len() == self@.children_named(name@).len(),
            forall|i: int| 0 <= i < nodes@.len() ==> (#[trigger] nodes@[i])@ == self@.children_named(
                name@,
            )[i],
    {
        proof {
            lemma_node_view(self);
        }
        let key = name.to_owned();
        let k = find_group(&self.children, &key);
        if k < self.children.len() {
            proof {
                lemma_group_view(&self.children[k as int]);
            }
            self.children[k].nodes.as_slice()
        } else {
            &[]
        }
    }
}

impl Clone for ChildGroup {
    /// A copy of the group and of all nodes in it.
    fn clone(&self) -> (copy: Self)
        ensures
            copy@ == self@,
        decreases self,
    {
        proof {
            lemma_group_view(self);
        }
        let mut nodes: Vec<ASTNode> = Vec::new();
        let mut i: usize = 0;
        while i < self.nodes.len()
            invariant
                i <= self.nodes.len(),
                nodes.len() == i,
                forall|k: int| 0 <= k < i ==> nodes[k]@ == self.nodes[k]@,
            decreases self.nodes.len() - i,
        {
            nodes.push(self.nodes[i].clone());
            i += 1;
        }
        let copy = ChildGroup { name: self.name.clone(), nodes };
        proof {
            lemma_group_view(&copy);
            assert(nodes_view(&copy.nodes) =~= nodes_view(&self.nodes));
        }
        copy
    }
}

impl Clone for ASTNode {
    /// A copy of the node and of all nodes below it.
    fn clone(&self) -> (copy: Self)
        ensures
            copy@ == self@,
        decreases self,
    {
        proof {
            lemma_node_view(self);
        }
        let mut children: Vec<ChildGroup> = Vec::new();
        let mut i: usize = 0;
        while i < self.children.len()
            invariant
                i <= self.children.len(),
                children.len() == i,
                forall|k: int| 0 <= k < i ==> children[k]@ == self.children[k]@,
            decreases self.children.len() - i,
        {
            children.push(self.children[i].clone());
            i += 1;
        }
        let copy = ASTNode { name: self.name.clone(), value: self.value.clone(), children };
        proof {
            lemma_node_view(&copy);
            assert(groups_view(&copy.children) =~= groups_view(&self.children));
        }
        copy
    }
}

} // verus!
