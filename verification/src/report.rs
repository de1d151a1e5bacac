//! What a hierarchy shows of itself: the pre-order report on a merge tree and
//! the table of distances between the active nodes, both as values and as text.

use crate::dendrogram::{Distance, ElementId, HierarchyView, Tree};
use crate::hierarchy_grouping::{Hierarchy, HierarchyObject, InnerHierarchyObject};
use crate::text::{append_decimal, append_tenths, decimal, tenths};
use vstd::prelude::*;

verus! {

/// The report on one merge: the node, the distance at which its two members
/// were merged, and for each member whether it is a merge node itself or a leaf.
#[derive(Clone, Copy, Debug, PartialEq, Eq)]
pub struct MergeReport {
    pub id: ElementId,
    pub distance: Distance,
    pub first_is_node: bool,
    pub first_id: ElementId,
    pub second_is_node: bool,
    pub second_id: ElementId,
}

/// The word for a member of a merge.
pub open spec fn member_word(is_node: bool) -> Seq<char> {
    if is_node {
        "NODE"@
    } else {
        "LEAF"@
    }
}

impl MergeReport {
    /// The report as one line of text, without a line end.
    pub open spec fn line(self) -> Seq<char> {
        "NODE: "@ + decimal(self.id as nat) + " - distance: "@ + tenths(self.distance as nat)
            + "; members: "@ + member_word(self.first_is_node) + " "@ + decimal(
            self.first_id as nat,
        ) + " - "@ + member_word(self.second_is_node) + " "@ + decimal(self.second_id as nat)
    }

    /// The report as one line of text, without a line end.
    pub fn text(&self) -> (text: String)
        ensures
            text@ == self.line(),
    {
        let mut text = String::new();
        text.append("NODE: ");
        append_decimal(&mut text, self.id as u64);
        text.append(" - distance: ");
        append_tenths(&mut text, self.distance);
        text.append("; members: ");
        text.append(if self.first_is_node { "NODE" } else { "LEAF" });
        text.append(" ");
        append_decimal(&mut text, self.first_id as u64);
        text.append(" - ");
        text.append(if self.second_is_node { "NODE" } else { "LEAF" });
        text.append(" ");
        append_decimal(&mut text, self.second_id as u64);
        assert(text@ =~= self.line());
        text
    }
}

/// The report of the merge at the root of `tree`, where the root is a merge.
pub open spec fn root_report(tree: Tree) -> MergeReport {
    MergeReport {
        id: tree.id(),
        distance: tree->distance,
        first_is_node: *tree->left is Node,
        first_id: tree->left.id(),
        second_is_node: *tree->right is Node,
        second_id: tree->right.id(),
    }
}

/// The reports of all merges of `tree` in pre-order: a merge, then those of
/// its first member, then those of its second. A leaf has none.
pub open spec fn report(tree: Tree) -> Seq<MergeReport>
    decreases tree,
{
    match tree {
        Tree::Leaf { .. } => Seq::empty(),
        Tree::Node { left, right, .. } => seq![root_report(tree)] + report(*left) + report(*right),
    }
}

/// The report can be asked for again: two traversals of one tree give the same lines.
pub proof fn lemma_report_repeats(
    object: HierarchyObject,
    first: Seq<MergeReport>,
    second: Seq<MergeReport>,
)
    requires
        first == report(object.tree()),
        second == report(object.tree()),
    ensures
        first == second,
{
}

/// The report has one line for each merge of the tree, and none for a leaf.
pub proof fn lemma_report_len(tree: Tree)
    ensures
        report(tree).len() == tree.merges(),
    decreases tree,
{
    match tree {
        Tree::Leaf { .. } => {},
        Tree::Node { left, right, .. } => {
            lemma_report_len(*left);
            lemma_report_len(*right);
        },
    }
}

impl HierarchyObject {
    /// The reports of all merges below this node, in pre-order.
    pub fn tree_display(&self) -> (lines: Vec<MergeReport>)
        ensures
            lines@ == report(self.tree()),
    {
        let mut lines: Vec<MergeReport> = Vec::new();
        self.report_into(&mut lines);
        lines
    }

    fn report_into(&self, lines: &mut Vec<MergeReport>)
        ensures
            final(lines)@ == old(lines)@ + report(self.tree()),
        decreases self,
    {
        match &self.inner {
            InnerHierarchyObject::Node(node) => {
                let first_is_node = match node.0.inner {
                    InnerHierarchyObject::Node(_) => true,
                    InnerHierarchyObject::Leaf => false,
                };
                let second_is_node = match node.1.inner {
                    InnerHierarchyObject::Node(_) => true,
                    InnerHierarchyObject::Leaf => false,
                };
                lines.push(
                    MergeReport {
                        id: self.id,
                        distance: node.2,
                        first_is_node,
                        first_id: node.0.id,
                        second_is_node,
                        second_id: node.1.id,
                    },
                );
                node.0.report_into(lines);
                node.1.report_into(lines);
                assert(lines@ =~= old(lines)@ + report(self.tree()));
            },
            InnerHierarchyObject::Leaf => {
                assert(lines@ =~= old(lines)@ + report(self.tree()));
            },
        }
    }
}

/// A column head of the table: the identifier, padded to the width of a column.
pub open spec fn id_cell(id: ElementId) -> Seq<char> {
    decimal(id as nat) + if id < 10 {
        "    "@
    } else {
        "   "@
    }
}

/// The head of a row of the table: the identifier, padded.
pub open spec fn row_label(id: ElementId) -> Seq<char> {
    decimal(id as nat) + if id < 10 {
        "  "@
    } else {
        " "@
    }
}

/// A distance in the table, padded to the width of a column.
pub open spec fn distance_cell(distance: Distance) -> Seq<char> {
    tenths(distance as nat) + if distance % 10 == 0 {
        "    "@
    } else {
        "  "@
    }
}

/// What the table shows in a row under a column: the distance that the node
/// of the row holds to that of the column, and zero from a node to itself.
pub open spec fn cell(v: HierarchyView, row: ElementId, column: ElementId) -> Seq<char> {
    if row == column {
        distance_cell(0)
    } else {
        distance_cell(v.distance(row, column))
    }
}

/// The column heads of the active nodes up to the identifier `upto`, in ascending order.
pub open spec fn header(v: HierarchyView, upto: nat) -> Seq<char>
    decreases upto,
{
    if upto == 0 {
        Seq::empty()
    } else {
        header(v, (upto - 1) as nat) + if v.objects.contains_key(upto as ElementId) {
            id_cell(upto as ElementId)
        } else {
            Seq::empty()
        }
    }
}

/// The cells of a row under the active nodes up to the identifier `upto`, in ascending order.
pub open spec fn row_cells(v: HierarchyView, row: ElementId, upto: nat) -> Seq<char>
    decreases upto,
{
    if upto == 0 {
        Seq::empty()
    } else {
        row_cells(v, row, (upto - 1) as nat) + if v.objects.contains_key(upto as ElementId) {
            cell(v, row, upto as ElementId)
        } else {
            Seq::empty()
        }
    }
}

/// The rows of the active nodes up to the identifier `upto`, in ascending
/// order, each with its head, its cells and a line end.
pub open spec fn rows(v: HierarchyView, upto: nat) -> Seq<char>
    decreases upto,
{
    if upto == 0 {
        Seq::empty()
    } else {
        rows(v, (upto - 1) as nat) + if v.objects.contains_key(upto as ElementId) {
            row_label(upto as ElementId) + row_cells(v, upto as ElementId, v.element_count as nat)
                + "\n"@
        } else {
            Seq::empty()
        }
    }
}

/// The table of distances between the active nodes as text: a line of column
/// heads, then one line for each node.
pub open spec fn table(v: HierarchyView) -> Seq<char> {
    "   "@ + header(v, v.element_count as nat) + "\n"@ + rows(v, v.element_count as nat)
}

impl Hierarchy {
    /// The table of distances between the active nodes as text.
    pub fn to_text(&self) -> (text: String)
        requires
            self@.wf(),
        ensures
            text@ == table(self@),
    {
        let count = self.element_count;
        let mut text = String::new();
        text.append("   ");
        let mut i: usize = 0;
        while i < count
            invariant
                i <= count,
                count == self.element_count,
                text@ == "   "@ + header(self@, i as nat),
            decreases count - i,
        {
            i += 1;
            if self.objects.contains_key(&i) {
                append_decimal(&mut text, i as u64);
                text.append(if i / 10 < 1 { "    " } else { "   " });
            }
            assert(text@ =~= "   "@ + header(self@, i as nat));
        }
        text.append("\n");
        let ghost head = text@;
        let mut i: usize = 0;
        while i < count
            invariant
                i <= count,
                count == self.element_count,
                self@.wf(),
                text@ == head + rows(self@, i as nat),
            decreases count - i,
        {
            i += 1;
            match self.objects.get(&i) {
                Some(object) => {
                    let ghost above = text@;
                    append_decimal(&mut text, i as u64);
                    text.append(if i / 10 < 1 { "  " } else { " " });
                    let mut j: usize = 0;
                    while j < count
                        invariant
                            j <= count,
                            count == self.element_count,
                            self@.wf(),
                            1 <= i <= count,
                            self.objects@.contains_key(i),
                            *object == self.objects@[i],
                            text@ == above + row_label(i) + row_cells(self@, i, j as nat),
                        decreases count - j,
                    {
                        j += 1;
                        if self.objects.contains_key(&j) {
                            let distance = if j == i {
                                0
                            } else {
                                assert(self@.linked(i, j));
                                *object.distances.get(&j).unwrap()
                            };
                            append_tenths(&mut text, distance);
                            text.append(if distance % 10 == 0 { "    " } else { "  " });
                        }
                        assert(text@ =~= above + row_label(i) + row_cells(self@, i, j as nat));
                    }
                    text.append("\n");
                    assert(text@ =~= head + rows(self@, i as nat));
                },
                None => {
                    assert(text@ =~= head + rows(self@, i as nat));
                },
            }
        }
        assert(text@ =~= table(self@));
        text
    }
}

} // verus!
