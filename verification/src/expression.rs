//! The tree that the parser builds.
use vstd::prelude::*;

verus! {

/// A node of the syntax tree: a name, or a group that owns its children.
#[derive(Debug, PartialEq, Eq)]
pub enum Expression {
    Group(Vec<Expression>),
    Name(String),
}

/// What an [`Expression`] is: the same tree over mathematical sequences.
pub enum Tree {
    Group(Seq<Tree>),
    Name(Seq<char>),
}

impl View for Expression {
    type V = Tree;

    open spec fn view(&self) -> Tree
        decreases self,
    {
        match self {
            Expression::Group(children) => Tree::Group(
                Seq::new(
                    children@.len(),
                    |i: int|
                        if 0 <= i < children@.len() {
                            children@[i].view()
                        } else {
                            Tree::Name(Seq::empty())
                        },
                ),
            ),
            Expression::Name(text) => Tree::Name(text@),
        }
    }
}

/// The views of a sequence of expressions, in the same order.
pub open spec fn trees(expressions: Seq<Expression>) -> Seq<Tree> {
    expressions.map_values(|e: Expression| e@)
}

/// A group's view holds the views of its children.
pub proof fn lemma_group_view(children: Vec<Expression>)
    ensures
        Expression::Group(children)@ == Tree::Group(trees(children@)),
{
    assert(Expression::Group(children)@->Group_0 =~= trees(children@));
}

} // verus!
