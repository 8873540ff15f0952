//! The instruction tree and its mathematical model.

use vstd::prelude::*;

verus! {

broadcast use vstd::std_specs::vec::axiom_vec_index_decreases;

/// One instruction as a mathematical value: the model of an [`AST`] node.
pub enum Instr {
    /// Displace the data pointer by the given amount.
    Move(int),
    /// Add the given amount to the current cell, modulo 256.
    Add(int),
    /// Write the current cell to the output stream.
    Output,
    /// Read one byte of the input stream into the current cell.
    Input,
    /// Repeat the body while the current cell is not zero.
    Loop(Seq<Instr>),
}

/// One node of an instruction tree.
#[derive(Debug)]
pub enum AST {
    /// Net pointer displacement of a run of `>` and `<`.
    Move(isize),
    /// Net cell increment of a run of `+` and `-`, kept modulo 256 as a signed byte.
    Add(i8),
    /// The operator `.`.
    Output,
    /// The operator `,`.
    Input,
    /// A bracket pair and the instructions between the brackets.
    Loop(Vec<AST>),
}

impl View for AST {
    type V = Instr;

    open spec fn view(&self) -> Instr
        decreases self,
    {
        match self {
            AST::Move(n) => Instr::Move(*n as int),
            AST::Add(n) => Instr::Add(*n as int),
            AST::Output => Instr::Output,
            AST::Input => Instr::Input,
            AST::Loop(body) => Instr::Loop(
                Seq::new(
                    body.len() as nat,
                    |i: int|
                        if 0 <= i < body.len() {
                            body[i]@
                        } else {
                            Instr::Output
                        },
                ),
            ),
        }
    }
}

/// The model of a sequence of nodes: the sequence of the nodes' models.
pub open spec fn tree_view(nodes: Seq<AST>) -> Seq<Instr> {
    Seq::new(nodes.len(), |i: int| nodes[i]@)
}

/// The model of a loop node is the loop over the model of its body.
pub proof fn lemma_loop_view(body: Vec<AST>)
    ensures
        AST::Loop(body)@ == Instr::Loop(tree_view(body@)),
{
    assert(AST::Loop(body)@->Loop_0 =~= tree_view(body@));
}

/// Appending a node to a sequence appends its model to the sequence's model.
pub proof fn lemma_tree_view_push(nodes: Seq<AST>, node: AST)
    ensures
        tree_view(nodes.push(node)) == tree_view(nodes).push(node@),
{
    assert(tree_view(nodes.push(node)) =~= tree_view(nodes).push(node@));
}

impl Clone for AST {
    /// A deep copy: a tree with the same model.
    fn clone(&self) -> (r: Self)
        ensures
            r@ == self@,
        decreases self,
    {
        match self {
            AST::Move(n) => AST::Move(*n),
            AST::Add(n) => AST::Add(*n),
            AST::Output => AST::Output,
            AST::Input => AST::Input,
            AST::Loop(body) => {
                let mut copy: Vec<AST> = Vec::new();
                let mut i: usize = 0;
                assert forall|j: int| 0 <= j < body.len() implies decreases_to!(self => #[trigger] body[j]) by {
                    assert(decreases_to!(self => body));
                    assert(decreases_to!(body => body[j]));
                }
                while i < body.len()
                    invariant
                        i <= body.len(),
                        copy.len() == i,
                        forall|j: int| 0 <= j < i ==> copy[j]@ == body[j]@,
                        forall|j: int|
                            0 <= j < body.len() ==> decreases_to!(self => #[trigger] body[j]),
                    decreases body.len() - i,
                {
                    copy.push(body[i].clone());
                    i = i + 1;
                }
                proof {
                    lemma_loop_view(copy);
                    lemma_loop_view(*body);
                    assert(tree_view(copy@) =~= tree_view(body@));
                }
                AST::Loop(copy)
            },
        }
    }
}

} // verus!
