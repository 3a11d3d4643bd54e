//! Messages that elements send one another.
use vstd::prelude::*;
use crate::tree::ElementId;
use crate::value::Var;

verus! {

/// A message from one element to another: a target name and arguments.
pub struct UIMessage {
    pub sender: ElementId,
    pub receiver: ElementId,
    pub target: String,
    pub args: Vec<Var>,
}

impl UIMessage {
    /// A message with no arguments.
    pub fn new(sender: ElementId, receiver: ElementId, target: &str) -> (m: Self)
        ensures
            m.sender == sender,
            m.receiver == receiver,
            m.target@ == target@,
            m.args@ == Seq::<Var>::empty(),
    {
        UIMessage { sender, receiver, target: target.to_owned(), args: Vec::new() }
    }

    /// The message with `args` appended to its arguments.
    pub fn with_args(self, args: Vec<Var>) -> (m: Self)
        ensures
            m.sender == self.sender,
            m.receiver == self.receiver,
            m.target == self.target,
            m.args@ == self.args@ + args@,
    {
        let mut m = self;
        let mut args = args;
        m.args.append(&mut args);
        m
    }

    /// The message with `arg` appended to its arguments.
    pub fn with_arg(self, arg: Var) -> (m: Self)
        ensures
            m.sender == self.sender,
            m.receiver == self.receiver,
            m.target == self.target,
            m.args@ == self.args@.push(arg),
    {
        let mut m = self;
        m.args.push(arg);
        m
    }
}

} // verus!
