//! The parts a graph node is made of: what it reads, and who reads it.
use vstd::prelude::*;

verus! {

/// What a node is: an input holding its current value, or an operation
/// applied to the values of one or two earlier nodes (given by index).
#[derive(Clone, Copy)]
pub enum NodeKind<T, O> {
    Input(T),
    Unary(O, usize),
    Binary(O, usize, usize),
}

/// The operand values an operation is applied to.
#[derive(Clone, Copy)]
pub enum Args<T> {
    One(T),
    Two(T, T),
}

/// Whether a node of this kind reads node `x`.
pub open spec fn reads<T, O>(kind: NodeKind<T, O>, x: int) -> bool {
    match kind {
        NodeKind::Input(_) => false,
        NodeKind::Unary(_, a) => a == x,
        NodeKind::Binary(_, a, b) => a == x || b == x,
    }
}

/// The nodes to notify, in order of registration, when a node's value changes.
/// Entries are indices: they do not own the nodes they name.
pub struct Dependencies {
    vec: Vec<usize>,
}

impl View for Dependencies {
    type V = Seq<usize>;

    closed spec fn view(&self) -> Seq<usize> {
        self.vec@
    }
}

impl Dependencies {
    /// An empty list.
    pub fn new() -> (r: Self)
        ensures
            r@ == Seq::<usize>::empty(),
    {
        Dependencies { vec: Vec::new() }
    }

    /// Registers node `n` at the end of the list.
    pub fn add(&mut self, n: usize)
        ensures
            final(self)@ == old(self)@.push(n),
    {
        self.vec.push(n);
    }

    pub fn len(&self) -> (r: usize)
        ensures
            r == self@.len(),
    {
        self.vec.len()
    }

    pub fn get(&self, l: usize) -> (r: usize)
        requires
            l < self@.len(),
        ensures
            r == self@[l as int],
    {
        self.vec[l]
    }

    /// A second list with the same entries.
    pub fn duplicate(&self) -> (r: Self)
        ensures
            r@ == self@,
    {
        let mut vec: Vec<usize> = Vec::new();
        let mut l: usize = 0;
        while l < self.vec.len()
            invariant
                l <= self.vec@.len(),
                vec@ == self.vec@.take(l as int),
            decreases self.vec@.len() - l,
        {
            vec.push(self.vec[l]);
            l = l + 1;
            assert(vec@ =~= self.vec@.take(l as int));
        }
        assert(vec@ =~= self.vec@);
        Dependencies { vec }
    }
}

} // verus!
