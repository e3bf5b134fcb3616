//! Chaining two names into one.
//!
//! A chain joins a relative name (its labels, with no terminating root) to
//! an absolute name that follows it. Its labels are the labels of both in
//! order, and its wire form is the first name's labels followed by the
//! second's whole wire form.

use vstd::prelude::*;
use crate::name::{Name, wire_labels, wire_name, wf_name, labels_view};

verus! {

/// Two names joined, the left one's labels before the right one's.
pub struct Chain<L, R> {
    pub left: L,
    pub right: R,
}

impl<L, R> Chain<L, R> {
    /// Joins two names.
    pub fn new(left: L, right: R) -> (c: Self)
        ensures
            c.left == left,
            c.right == right,
    {
        Chain { left, right }
    }

    /// Takes the chain apart again.
    pub fn unwrap(self) -> (r: (L, R))
        ensures
            r.0 == self.left,
            r.1 == self.right,
    {
        (self.left, self.right)
    }

    /// Joins a further name behind this chain.
    pub fn chain<N>(self, other: N) -> (r: Chain<Self, N>)
        ensures
            r.left == self,
            r.right == other,
    {
        Chain::new(self, other)
    }
}

impl Chain<Name, Name> {
    /// The labels of the chain, left before right.
    pub open spec fn labels(&self) -> Seq<Seq<u8>> {
        self.left@ + self.right@
    }

    /// An iterator over the chain's labels, in order.
    pub fn iter_labels(&self) -> (r: ChainIter)
        ensures
            r.remaining() == self.labels(),
    {
        let mut labels: Vec<Vec<u8>> = Vec::new();
        let mut i: usize = 0;
        while i < self.left.labels.len()
            invariant
                i <= self.left.labels.len(),
                labels@.len() == i,
                forall|k: int| 0 <= k < i ==> #[trigger] labels@[k]@ == self.left@[k],
            decreases self.left.labels.len() - i,
        {
            labels.push(self.left.labels[i].clone());
            i = i + 1;
        }
        let ghost nleft = self.left@.len();
        let mut j: usize = 0;
        while j < self.right.labels.len()
            invariant
                j <= self.right.labels.len(),
                nleft == self.left@.len(),
                labels@.len() == nleft + j,
                forall|k: int| 0 <= k < nleft ==> #[trigger] labels@[k]@ == self.left@[k],
                forall|k: int|
                    nleft <= k < nleft + j ==> #[trigger] labels@[k]@ == self.right@[k - nleft],
            decreases self.right.labels.len() - j,
        {
            labels.push(self.right.labels[j].clone());
            j = j + 1;
        }
        let r = ChainIter::Chain(labels, 0);
        proof {
            assert(r.remaining() =~= self.left@ + self.right@);
        }
        r
    }

    /// The number of bytes `compose` appends.
    pub fn compose_len(&self) -> (r: usize)
        requires
            wf_name(self.left@),
            wf_name(self.right@),
        ensures
            r == wire_labels(self.left@).len() + wire_name(self.right@).len(),
    {
        let mut buf: Vec<u8> = Vec::new();
        self.compose(&mut buf);
        buf.len()
    }

    /// Appends the chain's wire form: the left name's labels, then the
    /// right name whole.
    pub fn compose(&self, buf: &mut Vec<u8>)
        requires
            wf_name(self.left@),
            wf_name(self.right@),
            old(buf)@.len() + 512 <= usize::MAX,
        ensures
            final(buf)@ == old(buf)@ + wire_labels(self.left@) + wire_name(self.right@),
    {
        let ghost base = buf@;
        self.left.write_wire(buf);
        // take the left name's root byte back off: only its labels stand
        // before the right name
        let ghost withroot = buf@;
        let popped = buf.pop();
        proof {
            assert(withroot == base + wire_name(self.left@));
            assert(buf@ =~= base + wire_labels(self.left@));
        }
        self.right.write_wire(buf);
    }
}

/// An iterator over chained labels.
pub enum ChainIter {
    /// Labels of a left name alone.
    Left(Vec<Vec<u8>>, usize),
    /// Labels of a whole chain.
    Chain(Vec<Vec<u8>>, usize),
}

impl ChainIter {
    /// The labels not yet yielded, in order.
    pub open spec fn remaining(&self) -> Seq<Seq<u8>> {
        match self {
            ChainIter::Left(labels, pos) => if *pos as int <= labels@.len() {
                labels_view(labels@).skip(*pos as int)
            } else {
                Seq::<Seq<u8>>::empty()
            },
            ChainIter::Chain(labels, pos) => if *pos as int <= labels@.len() {
                labels_view(labels@).skip(*pos as int)
            } else {
                Seq::<Seq<u8>>::empty()
            },
        }
    }

    /// The next label, front to back.
    pub fn next(&mut self) -> (r: Option<Vec<u8>>)
        ensures
            old(self).remaining().len() == 0 ==> r is None && final(self).remaining() == old(
                self,
            ).remaining(),
            old(self).remaining().len() > 0 ==> (r matches Some(l) && l@ == old(
                self,
            ).remaining()[0]) && final(self).remaining() == old(self).remaining().skip(1),
    {
        match self {
            ChainIter::Left(labels, pos) => {
                if *pos < labels.len() {
                    let l = labels[*pos].clone();
                    proof {
                        assert(labels_view(labels@).skip(*pos as int)[0] == labels_view(labels@)[
                            *pos as int
                        ]);
                    }
                    *pos = *pos + 1;
                    proof {
                        assert(labels_view(labels@).skip(*pos as int) =~= labels_view(
                            labels@,
                        ).skip(*pos - 1).skip(1));
                    }
                    Some(l)
                } else {
                    None
                }
            },
            ChainIter::Chain(labels, pos) => {
                if *pos < labels.len() {
                    let l = labels[*pos].clone();
                    proof {
                        assert(labels_view(labels@).skip(*pos as int)[0] == labels_view(labels@)[
                            *pos as int
                        ]);
                    }
                    *pos = *pos + 1;
                    proof {
                        assert(labels_view(labels@).skip(*pos as int) =~= labels_view(
                            labels@,
                        ).skip(*pos - 1).skip(1));
                    }
                    Some(l)
                } else {
                    None
                }
            },
        }
    }
}

} // verus!
