//! A singly linked list, used by the compiler for the per-node dependency
//! sets. Pushing prepends, so the view lists the most recently pushed
//! element first.

use vstd::prelude::*;

verus! {

type Link<T> = Option<Box<Node<T>>>;

#[derive(Debug)]
struct Node<T> {
    car: T,
    cdr: Link<T>,
}

/// A singly linked list with a cached length.
#[derive(Debug)]
pub struct List<T> {
    head: Link<T>,
    len: usize,
}

/// The elements reachable from a link, nearest first.
spec fn link_view<T>(l: Link<T>) -> Seq<T>
    decreases l,
{
    match l {
        Option::None => Seq::empty(),
        Option::Some(n) => seq![n.car] + link_view(n.cdr),
    }
}

impl<T> View for List<T> {
    type V = Seq<T>;

    closed spec fn view(&self) -> Seq<T> {
        link_view(self.head)
    }
}

impl<T> List<T> {
    /// The cached length always matches the number of nodes.
    #[verifier::type_invariant]
    spec fn wf(self) -> bool {
        self.len as nat == link_view(self.head).len()
    }

    /// The empty list.
    pub fn new() -> (r: Self)
        ensures
            r@ == Seq::<T>::empty(),
    {
        Self { head: Option::None, len: 0 }
    }

    /// How many elements the list holds.
    pub fn len(&self) -> (r: usize)
        ensures
            r == self@.len(),
    {
        proof {
            use_type_invariant(self);
        }
        self.len
    }

    /// Whether the list holds no element.
    pub fn is_empty(&self) -> (r: bool)
        ensures
            r == (self@.len() == 0),
    {
        match &self.head {
            Option::None => true,
            Option::Some(_) => false,
        }
    }

    /// Prepends an element.
    pub fn push(&mut self, t: T)
        requires
            old(self)@.len() < usize::MAX,
        ensures
            final(self)@ == seq![t] + old(self)@,
    {
        proof {
            use_type_invariant(&*self);
        }
        let mut tmp: List<T> = List { head: Option::None, len: 0 };
        core::mem::swap(self, &mut tmp);
        let List { head, len } = tmp;
        *self = List { head: Option::Some(Box::new(Node { car: t, cdr: head })), len: len + 1 };
    }

    /// Removes and yields the most recently pushed element, if any.
    pub fn pop(&mut self) -> (r: Option<T>)
        ensures
            old(self)@.len() == 0 ==> r is None && final(self)@ == old(self)@,
            old(self)@.len() > 0 ==> r == Option::Some(old(self)@[0]) && final(self)@ == old(
                self,
            )@.drop_first(),
    {
        proof {
            use_type_invariant(&*self);
        }
        let mut tmp: List<T> = List { head: Option::None, len: 0 };
        core::mem::swap(self, &mut tmp);
        let List { head, len } = tmp;
        match head {
            Option::None => {
                *self = List { head: Option::None, len };
                Option::None
            },
            Option::Some(nd) => {
                let Node { car, cdr } = *nd;
                *self = List { head: cdr, len: len - 1 };
                Option::Some(car)
            },
        }
    }

    /// A cursor over the elements, nearest first.
    pub fn iter(&self) -> (r: ListIter<'_, T>)
        ensures
            r@ == self@,
    {
        ListIter { cur: &self.head }
    }
}

impl List<usize> {
    /// The elements as a vector, nearest first.
    pub fn to_vec(&self) -> (r: Vec<usize>)
        ensures
            r@ == self@,
    {
        let mut r: Vec<usize> = Vec::new();
        let mut it = self.iter();
        loop
            invariant
                it@.len() <= self@.len(),
                r@.len() + it@.len() == self@.len(),
                r@ =~= self@.subrange(0, r@.len() as int),
                it@ =~= self@.subrange(r@.len() as int, self@.len() as int),
            decreases it@.len(),
        {
            let ghost before = it@;
            let ghost r0 = r@;
            match it.next() {
                Option::Some(x) => {
                    proof {
                        assert(before[0] == self@[r0.len() as int]);
                        assert(*x == before[0]);
                    }
                    r.push(*x);
                    proof {
                        assert(r@ =~= self@.subrange(0, r@.len() as int));
                    }
                },
                Option::None => {
                    proof {
                        assert(r@ =~= self@);
                    }
                    return r;
                },
            }
        }
    }

    /// Whether the list holds `t`.
    pub fn contains(&self, t: &usize) -> (r: bool)
        ensures
            r == self@.contains(*t),
    {
        let mut it = self.iter();
        loop
            invariant
                it@.len() <= self@.len(),
                it@ =~= self@.subrange(self@.len() - it@.len(), self@.len() as int),
                !self@.subrange(0, self@.len() - it@.len()).contains(*t),
            decreases it@.len(),
        {
            let ghost before = it@;
            let ghost done = self@.len() - before.len();
            match it.next() {
                Option::Some(x) => {
                    proof {
                        assert(before[0] == self@[done]);
                    }
                    if *x == *t {
                        proof {
                            assert(self@.contains(*t)) by {
                                assert(self@[done] == *t);
                            }
                        }
                        return true;
                    }
                    proof {
                        let scanned = self@.subrange(0, done + 1);
                        assert forall|i: int| 0 <= i < scanned.len() implies #[trigger] scanned[i]
                            != *t by {
                            if i < done {
                                assert(self@.subrange(0, done)[i] == scanned[i]);
                                assert(!self@.subrange(0, done).contains(*t));
                            } else {
                                assert(scanned[i] == self@[done]);
                            }
                        }
                        assert(!scanned.contains(*t));
                    }
                },
                Option::None => {
                    proof {
                        assert(self@.subrange(0, self@.len() as int) =~= self@);
                        assert(!self@.contains(*t));
                    }
                    return false;
                },
            }
        }
    }
}

/// A cursor over a list's elements, nearest first.
pub struct ListIter<'a, T> {
    cur: &'a Link<T>,
}

impl<'a, T> View for ListIter<'a, T> {
    type V = Seq<T>;

    closed spec fn view(&self) -> Seq<T> {
        link_view(*self.cur)
    }
}

impl<'a, T> ListIter<'a, T> {
    /// Yields the next element, or nothing when the cursor is exhausted.
    pub fn next(&mut self) -> (r: Option<&'a T>)
        ensures
            old(self)@.len() == 0 ==> r is None && final(self)@ == old(self)@,
            old(self)@.len() > 0 ==> (match r {
                Option::Some(v) => *v == old(self)@[0] && final(self)@ == old(self)@.drop_first(),
                Option::None => false,
            }),
    {
        match self.cur {
            Option::None => Option::None,
            Option::Some(nd) => {
                self.cur = &nd.cdr;
                Option::Some(&nd.car)
            },
        }
    }
}

} // verus!
