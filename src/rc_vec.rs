use std::rc::Rc;

use vstd::prelude::*;

verus! {

/// One appended value, sharing everything before it with the handles it was derived from.
#[derive(Debug)]
struct Link<T> {
    item: T,
    prev: Option<Rc<Link<T>>>,
}

/// The values of a chain of links, oldest first.
spec fn chain_seq<T>(l: Option<Rc<Link<T>>>) -> Seq<T>
    decreases l,
{
    match l {
        None => Seq::empty(),
        Some(rc) => chain_seq(rc.prev).push(rc.item),
    }
}

fn share_chain<T>(l: &Option<Rc<Link<T>>>) -> (r: Option<Rc<Link<T>>>)
    ensures
        r == *l,
{
    match l {
        None => None,
        Some(rc) => Some(Rc::clone(rc)),
    }
}

/// An append-only list whose handles share storage. Deriving a longer list from a handle
/// costs O(1) and leaves every other handle, and what it reads, as it was.
#[derive(Debug)]
pub struct RcVec<T: Copy> {
    count: usize,
    last: Option<Rc<Link<T>>>,
}

impl<T: Copy> View for RcVec<T> {
    type V = Seq<T>;

    closed spec fn view(&self) -> Seq<T> {
        chain_seq(self.last)
    }
}

impl<T: Copy> Clone for RcVec<T> {
    fn clone(&self) -> Self {
        self.share()
    }
}

impl<T: Copy> RcVec<T> {
    #[verifier::type_invariant]
    spec fn counted(self) -> bool {
        self.count == chain_seq(self.last).len()
    }

    /// A list holding the values of `source`, in order.
    pub fn new(source: Vec<T>) -> (r: Self)
        ensures
            r@ == source@,
    {
        let mut last: Option<Rc<Link<T>>> = None;
        let mut i: usize = 0;
        while i < source.len()
            invariant
                i <= source@.len(),
                chain_seq(last) == source@.subrange(0, i as int),
            decreases source@.len() - i,
        {
            last = Some(Rc::new(Link { item: source[i], prev: last }));
            i = i + 1;
            assert(source@.subrange(0, i as int) =~= source@.subrange(0, i - 1).push(
                source@[i - 1],
            ));
        }
        assert(source@.subrange(0, i as int) =~= source@);
        RcVec { count: i, last }
    }

    /// A new handle on this list with `item` appended; this handle is left unchanged.
    pub fn push(&self, item: T) -> (r: RcVec<T>)
        requires
            self@.len() < usize::MAX,
        ensures
            r@ == self@.push(item),
    {
        proof {
            use_type_invariant(self);
        }
        let prev = share_chain(&self.last);
        RcVec { count: self.count + 1, last: Some(Rc::new(Link { item, prev })) }
    }

    /// Another handle on the same list.
    pub fn share(&self) -> (r: RcVec<T>)
        ensures
            r@ == self@,
    {
        proof {
            use_type_invariant(self);
        }
        RcVec { count: self.count, last: share_chain(&self.last) }
    }

    pub fn len(&self) -> (r: usize)
        ensures
            r == self@.len(),
    {
        proof {
            use_type_invariant(self);
        }
        self.count
    }

    /// The values of the list, oldest first.
    pub fn to_vec(&self) -> (r: Vec<T>)
        ensures
            r@ == self@,
    {
        proof {
            use_type_invariant(self);
        }
        // walk the chain from the newest value back
        let mut newest_first: Vec<T> = Vec::new();
        let mut cur = share_chain(&self.last);
        let mut left: usize = self.count;
        while left > 0
            invariant
                chain_seq(cur).len() == left,
                chain_seq(cur) + newest_first@.reverse() == self@,
            decreases left,
        {
            match cur {
                Some(rc) => {
                    newest_first.push(rc.item);
                    let ghost older = newest_first@.drop_last().reverse();
                    assert(newest_first@.reverse() =~= seq![rc.item] + older);
                    assert(chain_seq(Some(rc)) == chain_seq(rc.prev).push(rc.item));
                    assert(chain_seq(rc.prev) + newest_first@.reverse() =~= chain_seq(Some(rc))
                        + older);
                    cur = share_chain(&rc.prev);
                },
                None => {},
            }
            left = left - 1;
        }
        assert(newest_first@.reverse() =~= self@);
        let mut out: Vec<T> = Vec::new();
        let mut i: usize = newest_first.len();
        while i > 0
            invariant
                i <= newest_first@.len(),
                out@ == newest_first@.reverse().subrange(0, newest_first@.len() - i),
            decreases i,
        {
            i = i - 1;
            out.push(newest_first[i]);
            assert(out@ =~= newest_first@.reverse().subrange(0, newest_first@.len() - i));
        }
        assert(out@ =~= newest_first@.reverse());
        out
    }
}

} // verus!
