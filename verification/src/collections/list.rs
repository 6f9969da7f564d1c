use vstd::prelude::*;

verus! {

/// Relies on Rc::deref: a shared handle reads back the value it was
/// built over.
#[verifier::external_body]
fn rc_deref<T>(v: &std::rc::Rc<T>) -> (r: &T)
    ensures
        *r == *v,
{
    &**v
}

/// Relies on Rc::clone: a cloned handle shares the same value.
#[verifier::external_body]
fn rc_clone<T>(v: &std::rc::Rc<T>) -> (r: std::rc::Rc<T>)
    ensures
        r == *v,
{
    std::rc::Rc::clone(v)
}

/// One cell of the list: a value and the rest.
struct Node<T> {
    value: T,
    tail: List<T>,
}

/// A persistent singly linked list: pushing to the front shares the whole
/// tail with the list it grew from.
pub struct List<T>(Option<std::rc::Rc<Node<T>>>);

impl<T> List<T> {
    /// The values, front first.
    pub closed spec fn view(self) -> Seq<T>
        decreases self,
    {
        match self.0 {
            None => Seq::empty(),
            Some(rc) => seq![(*rc).value] + (*rc).tail.view(),
        }
    }

    /// The list with nothing in it.
    pub fn empty() -> (r: List<T>)
        ensures
            r.view() == Seq::<T>::empty(),
    {
        List(None)
    }

    /// Whether the list holds nothing.
    pub fn is_empty(&self) -> (r: bool)
        ensures
            r == (self.view().len() == 0),
    {
        self.0.is_none()
    }

    /// The front value, while there is one.
    pub fn head(&self) -> (r: Option<&T>)
        ensures
            match r {
                Some(v) => self.view().len() > 0 && *v == self.view()[0],
                None => self.view().len() == 0,
            },
    {
        match &self.0 {
            None => None,
            Some(rc) => Some(&rc_deref(rc).value),
        }
    }

    /// Everything after the front value, while there is one.
    pub fn tail(&self) -> (r: Option<&List<T>>)
        ensures
            match r {
                Some(l) => self.view().len() > 0 && l.view() == self.view().skip(1),
                None => self.view().len() == 0,
            },
    {
        match &self.0 {
            None => None,
            Some(rc) => {
                let node = rc_deref(rc);
                proof {
                    assert(node.tail.view() =~= self.view().skip(1));
                }
                Some(&node.tail)
            },
        }
    }

    /// The list with `item` put in front; the old list lives on as the
    /// shared tail.
    pub fn put(self, item: T) -> (r: List<T>)
        ensures
            r.view() == seq![item] + self.view(),
    {
        List(Some(std::rc::Rc::new(Node { value: item, tail: self })))
    }

    /// Another handle to the same list.
    pub fn share(&self) -> (r: List<T>)
        ensures
            r.view() == self.view(),
    {
        match &self.0 {
            None => List(None),
            Some(rc) => List(Some(rc_clone(rc))),
        }
    }

    /// The value at `index`, while the list is that long.
    pub fn get(&self, index: usize) -> (r: Option<&T>)
        ensures
            match r {
                Some(v) => index < self.view().len() && *v == self.view()[index as int],
                None => index >= self.view().len(),
            },
    {
        let mut cur: &List<T> = self;
        let mut i: usize = index;
        loop
            invariant
                i <= index,
                index - i <= self.view().len(),
                cur.view() == self.view().skip(index - i),
            decreases i,
        {
            match &cur.0 {
                None => {
                    proof {
                        if index < self.view().len() {
                            assert(self.view().skip(index - i).len() > 0);
                        }
                    }
                    return None;
                },
                Some(rc) => {
                    let node = rc_deref(rc);
                    proof {
                        broadcast use vstd::seq_lib::group_seq_properties;

                        assert(cur.view() == seq![node.value] + node.tail.view());
                        assert(cur.view().len() > 0);
                        assert(index - i < self.view().len());
                    }
                    if i == 0 {
                        proof {
                            assert(cur.view()[0] == node.value);
                            assert(self.view().skip(index as int)[0] == self.view()[index as int]);
                        }
                        return Some(&node.value);
                    }
                    proof {
                        broadcast use vstd::seq_lib::group_seq_properties;

                        assert(node.tail.view() =~= cur.view().skip(1));
                        assert(self.view().skip(index - i).skip(1) =~= self.view().skip(
                            index - (i - 1),
                        ));
                    }
                    cur = &node.tail;
                    i = i - 1;
                },
            }
        }
    }

    /// A cursor over the values, front first.
    pub fn iter<'i>(&'i self) -> (r: Iter<'i, T>)
        ensures
            r.remaining() == self.view(),
    {
        Iter { rest: self }
    }
}

/// A borrowing cursor over a list's values.
pub struct Iter<'i, T> {
    rest: &'i List<T>,
}

impl<'i, T> Iter<'i, T> {
    /// The values still to be yielded.
    pub closed spec fn remaining(self) -> Seq<T> {
        self.rest.view()
    }

    /// The next value, front first.
    pub fn next(&mut self) -> (r: Option<&'i T>)
        ensures
            old(self).remaining().len() == 0 ==> r is None && final(self).remaining()
                == old(self).remaining(),
            old(self).remaining().len() > 0 ==> final(self).remaining() == old(
                self,
            ).remaining().skip(1) && (r matches Some(v) ==> *v == old(self).remaining()[0])
                && r is Some,
    {
        match &self.rest.0 {
            None => None,
            Some(rc) => {
                let node = rc_deref(rc);
                proof {
                    assert(node.tail.view() =~= old(self).remaining().skip(1));
                }
                self.rest = &node.tail;
                Some(&node.value)
            },
        }
    }
}

} // verus!
