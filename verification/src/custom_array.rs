//! A fixed-capacity array of bytes, filled by walking down a family tree.

use std::rc::Rc;
use vstd::prelude::*;
use vstd::slice::slice_subrange;
use vstd::string::StringExecFns;

verus! {

/// The number of bytes that a `FixedSizeArray` can hold.
pub const CAPACITY: usize = 10;

/// Up to ten bytes, in the order in which they were pushed.
#[derive(Debug)]
pub struct FixedSizeArray {
    data: [u8; 10],
    current: usize,
}

impl View for FixedSizeArray {
    type V = Seq<u8>;

    closed spec fn view(&self) -> Seq<u8> {
        self.data@.take(self.current as int)
    }
}

impl FixedSizeArray {
    /// No more is counted than the array can hold.
    pub closed spec fn wf(&self) -> bool {
        self.current <= CAPACITY
    }

    /// An array that holds nothing.
    pub fn new() -> (array: Self)
        ensures
            array.wf(),
            array@ == Seq::<u8>::empty(),
    {
        let array = FixedSizeArray { data: [0;10], current: 0 };
        assert(array@ =~= Seq::<u8>::empty());
        array
    }

    /// Appends `value`. There must be room for it.
    pub fn push(&mut self, value: u8)
        requires
            old(self).wf(),
            old(self)@.len() < CAPACITY,
        ensures
            final(self).wf(),
            final(self)@ == old(self)@.push(value),
    {
        self.data[self.current] = value;
        self.current += 1;
        assert(self@ =~= old(self)@.push(value));
    }

    /// How many bytes the array holds.
    pub fn len(&self) -> (n: usize)
        requires
            self.wf(),
        ensures
            n == self@.len(),
    {
        self.current
    }

    /// Whether the array is full.
    pub fn is_full(&self) -> (full: bool)
        requires
            self.wf(),
        ensures
            full == (self@.len() >= CAPACITY),
    {
        self.current >= CAPACITY
    }

    /// The bytes pushed so far.
    pub fn as_slice(&self) -> (bytes: &[u8])
        requires
            self.wf(),
        ensures
            bytes@ == self@,
    {
        let bytes = slice_subrange(self.data.as_slice(), 0, self.current);
        assert(bytes@ =~= self@);
        bytes
    }
}

/// Somebody with a name, an age and, perhaps, an oldest child.
pub struct Person {
    pub name: String,
    pub age: u8,
    pub oldest_child: Option<Rc<Person>>,
}

/// The ages down the line of oldest children, the person's own first.
pub open spec fn ages_of(p: Person) -> Seq<u8>
    decreases p,
{
    match p.oldest_child {
        Some(child) => seq![p.age] + ages_of(*child),
        None => seq![p.age],
    }
}

impl Person {
    /// A person, shared with whoever holds them as a child.
    pub fn new(name: &str, age: u8, oldest_child: Option<Rc<Person>>) -> (person: Rc<Person>)
        ensures
            person.name@ == name@,
            person.age == age,
            person.oldest_child == oldest_child,
    {
        Rc::new(Person { name: String::from_str(name), age, oldest_child })
    }

    /// Appends the ages down the line of oldest children, the person's own
    /// first. There must be room for all of them.
    pub fn collect_ages(&self, ages: &mut FixedSizeArray)
        requires
            old(ages).wf(),
            old(ages)@.len() + ages_of(*self).len() <= CAPACITY,
        ensures
            final(ages).wf(),
            final(ages)@ == old(ages)@ + ages_of(*self),
        decreases *self,
    {
        ages.push(self.age);
        match &self.oldest_child {
            Some(child) => {
                child.collect_ages(ages);
                assert(ages@ =~= old(ages)@ + ages_of(*self));
            },
            None => {
                assert(ages@ =~= old(ages)@ + ages_of(*self));
            },
        }
    }
}

/// The first byte, or 255 where there is none.
pub fn rsf(xs: &[u8]) -> (first: u8)
    ensures
        first == (if xs@.len() > 0 {
            xs@[0]
        } else {
            255u8
        }),
{
    if xs.len() > 0 {
        xs[0]
    } else {
        255
    }
}

} // verus!
