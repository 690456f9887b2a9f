//! The application fields of a message.

use vstd::prelude::*;

use crate::bytes::copy_slice;

verus! {

/// Field data keyed by field number.
#[derive(Debug)]
pub struct FieldMap {
    slots: Vec<Option<Vec<u8>>>,
}

impl FieldMap {
    /// Whether the field is present.
    pub closed spec fn present(&self, id: u8) -> bool {
        id < self.slots@.len() && self.slots@[id as int] is Some
    }

    /// The data of a field that is present.
    pub closed spec fn data(&self, id: u8) -> Seq<u8> {
        self.slots@[id as int]->0@
    }
}

impl View for FieldMap {
    type V = Map<u8, Seq<u8>>;

    open spec fn view(&self) -> Map<u8, Seq<u8>> {
        Map::new(|id: u8| self.present(id), |id: u8| self.data(id))
    }
}

impl FieldMap {
    /// No fields.
    pub fn new() -> (m: Self)
        ensures
            m@ == Map::<u8, Seq<u8>>::empty(),
    {
        let m = FieldMap { slots: Vec::new() };
        assert(m@ =~= Map::<u8, Seq<u8>>::empty());
        m
    }

    /// The data of a field.
    pub fn get(&self, id: &u8) -> (r: Option<&Vec<u8>>)
        ensures
            r is Some <==> self@.contains_key(*id),
            r matches Some(d) ==> d@ == self@[*id],
    {
        if (*id as usize) < self.slots.len() {
            match &self.slots[*id as usize] {
                Some(d) => Some(d),
                None => None,
            }
        } else {
            None
        }
    }

    /// Whether a field is present.
    pub fn contains_key(&self, id: &u8) -> (b: bool)
        ensures
            b == self@.contains_key(*id),
    {
        self.get(id).is_some()
    }

    /// Sets a field, in the place of what it held before.
    pub fn insert(&mut self, id: u8, data: Vec<u8>)
        ensures
            final(self)@ == old(self)@.insert(id, data@),
    {
        let ghost before = self@;
        while self.slots.len() <= id as usize
            invariant
                self@ == before,
            decreases id + 1 - self.slots@.len(),
        {
            let ghost was = *self;
            self.slots.push(None);
            assert forall|k: u8| self.present(k) == was.present(k) && (was.present(k) ==> self.data(k)
                == was.data(k)) by {}
            assert(self@ =~= before);
        }
        let ghost was = *self;
        self.slots.set(id as usize, Some(data));
        assert(self@ =~= before.insert(id, data@)) by {
            assert forall|k: u8| k != id implies self.present(k) == was.present(k) && (was.present(k)
                ==> self.data(k) == was.data(k)) by {}
        }
    }

    /// An owned copy.
    pub fn copy(&self) -> (m: Self)
        ensures
            m@ == self@,
    {
        let mut slots: Vec<Option<Vec<u8>>> = Vec::new();
        let mut i: usize = 0;
        while i < self.slots.len()
            invariant
                i <= self.slots@.len(),
                slots@.len() == i,
                forall|j: int|
                    0 <= j < i ==> ((#[trigger] slots@[j]) is Some <==> self.slots@[j] is Some) && (
                    slots@[j] is Some ==> slots@[j]->0@ == self.slots@[j]->0@),
            decreases self.slots@.len() - i,
        {
            let slot = match &self.slots[i] {
                Some(d) => Some(copy_slice(d.as_slice())),
                None => None,
            };
            slots.push(slot);
            i = i + 1;
        }
        let m = FieldMap { slots };
        assert forall|k: u8| self.present(k) == m.present(k) && (self.present(k) ==> self.data(k)
            == m.data(k)) by {}
        assert(m@ =~= self@);
        m
    }

    /// The number of fields.
    pub fn len(&self) -> (n: usize)
        ensures
            n == field_list(self@, 256).len(),
    {
        let mut n: usize = 0;
        let mut i: usize = 0;
        while i < 256
            invariant
                i <= 256,
                n <= i,
                n == field_list(self@, i as nat).len(),
            decreases 256 - i,
        {
            if self.contains_key(&(i as u8)) {
                n = n + 1;
            }
            i = i + 1;
        }
        n
    }

    /// Whether there is no field.
    pub fn is_empty(&self) -> (b: bool)
        ensures
            b == (field_list(self@, 256).len() == 0),
    {
        self.len() == 0
    }
}

/// The fields with a number below `n`, by increasing number.
pub open spec fn field_list(m: Map<u8, Seq<u8>>, n: nat) -> Seq<(u8, Seq<u8>)>
    decreases n,
{
    if n == 0 {
        Seq::empty()
    } else {
        let before = field_list(m, (n - 1) as nat);
        let id = (n - 1) as u8;
        if m.contains_key(id) {
            before.push((id, m[id]))
        } else {
            before
        }
    }
}

/// A set of field numbers.
#[derive(Debug)]
pub struct FieldIds {
    marks: Vec<bool>,
}

impl FieldIds {
    /// Whether the set holds a number.
    pub closed spec fn marked(&self, id: u8) -> bool {
        id < self.marks@.len() && self.marks@[id as int]
    }
}

impl View for FieldIds {
    type V = Set<u8>;

    open spec fn view(&self) -> Set<u8> {
        Set::new(|id: u8| self.marked(id))
    }
}

impl FieldIds {
    /// The empty set.
    pub fn new() -> (s: Self)
        ensures
            s@ == Set::<u8>::empty(),
    {
        let s = FieldIds { marks: Vec::new() };
        assert(s@ =~= Set::<u8>::empty());
        s
    }

    /// Whether the set holds a number.
    pub fn contains(&self, id: &u8) -> (b: bool)
        ensures
            b == self@.contains(*id),
    {
        (*id as usize) < self.marks.len() && self.marks[*id as usize]
    }

    /// Adds a number.
    pub fn insert(&mut self, id: u8)
        ensures
            final(self)@ == old(self)@.insert(id),
    {
        let ghost before = self@;
        while self.marks.len() <= id as usize
            invariant
                self@ == before,
            decreases id + 1 - self.marks@.len(),
        {
            let ghost was = *self;
            self.marks.push(false);
            assert forall|k: u8| self.marked(k) == was.marked(k) by {}
            assert(self@ =~= before);
        }
        let ghost was = *self;
        self.marks.set(id as usize, true);
        assert(self@ =~= before.insert(id)) by {
            assert forall|k: u8| k != id implies self.marked(k) == was.marked(k) by {}
        }
    }

    /// Takes a number out.
    pub fn remove(&mut self, id: &u8)
        ensures
            final(self)@ == old(self)@.remove(*id),
    {
        let ghost was = *self;
        if (*id as usize) < self.marks.len() {
            self.marks.set(*id as usize, false);
        }
        assert(self@ =~= was@.remove(*id)) by {
            assert forall|k: u8| k != *id implies self.marked(k) == was.marked(k) by {}
        }
    }

    /// An owned copy.
    pub fn copy(&self) -> (s: Self)
        ensures
            s@ == self@,
    {
        let mut marks: Vec<bool> = Vec::new();
        let mut i: usize = 0;
        while i < self.marks.len()
            invariant
                i <= self.marks@.len(),
                marks@ == self.marks@.take(i as int),
            decreases self.marks@.len() - i,
        {
            marks.push(self.marks[i]);
            i = i + 1;
            assert(marks@ =~= self.marks@.take(i as int));
        }
        let s = FieldIds { marks };
        assert(s@ =~= self@);
        s
    }
}

/// Every field is listed once, under its number and by increasing number, and nothing else is.
pub proof fn fields_are_listed_once(m: Map<u8, Seq<u8>>, n: nat)
    requires
        n <= 256,
    ensures
        ({
            let s = field_list(m, n);
            &&& forall|i: int|
                0 <= i < s.len() ==> (#[trigger] s[i]).0 < n && m.contains_key(s[i].0)
                    && m[s[i].0] == s[i].1
            &&& forall|i: int, j: int|
                0 <= i < j < s.len() ==> (#[trigger] s[i]).0 < (#[trigger] s[j]).0
            &&& forall|id: u8|
                id < n && #[trigger] m.contains_key(id) ==> exists|i: int|
                    0 <= i < s.len() && (#[trigger] s[i]).0 == id
        }),
    decreases n,
{
    if n > 0 {
        let before = field_list(m, (n - 1) as nat);
        let s = field_list(m, n);
        fields_are_listed_once(m, (n - 1) as nat);
        let last = (n - 1) as u8;
        assert forall|id: u8| id < n && #[trigger] m.contains_key(id) implies exists|i: int|
            0 <= i < s.len() && (#[trigger] s[i]).0 == id by {
            if id == last {
                assert(s[before.len() as int].0 == id);
            } else {
                let i = choose|i: int| 0 <= i < before.len() && (#[trigger] before[i]).0 == id;
                assert(s[i] == before[i]);
            }
        }
    }
}

} // verus!
