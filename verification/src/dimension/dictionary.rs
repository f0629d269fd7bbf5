use crate::text::same;
use vstd::prelude::*;

verus! {

/// Numbers for names, handed out in the order in which the names come.
pub struct Dictionary {
    entries: Vec<(String, u32)>,
    next_id: u32,
}

/// The first entry for `name`.
spec fn number_of(entries: Seq<(String, u32)>, name: Seq<char>) -> Option<u32>
    decreases entries.len(),
{
    if entries.len() == 0 {
        None
    } else {
        match number_of(entries.drop_last(), name) {
            Some(id) => Some(id),
            None => if entries.last().0@ == name {
                Some(entries.last().1)
            } else {
                None
            },
        }
    }
}

impl Dictionary {
    /// The number of each known name.
    pub closed spec fn numbers(self) -> Map<Seq<char>, u32> {
        Map::new(
            |name: Seq<char>| number_of(self.entries@, name) is Some,
            |name: Seq<char>| number_of(self.entries@, name)->0,
        )
    }

    /// The number that the next new name gets.
    pub closed spec fn next(self) -> u32 {
        self.next_id
    }

    /// An empty dictionary, which counts from one.
    pub fn new() -> (r: Self)
        ensures
            r.numbers() == Map::<Seq<char>, u32>::empty(),
            r.next() == 1,
    {
        let r = Dictionary { entries: Vec::new(), next_id: 1 };
        assert(r.numbers() =~= Map::<Seq<char>, u32>::empty());
        r
    }

    /// The number of `name`; a new name gets the next one. The counter starts
    /// over at nought when the 32 bits are used up.
    pub fn get_or_create(&mut self, name: &str) -> (id: u32)
        ensures
            old(self).numbers().contains_key(name@) ==> {
                &&& id == old(self).numbers()[name@]
                &&& final(self).numbers() == old(self).numbers()
                &&& final(self).next() == old(self).next()
            },
            !old(self).numbers().contains_key(name@) ==> {
                &&& id == old(self).next()
                &&& final(self).numbers() == old(self).numbers().insert(name@, id)
                &&& final(self).next() == (if id == u32::MAX {
                    0
                } else {
                    id + 1
                })
            },
    {
        let mut i: usize = 0;
        while i < self.entries.len()
            invariant
                i <= self.entries@.len(),
                number_of(self.entries@.take(i as int), name@) is None,
                *self == *old(self),
            decreases self.entries@.len() - i,
        {
            assert(self.entries@.take(i as int + 1).drop_last() =~= self.entries@.take(i as int));
            if same(self.entries[i].0.as_str(), name) {
                proof {
                    first_entry_stays(self.entries@, i as int + 1, name@);
                }
                return self.entries[i].1;
            }
            i += 1;
        }
        assert(self.entries@.take(i as int) =~= self.entries@);
        let id = self.next_id;
        self.entries.push((name.to_string(), id));
        self.next_id = self.next_id.wrapping_add(1);
        proof {
            let was = old(self).entries@;
            assert(self.entries@.drop_last() =~= was);
            assert forall|other: Seq<char>| #[trigger] number_of(self.entries@, other) == (if other
                == name@ {
                Some(id)
            } else {
                number_of(was, other)
            }) by {}
            assert(self.numbers() =~= old(self).numbers().insert(name@, id));
        }
        id
    }
}

proof fn first_entry_stays(entries: Seq<(String, u32)>, n: int, name: Seq<char>)
    requires
        0 <= n <= entries.len(),
        number_of(entries.take(n), name) is Some,
    ensures
        number_of(entries, name) == number_of(entries.take(n), name),
    decreases entries.len() - n,
{
    if n < entries.len() {
        assert(entries.take(n + 1).drop_last() =~= entries.take(n));
        first_entry_stays(entries, n + 1, name);
    } else {
        assert(entries.take(n) =~= entries);
    }
}

} // verus!
