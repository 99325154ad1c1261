//! The cursor table: for each scheduled session, the last line count seen.
use vstd::prelude::*;

verus! {

/// The cursor of one session.
pub struct CursorEntry {
    pub name: String,
    pub count: u64,
}

/// Session name to last observed line count, one entry per scheduled session.
pub struct CursorTable {
    entries: Vec<CursorEntry>,
}

/// No two entries share a name.
pub open spec fn distinct_names(s: Seq<(Seq<char>, u64)>) -> bool {
    forall|i: int, j: int|
        0 <= i < s.len() && 0 <= j < s.len() && i != j ==> #[trigger] s[i].0 != #[trigger] s[j].0
}

impl View for CursorTable {
    type V = Seq<(Seq<char>, u64)>;

    closed spec fn view(&self) -> Seq<(Seq<char>, u64)> {
        self.entries@.map_values(|e: CursorEntry| (e.name@, e.count))
    }
}

impl CursorTable {
    pub open spec fn wf(&self) -> bool {
        distinct_names(self@)
    }

    /// Whether some entry is named `name`.
    pub open spec fn holds(&self, name: Seq<char>) -> bool {
        exists|i: int| 0 <= i < self@.len() && (#[trigger] self@[i]).0 == name
    }

    pub fn new() -> (r: CursorTable)
        ensures
            r@ == Seq::<(Seq<char>, u64)>::empty(),
            r.wf(),
    {
        CursorTable { entries: Vec::new() }
    }

    pub fn len(&self) -> (r: usize)
        ensures
            r == self@.len(),
    {
        self.entries.len()
    }

    pub fn name(&self, i: usize) -> (r: &String)
        requires
            i < self@.len(),
        ensures
            r@ == self@[i as int].0,
    {
        &self.entries[i].name
    }

    pub fn count(&self, i: usize) -> (r: u64)
        requires
            i < self@.len(),
        ensures
            r == self@[i as int].1,
    {
        self.entries[i].count
    }

    /// The stored cursor of `name`, if the session is scheduled.
    pub fn get(&self, name: &String) -> (r: Option<u64>)
        requires
            self.wf(),
        ensures
            r.is_none() <==> !self.holds(name@),
            forall|i: int| 0 <= i < self@.len() && self@[i].0 == name@ ==> r == Some(#[trigger] self@[i].1),
    {
        let mut i: usize = 0;
        while i < self.entries.len()
            invariant
                self.wf(),
                i <= self@.len(),
                forall|j: int| 0 <= j < i ==> (#[trigger] self@[j]).0 != name@,
            decreases self@.len() - i,
        {
            if self.entries[i].name == *name {
                proof {
                    assert(self@[i as int].0 == name@);
                    assert forall|j: int| 0 <= j < self@.len() && self@[j].0 == name@ implies j == i by {
                        if j != i {
                            assert(self@[j].0 != self@[i as int].0);
                        }
                    }
                }
                return Some(self.entries[i].count);
            }
            proof {
                assert(self@[i as int].0 != name@);
            }
            i = i + 1;
        }
        None
    }

    /// Appends the baseline of a session not in the table yet.
    pub fn push(&mut self, name: String, count: u64)
        requires
            old(self).wf(),
            !old(self).holds(name@),
        ensures
            final(self)@ == old(self)@.push((name@, count)),
            final(self).wf(),
    {
        let ghost n = name@;
        self.entries.push(CursorEntry { name, count });
        proof {
            assert(self@ =~= old(self)@.push((n, count)));
            assert forall|i: int, j: int|
                0 <= i < self@.len() && 0 <= j < self@.len() && i != j implies #[trigger] self@[i].0
                != #[trigger] self@[j].0 by {
                if i == old(self)@.len() {
                    assert(old(self)@[j].0 == self@[j].0);
                } else if j == old(self)@.len() {
                    assert(old(self)@[i].0 == self@[i].0);
                }
            }
        }
    }

    /// Moves the cursor at `i` forward to `count`; it never moves back.
    pub fn advance(&mut self, i: usize, count: u64)
        requires
            i < old(self)@.len(),
            old(self).wf(),
        ensures
            final(self)@ == old(self)@.update(
                i as int,
                (old(self)@[i as int].0, if count > old(self)@[i as int].1 { count } else { old(self)@[i as int].1 }),
            ),
            final(self).wf(),
    {
        if count > self.entries[i].count {
            let name = self.entries[i].name.clone();
            self.entries.set(i, CursorEntry { name, count });
        }
        proof {
            assert(self@ =~= old(self)@.update(
                i as int,
                (old(self)@[i as int].0, if count > old(self)@[i as int].1 { count } else { old(self)@[i as int].1 }),
            ));
            assert forall|a: int, b: int|
                0 <= a < self@.len() && 0 <= b < self@.len() && a != b implies #[trigger] self@[a].0
                != #[trigger] self@[b].0 by {
                assert(self@[a].0 == old(self)@[a].0);
                assert(self@[b].0 == old(self)@[b].0);
            }
        }
    }
}

} // verus!
