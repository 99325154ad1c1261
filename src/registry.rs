//! The registry of connected push clients: identifier to outbound channel.
use vstd::prelude::*;

verus! {

/// The map that a list of (identifier, channel) pairs describes.
pub open spec fn to_map<C>(s: Seq<(u64, C)>) -> Map<u64, C>
    decreases s.len(),
{
    if s.len() == 0 {
        Map::empty()
    } else {
        to_map(s.drop_last()).insert(s.last().0, s.last().1)
    }
}

/// No identifier occurs twice.
pub open spec fn distinct_ids<C>(s: Seq<(u64, C)>) -> bool {
    forall|i: int, j: int| 0 <= i < s.len() && 0 <= j < s.len() && i != j ==> #[trigger] s[i].0 != #[trigger] s[j].0
}

/// With distinct identifiers, the map holds exactly the listed pairs.
pub proof fn lemma_to_map<C>(s: Seq<(u64, C)>)
    requires
        distinct_ids(s),
    ensures
        forall|i: int| 0 <= i < s.len() ==> #[trigger] to_map(s).contains_key(s[i].0) && to_map(s)[s[i].0] == s[i].1,
        forall|id: u64| #[trigger] to_map(s).contains_key(id) ==> exists|i: int| 0 <= i < s.len() && (#[trigger] s[i]).0 == id,
    decreases s.len(),
{
    if s.len() > 0 {
        let p = s.drop_last();
        assert(distinct_ids(p)) by {
            assert forall|i: int, j: int| 0 <= i < p.len() && 0 <= j < p.len() && i != j implies #[trigger] p[i].0
                != #[trigger] p[j].0 by {
                assert(p[i] == s[i] && p[j] == s[j]);
            }
        }
        lemma_to_map(p);
        assert forall|i: int| 0 <= i < s.len() implies #[trigger] to_map(s).contains_key(s[i].0) && to_map(s)[s[i].0]
            == s[i].1 by {
            assert(to_map(s) == to_map(p).insert(s.last().0, s.last().1));
            if i < s.len() - 1 {
                assert(p[i] == s[i]);
                assert(to_map(p).contains_key(p[i].0) && to_map(p)[p[i].0] == p[i].1);
                assert(s[i].0 != s[s.len() - 1].0);
            }
        }
        assert forall|id: u64| #[trigger] to_map(s).contains_key(id) implies exists|i: int|
            0 <= i < s.len() && (#[trigger] s[i]).0 == id by {
            if id != s.last().0 {
                assert(to_map(p).contains_key(id));
                let i = choose|i: int| 0 <= i < p.len() && (#[trigger] p[i]).0 == id;
                assert(s[i] == p[i]);
            } else {
                assert(s[s.len() - 1].0 == id);
            }
        }
    }
}

/// Connected clients, each with the channel its frames go out on.
pub struct ClientRegistry<C> {
    entries: Vec<(u64, C)>,
}

impl<C> View for ClientRegistry<C> {
    type V = Map<u64, C>;

    closed spec fn view(&self) -> Map<u64, C> {
        to_map(self.entries@)
    }
}

impl<C> ClientRegistry<C> {
    pub closed spec fn wf(&self) -> bool {
        distinct_ids(self.entries@)
    }

    pub fn new() -> (r: ClientRegistry<C>)
        ensures
            r.wf(),
            r@ == Map::<u64, C>::empty(),
    {
        ClientRegistry { entries: Vec::new() }
    }

    fn position(&self, id: u64) -> (r: Option<usize>)
        requires
            self.wf(),
        ensures
            r.is_some() ==> r.unwrap() < self.entries@.len() && self.entries@[r.unwrap() as int].0 == id,
            r.is_none() ==> forall|i: int| 0 <= i < self.entries@.len() ==> (#[trigger] self.entries@[i]).0 != id,
    {
        let mut i: usize = 0;
        while i < self.entries.len()
            invariant
                i <= self.entries@.len(),
                forall|j: int| 0 <= j < i ==> (#[trigger] self.entries@[j]).0 != id,
            decreases self.entries@.len() - i,
        {
            if self.entries[i].0 == id {
                return Some(i);
            }
            i = i + 1;
        }
        None
    }

    /// Whether a client with this identifier is registered.
    pub fn contains(&self, id: u64) -> (r: bool)
        requires
            self.wf(),
        ensures
            r == self@.contains_key(id),
    {
        proof {
            lemma_to_map(self.entries@);
        }
        self.position(id).is_some()
    }

    /// Registers a client, replacing the channel of one with the same identifier.
    pub fn register(&mut self, id: u64, channel: C)
        requires
            old(self).wf(),
        ensures
            final(self).wf(),
            final(self)@ == old(self)@.insert(id, channel),
    {
        proof {
            lemma_to_map(self.entries@);
        }
        let ghost ch = channel;
        match self.position(id) {
            Some(k) => {
                self.entries.set(k, (id, channel));
                proof {
                    let s = self.entries@;
                    let o = old(self).entries@;
                    assert(distinct_ids(s)) by {
                        assert forall|i: int, j: int| 0 <= i < s.len() && 0 <= j < s.len() && i != j implies #[trigger] s[i].0
                            != #[trigger] s[j].0 by {
                            assert(s[i].0 == o[i].0 && s[j].0 == o[j].0);
                        }
                    }
                    lemma_to_map(s);
                    assert forall|key: u64| #[trigger] to_map(s).contains_key(key) <==> to_map(o).insert(id, ch).contains_key(key) by {
                        if to_map(s).contains_key(key) {
                            let i = choose|i: int| 0 <= i < s.len() && (#[trigger] s[i]).0 == key;
                            assert(o[i].0 == key);
                        }
                        if to_map(o).contains_key(key) {
                            let i = choose|i: int| 0 <= i < o.len() && (#[trigger] o[i]).0 == key;
                            assert(s[i].0 == key);
                        }
                        if key == id {
                            assert(s[k as int].0 == id);
                        }
                    }
                    assert forall|key: u64| #[trigger] to_map(s).contains_key(key) implies to_map(s)[key] == to_map(o).insert(id, ch)[key] by {
                        let i = choose|i: int| 0 <= i < s.len() && (#[trigger] s[i]).0 == key;
                        if i != k {
                            assert(s[i] == o[i]);
                        }
                    }
                    assert(to_map(s) =~= to_map(o).insert(id, ch));
                }
            },
            None => {
                self.entries.push((id, channel));
                proof {
                    let s = self.entries@;
                    let o = old(self).entries@;
                    assert(s.drop_last() =~= o);
                    assert forall|i: int, j: int| 0 <= i < s.len() && 0 <= j < s.len() && i != j implies #[trigger] s[i].0
                        != #[trigger] s[j].0 by {
                        if i < o.len() {
                            assert(s[i] == o[i]);
                        }
                        if j < o.len() {
                            assert(s[j] == o[j]);
                        }
                    }
                }
            },
        }
    }

    /// Removes a client and hands back its channel, if it was registered.
    pub fn unregister(&mut self, id: u64) -> (r: Option<C>)
        requires
            old(self).wf(),
        ensures
            final(self).wf(),
            final(self)@ == old(self)@.remove(id),
            r.is_some() <==> old(self)@.contains_key(id),
            r.is_some() ==> r.unwrap() == old(self)@[id],
    {
        proof {
            lemma_to_map(self.entries@);
        }
        match self.position(id) {
            Some(k) => {
                let (_, channel) = self.entries.remove(k);
                proof {
                    let s = self.entries@;
                    let o = old(self).entries@;
                    assert(to_map(o).contains_key(o[k as int].0));
                    assert forall|i: int| 0 <= i < s.len() implies #[trigger] s[i] == o[if i < k { i } else { i + 1 }] by {}
                    assert(distinct_ids(s)) by {
                        assert forall|i: int, j: int| 0 <= i < s.len() && 0 <= j < s.len() && i != j implies #[trigger] s[i].0
                            != #[trigger] s[j].0 by {
                            assert(s[i] == o[if i < k { i } else { i + 1 }]);
                            assert(s[j] == o[if j < k { j } else { j + 1 }]);
                        }
                    }
                    lemma_to_map(s);
                    assert forall|key: u64| #[trigger] to_map(s).contains_key(key) <==> to_map(o).remove(id).contains_key(key) by {
                        if to_map(s).contains_key(key) {
                            let i = choose|i: int| 0 <= i < s.len() && (#[trigger] s[i]).0 == key;
                            let oi = if i < k { i } else { i + 1 };
                            assert(o[oi] == s[i]);
                            assert(oi != k);
                        }
                        if to_map(o).contains_key(key) && key != id {
                            let i = choose|i: int| 0 <= i < o.len() && (#[trigger] o[i]).0 == key;
                            let si = if i < k { i } else { i - 1 };
                            assert(s[si] == o[i]);
                        }
                    }
                    assert forall|key: u64| #[trigger] to_map(s).contains_key(key) implies to_map(s)[key] == to_map(o).remove(id)[key] by {
                        let i = choose|i: int| 0 <= i < s.len() && (#[trigger] s[i]).0 == key;
                        let oi = if i < k { i } else { i + 1 };
                        assert(o[oi] == s[i]);
                    }
                    assert(to_map(s) =~= to_map(o).remove(id));
                }
                Some(channel)
            },
            None => {
                proof {
                    assert forall|key: u64| #[trigger] to_map(self.entries@).contains_key(key) implies key != id by {
                        let i = choose|i: int| 0 <= i < self.entries@.len() && (#[trigger] self.entries@[i]).0 == key;
                    }
                    assert(self@ =~= old(self)@.remove(id));
                }
                None
            },
        }
    }

    /// The channel of a registered client.
    pub fn channel(&self, id: u64) -> (r: Option<&C>)
        requires
            self.wf(),
        ensures
            r.is_some() <==> self@.contains_key(id),
            r.is_some() ==> *r.unwrap() == self@[id],
    {
        proof {
            lemma_to_map(self.entries@);
        }
        match self.position(id) {
            Some(k) => {
                proof {
                    assert(self@.contains_key(self.entries@[k as int].0));
                }
                Some(&self.entries[k].1)
            },
            None => None,
        }
    }

    /// Snapshot of the registered identifiers: the fan-out targets of one
    /// broadcast, each exactly once.
    pub fn recipients(&self) -> (r: Vec<u64>)
        requires
            self.wf(),
        ensures
            r@.no_duplicates(),
            forall|id: u64| #[trigger] r@.contains(id) <==> self@.contains_key(id),
    {
        proof {
            lemma_to_map(self.entries@);
        }
        let mut out: Vec<u64> = Vec::new();
        let mut i: usize = 0;
        while i < self.entries.len()
            invariant
                self.wf(),
                i <= self.entries@.len(),
                out@.len() == i,
                forall|j: int| 0 <= j < i ==> #[trigger] out@[j] == self.entries@[j].0,
            decreases self.entries@.len() - i,
        {
            out.push(self.entries[i].0);
            i = i + 1;
        }
        proof {
            let s = self.entries@;
            assert forall|a: int, b: int| 0 <= a < out@.len() && 0 <= b < out@.len() && a != b implies out@[a] != out@[b] by {
                assert(s[a].0 != s[b].0);
            }
            assert forall|id: u64| #[trigger] out@.contains(id) <==> self@.contains_key(id) by {
                if self@.contains_key(id) {
                    let i = choose|i: int| 0 <= i < s.len() && (#[trigger] s[i]).0 == id;
                    assert(out@[i] == id);
                }
                if out@.contains(id) {
                    let i = choose|i: int| 0 <= i < out@.len() && out@[i] == id;
                    assert(s[i].0 == id);
                }
            }
        }
        out
    }
}

} // verus!
