//! The services found behind the peers that connected: the latest answer
//! of each peer.

use vstd::prelude::*;
use crate::state::Endpoint;

verus! {

/// The answer recorded for each peer in a list of (peer, answer) pairs whose
/// peers are distinct.
pub open spec fn answer_map(entries: Seq<(Endpoint, String)>) -> Map<Endpoint, Seq<char>> {
    Map::new(
        |k: Endpoint| exists|i: int| 0 <= i < entries.len() && entries[i].0 == k,
        |k: Endpoint| entries[choose|i: int| 0 <= i < entries.len() && entries[i].0 == k].1@,
    )
}

/// No peer occurs twice.
pub open spec fn distinct_peers(entries: Seq<(Endpoint, String)>) -> bool {
    forall|i: int, j: int|
        0 <= i < entries.len() && 0 <= j < entries.len() && i != j ==> entries[i].0
            != entries[j].0
}

/// The peers of a list of answers form a finite set.
proof fn lemma_peers_finite(entries: Seq<(Endpoint, String)>)
    ensures
        answer_map(entries).dom().finite(),
{
    let peers = entries.map_values(|e: (Endpoint, String)| e.0);
    vstd::seq_lib::seq_to_set_is_finite(peers);
    assert(answer_map(entries).dom() =~= peers.to_set()) by {
        assert forall|k: Endpoint| answer_map(entries).dom().contains(k) implies peers.contains(
            k,
        ) by {
            let i = choose|i: int| 0 <= i < entries.len() && entries[i].0 == k;
            assert(peers[i] == k);
        }
        assert forall|k: Endpoint| peers.contains(k) implies answer_map(entries).dom().contains(
            k,
        ) by {
            let i = choose|i: int| 0 <= i < peers.len() && peers[i] == k;
            assert(entries[i].0 == k);
        }
    }
}

/// The services found so far.
pub struct Discoveries {
    entries: Vec<(Endpoint, String)>,
}

impl Discoveries {
    /// The latest answer of each peer.
    pub closed spec fn answers(&self) -> Map<Endpoint, Seq<char>> {
        answer_map(self.entries@)
    }

    #[verifier::type_invariant]
    closed spec fn wf(&self) -> bool {
        distinct_peers(self.entries@)
    }

    /// No service found yet.
    pub fn new() -> (r: Self)
        ensures
            r.answers() == Map::<Endpoint, Seq<char>>::empty(),
            r.answers().dom().finite(),
    {
        let r = Discoveries { entries: Vec::new() };
        assert(r.answers() =~= Map::<Endpoint, Seq<char>>::empty());
        r
    }

    /// The position of `addr` in the list, or the list's length.
    fn find(&self, addr: Endpoint) -> (i: usize)
        ensures
            i <= self.entries@.len(),
            i < self.entries@.len() ==> self.entries@[i as int].0 == addr,
            i == self.entries@.len() ==> !self.answers().dom().contains(addr),
    {
        let mut i: usize = 0;
        while i < self.entries.len() && self.entries[i].0 != addr
            invariant
                i <= self.entries@.len(),
                forall|k: int| 0 <= k < i ==> self.entries@[k].0 != addr,
            decreases self.entries.len() - i,
        {
            i = i + 1;
        }
        i
    }

    /// Records `content` as the answer of the service at `addr`, replacing
    /// any answer recorded for it before.
    pub fn record_service(&mut self, addr: Endpoint, content: &str)
        ensures
            final(self).answers() == old(self).answers().insert(addr, content@),
            final(self).answers().dom().finite(),
            final(self).answers().len() == old(self).answers().len() + (if old(
                self,
            ).answers().dom().contains(addr) {
                0int
            } else {
                1int
            }),
    {
        proof {
            use_type_invariant(&*self);
        }
        let ghost old_entries = self.entries@;
        let ghost cv = content@;
        let i = self.find(addr);
        let mut entries: Vec<(Endpoint, String)> = Vec::new();
        std::mem::swap(&mut entries, &mut self.entries);
        if i < entries.len() {
            entries.set(i, (addr, String::from_str(content)));
        } else {
            entries.push((addr, String::from_str(content)));
        }
        let ghost new_entries = entries@;
        assert(new_entries[i as int].0 == addr);
        assert(distinct_peers(new_entries));
        assert forall|k: Endpoint| #[trigger] answer_map(new_entries).dom().contains(k)
            == answer_map(old_entries).insert(addr, cv).dom().contains(k) by {
            if k != addr {
                if answer_map(old_entries).dom().contains(k) {
                    let j = choose|j: int| 0 <= j < old_entries.len() && old_entries[j].0 == k;
                    assert(new_entries[j].0 == k);
                }
            }
        }
        assert forall|k: Endpoint| #[trigger] answer_map(new_entries).dom().contains(k) implies answer_map(
            new_entries,
        )[k] == answer_map(old_entries).insert(addr, cv)[k] by {
            let j = choose|j: int| 0 <= j < new_entries.len() && new_entries[j].0 == k;
            if k == addr {
                assert(j == i);
            } else {
                let j2 = choose|j: int| 0 <= j < old_entries.len() && old_entries[j].0 == k;
                assert(new_entries[j2].0 == k);
                assert(j == j2);
            }
        }
        assert(answer_map(new_entries) =~= answer_map(old_entries).insert(addr, cv));
        proof {
            lemma_peers_finite(old_entries);
            lemma_peers_finite(new_entries);
            vstd::set::axiom_set_insert_len(answer_map(old_entries).dom(), addr);
            assert(answer_map(new_entries).dom() =~= answer_map(old_entries).dom().insert(addr));
        }
        self.entries = entries;
    }

    /// The latest answer of the service at `addr`, if one was recorded.
    pub fn service(&self, addr: Endpoint) -> (r: Option<&String>)
        ensures
            match r {
                Some(v) => self.answers().dom().contains(addr) && self.answers()[addr] == v@,
                None => !self.answers().dom().contains(addr),
            },
    {
        proof {
            use_type_invariant(self);
        }
        let i = self.find(addr);
        if i < self.entries.len() {
            proof {
                let e = self.entries@;
                let j = choose|j: int| 0 <= j < e.len() && e[j].0 == addr;
                assert(j == i);
            }
            Some(&self.entries[i].1)
        } else {
            None
        }
    }
}

} // verus!
