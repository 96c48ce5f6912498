use vstd::prelude::*;

verus! {

/// What listeners are told: the ledger changed, or they have just been connected.
#[derive(Debug, Clone, Copy, PartialEq, Eq, Structural)]
pub enum BroadcastEvent {
    Reload,
    Connected,
}

/// The JSON payload of an event: an object whose `type` is the event's name.
pub open spec fn event_json(e: BroadcastEvent) -> Seq<char> {
    match e {
        BroadcastEvent::Reload => seq!['{', '"', 't', 'y', 'p', 'e', '"', ':', '"', 'R', 'e', 'l', 'o', 'a', 'd', '"', '}'],
        BroadcastEvent::Connected => seq![
            '{', '"', 't', 'y', 'p', 'e', '"', ':', '"', 'C', 'o', 'n', 'n', 'e', 'c', 't', 'e', 'd', '"', '}',
        ],
    }
}

impl BroadcastEvent {
    /// The event as the data of a server-sent event.
    pub fn to_data(&self) -> (r: String)
        ensures
            r@ == event_json(*self),
    {
        proof {
            reveal_strlit("{\"type\":\"Reload\"}");
            reveal_strlit("{\"type\":\"Connected\"}");
        }
        match self {
            BroadcastEvent::Reload => {
                let s = String::from_str("{\"type\":\"Reload\"}");
                assert(s@ =~= event_json(*self));
                s
            },
            BroadcastEvent::Connected => {
                let s = String::from_str("{\"type\":\"Connected\"}");
                assert(s@ =~= event_json(*self));
                s
            },
        }
    }
}

/// The listeners of `s` that are not among `failed`, in their order.
pub open spec fn kept(s: Seq<u64>, failed: Seq<u64>) -> Seq<u64>
    decreases s.len(),
{
    if s.len() == 0 {
        Seq::empty()
    } else if failed.contains(s.last()) {
        kept(s.drop_last(), failed)
    } else {
        kept(s.drop_last(), failed).push(s.last())
    }
}

/// The registry of live listeners, each known by an id that is never handed out twice.
#[derive(Debug)]
pub struct Broadcaster {
    clients: Vec<u64>,
    next_id: u64,
}

impl Broadcaster {
    pub closed spec fn clients_view(&self) -> Seq<u64> {
        self.clients@
    }

    pub closed spec fn next_id_view(&self) -> u64 {
        self.next_id
    }

    /// Every listener has an id below the next one to be handed out, and none is listed twice.
    pub closed spec fn wf(&self) -> bool {
        &&& self.clients@.no_duplicates()
        &&& forall|i: int| 0 <= i < self.clients@.len() ==> #[trigger] self.clients@[i] < self.next_id
    }

    /// An empty registry.
    pub fn create() -> (r: Broadcaster)
        ensures
            r.wf(),
            r.clients_view().len() == 0,
            r.next_id_view() == 0,
    {
        Broadcaster { clients: Vec::new(), next_id: 0 }
    }

    /// Whether another listener can still be given an id.
    pub fn has_free_id(&self) -> (r: bool)
        ensures
            r == (self.next_id_view() < u64::MAX),
    {
        self.next_id < u64::MAX
    }

    /// Registers a new listener: returns its id and the event to deliver to it first, which is
    /// `Connected`. The id is new, so no broadcast taken before this call reaches the listener.
    pub fn new_client(&mut self) -> (r: (u64, BroadcastEvent))
        requires
            old(self).wf(),
            old(self).next_id_view() < u64::MAX,
        ensures
            final(self).wf(),
            r.1 == BroadcastEvent::Connected,
            !old(self).clients_view().contains(r.0),
            final(self).clients_view() == old(self).clients_view().push(r.0),
            final(self).next_id_view() == old(self).next_id_view() + 1,
    {
        let id = self.next_id;
        self.next_id = self.next_id + 1;
        self.clients.push(id);
        assert(!old(self).clients@.contains(id));
        (id, BroadcastEvent::Connected)
    }

    /// The listeners an event is sent to: all registered ones, in order of registration.
    pub fn broadcast(&self, msg: BroadcastEvent) -> (r: Vec<u64>)
        ensures
            r@ == self.clients_view(),
    {
        let mut out: Vec<u64> = Vec::new();
        let mut i: usize = 0;
        while i < self.clients.len()
            invariant
                i <= self.clients@.len(),
                out@ == self.clients@.subrange(0, i as int),
            decreases self.clients@.len() - i,
        {
            out.push(self.clients[i]);
            i = i + 1;
            assert(out@ =~= self.clients@.subrange(0, i as int));
        }
        assert(self.clients@.subrange(0, i as int) =~= self.clients@);
        out
    }

    /// Drops the listeners that did not accept a ping; all others stay, in their order.
    pub fn remove_stale_clients(&mut self, failed: &Vec<u64>)
        requires
            old(self).wf(),
        ensures
            final(self).wf(),
            final(self).clients_view() == kept(old(self).clients_view(), failed@),
            final(self).next_id_view() == old(self).next_id_view(),
    {
        let mut ok_clients: Vec<u64> = Vec::new();
        let mut i: usize = 0;
        while i < self.clients.len()
            invariant
                i <= self.clients@.len(),
                self.wf(),
                ok_clients@ == kept(self.clients@.subrange(0, i as int), failed@),
                forall|x: u64| ok_clients@.contains(x) ==> self.clients@.subrange(0, i as int).contains(x),
                ok_clients@.no_duplicates(),
            decreases self.clients@.len() - i,
        {
            let c = self.clients[i];
            let mut dead = false;
            let mut j: usize = 0;
            while j < failed.len()
                invariant
                    j <= failed@.len(),
                    dead == failed@.subrange(0, j as int).contains(c),
                decreases failed@.len() - j,
            {
                if failed[j] == c {
                    dead = true;
                }
                j = j + 1;
                assert(failed@.subrange(0, j as int).drop_last() =~= failed@.subrange(0, j - 1));
                assert(failed@.subrange(0, j as int).last() == failed@[j - 1]);
            }
            assert(failed@.subrange(0, j as int) =~= failed@);
            assert(self.clients@.subrange(0, i + 1).drop_last() =~= self.clients@.subrange(0, i as int));
            let ghost prev = ok_clients@;
            let ghost before = self.clients@.subrange(0, i as int);
            let ghost after = self.clients@.subrange(0, i + 1);
            assert(after =~= before.push(c));
            if !dead {
                assert(!before.contains(c)) by {
                    if before.contains(c) {
                        let k = choose|k: int| 0 <= k < i && before[k] == c;
                        assert(self.clients@[k] == self.clients@[i as int]);
                    }
                }
                assert(!prev.contains(c));
                ok_clients.push(c);
                assert(ok_clients@ == prev.push(c));
            }
            assert forall|x: u64| ok_clients@.contains(x) implies after.contains(x) by {
                if x == c {
                    assert(after[i as int] == x);
                } else {
                    let k = choose|k: int| 0 <= k < ok_clients@.len() && ok_clients@[k] == x;
                    assert(prev[k] == x);
                    assert(prev.contains(x));
                    assert(before.contains(x));
                    let m = choose|m: int| 0 <= m < i && before[m] == x;
                    assert(after[m] == x);
                }
            }
            i = i + 1;
        }
        assert(self.clients@.subrange(0, i as int) =~= self.clients@);
        let ghost old_clients = self.clients@;
        self.clients = ok_clients;
        assert forall|k: int| 0 <= k < self.clients@.len() implies #[trigger] self.clients@[k] < self.next_id by {
            assert(self.clients@.contains(self.clients@[k]));
            assert(old_clients.contains(self.clients@[k]));
        }
    }
}

/// A listener registered after a broadcast took its list of targets is not among them: ids at or
/// above the next one to be handed out are in no list the registry gives, so a new listener gets
/// `Connected` before any `Reload`.
pub proof fn lemma_fresh_id_in_no_snapshot(b: Broadcaster, id: u64)
    requires
        b.wf(),
        id >= b.next_id_view(),
    ensures
        !b.clients_view().contains(id),
{
    if b.clients_view().contains(id) {
        let k = choose|k: int| 0 <= k < b.clients@.len() && b.clients@[k] == id;
        assert(b.clients@[k] < b.next_id);
    }
}

/// A listener that failed its ping is gone after the sweep, and one that accepted it is still
/// registered.
pub proof fn lemma_sweep_keeps_exactly_the_live(s: Seq<u64>, failed: Seq<u64>, x: u64)
    ensures
        kept(s, failed).contains(x) <==> (s.contains(x) && !failed.contains(x)),
    decreases s.len(),
{
    if s.len() > 0 {
        lemma_sweep_keeps_exactly_the_live(s.drop_last(), failed, x);
        if s.drop_last().contains(x) {
            let k = choose|k: int| 0 <= k < s.drop_last().len() && s.drop_last()[k] == x;
            assert(s[k] == x);
        }
        if s.contains(x) && x != s.last() {
            let k = choose|k: int| 0 <= k < s.len() && s[k] == x;
            assert(s.drop_last()[k] == x);
        }
        if !failed.contains(s.last()) {
            let p = kept(s.drop_last(), failed);
            if p.push(s.last()).contains(x) && x != s.last() {
                let k = choose|k: int| 0 <= k < p.len() + 1 && p.push(s.last())[k] == x;
                assert(p[k] == x);
            }
            if p.contains(x) {
                let k = choose|k: int| 0 <= k < p.len() && p[k] == x;
                assert(p.push(s.last())[k] == x);
            }
            assert(p.push(s.last())[p.len() as int] == s.last());
        }
    }
}

} // verus!
