use vstd::prelude::*;

use crate::addr::Endpoint;

verus! {

/// What a participant says of itself: its display name, which is its
/// identity, and the port of the service it offers.
#[derive(Clone, Debug)]
pub struct Announcement {
    pub name: String,
    pub port: u16,
}

/// A participant found on the network.  `addr` is where its announcement came
/// from, `port` the service port it announced, and `last_seen` the time, in
/// milliseconds of a monotonic clock, at which it was last heard.
#[derive(Clone, Debug)]
pub struct Peer {
    pub addr: Endpoint,
    pub name: String,
    pub port: u16,
    pub last_seen: u64,
}

pub ghost struct PeerView {
    pub addr: Endpoint,
    pub name: Seq<char>,
    pub port: u16,
    pub last_seen: u64,
}

impl View for Announcement {
    type V = (Seq<char>, u16);

    open spec fn view(&self) -> (Seq<char>, u16) {
        (self.name@, self.port)
    }
}

impl View for Peer {
    type V = PeerView;

    open spec fn view(&self) -> PeerView {
        PeerView { addr: self.addr, name: self.name@, port: self.port, last_seen: self.last_seen }
    }
}

impl Announcement {
    pub fn new(name: String, port: u16) -> (r: Announcement)
        ensures
            r@ == (name@, port),
    {
        Announcement { name, port }
    }

    pub fn duplicate(&self) -> (r: Announcement)
        ensures
            r@ == self@,
    {
        Announcement { name: self.name.clone(), port: self.port }
    }
}

impl Peer {
    pub fn duplicate(&self) -> (r: Peer)
        ensures
            r@ == self@,
    {
        Peer { addr: self.addr, name: self.name.clone(), port: self.port, last_seen: self.last_seen }
    }
}

pub open spec fn views(s: Seq<Peer>) -> Seq<PeerView> {
    s.map_values(|p: Peer| p@)
}

pub open spec fn unique_names(s: Seq<PeerView>) -> bool {
    forall|i: int, j: int|
        0 <= i < s.len() && 0 <= j < s.len() && i != j ==> #[trigger] s[i].name != #[trigger] s[j].name
}

/// The records of `s` keyed by name.
pub open spec fn by_name(s: Seq<PeerView>) -> Map<Seq<char>, PeerView> {
    Map::new(
        |k: Seq<char>| exists|i: int| 0 <= i < s.len() && s[i].name == k,
        |k: Seq<char>| s[choose|i: int| 0 <= i < s.len() && s[i].name == k],
    )
}

/// A record has outlived the staleness window once `timeout` milliseconds or
/// more have passed since it was last refreshed.
pub open spec fn is_stale(p: PeerView, now: u64, timeout: u64) -> bool {
    now - p.last_seen >= timeout
}

/// What is left of `m` once its stale records are gone.
pub open spec fn fresh_only(m: Map<Seq<char>, PeerView>, now: u64, timeout: u64) -> Map<
    Seq<char>,
    PeerView,
> {
    Map::new(|k: Seq<char>| m.contains_key(k) && !is_stale(m[k], now, timeout), |k: Seq<char>| m[k])
}

/// The registry after one received datagram: `msg` is its decoded
/// announcement, or `None` where it did not decode.  Only a well-formed
/// announcement from another participant is recorded, keyed by its name.
pub open spec fn after_datagram(
    m: Map<Seq<char>, PeerView>,
    local_name: Seq<char>,
    msg: Option<(Seq<char>, u16)>,
    src: Endpoint,
    now: u64,
) -> Map<Seq<char>, PeerView> {
    match msg {
        None => m,
        Some((name, port)) => if name == local_name {
            m
        } else {
            m.insert(name, PeerView { addr: src, name, port, last_seen: now })
        },
    }
}

/// What became of a received datagram.
#[derive(Clone, Copy, Debug, PartialEq, Eq, Structural)]
pub enum Received {
    /// It did not decode as an announcement; nothing changed.
    Malformed,
    /// It was this participant's own announcement; nothing changed.
    OwnAnnouncement,
    /// The sender was recorded or refreshed.
    Recorded,
}

/// A peer recorded at time `t` survives a sweep at `now` exactly while fewer
/// than `timeout` milliseconds have passed since `t`: before the staleness
/// window elapses the record is still there, afterwards it is gone.
pub proof fn lemma_upsert_then_evict(
    m: Map<Seq<char>, PeerView>,
    p: PeerView,
    now: u64,
    timeout: u64,
)
    ensures
        fresh_only(m.insert(p.name, p), now, timeout).contains_key(p.name) <==> now - p.last_seen
            < timeout,
        now - p.last_seen < timeout ==> fresh_only(m.insert(p.name, p), now, timeout)[p.name]
            == p,
{
}

/// The registry never comes to hold the local name: neither a received
/// datagram, whatever it holds, nor a sweep puts it there.
pub proof fn lemma_own_name_never_recorded(
    m: Map<Seq<char>, PeerView>,
    local_name: Seq<char>,
    msg: Option<(Seq<char>, u16)>,
    src: Endpoint,
    now: u64,
    timeout: u64,
)
    requires
        !m.contains_key(local_name),
    ensures
        !after_datagram(m, local_name, msg, src, now).contains_key(local_name),
        !fresh_only(m, now, timeout).contains_key(local_name),
{
}

/// A datagram that does not decode leaves the registry as it was.
pub proof fn lemma_malformed_changes_nothing(
    m: Map<Seq<char>, PeerView>,
    local_name: Seq<char>,
    src: Endpoint,
    now: u64,
)
    ensures
        after_datagram(m, local_name, None, src, now) == m,
{
}

/// While the clock does not run backwards, no record's last-seen time ever
/// decreases: a received datagram keeps every name it found, with a time at
/// least as late.
pub proof fn lemma_last_seen_never_decreases(
    m: Map<Seq<char>, PeerView>,
    local_name: Seq<char>,
    msg: Option<(Seq<char>, u16)>,
    src: Endpoint,
    now: u64,
)
    requires
        forall|k: Seq<char>| #[trigger] m.contains_key(k) ==> m[k].last_seen <= now,
    ensures
        forall|k: Seq<char>| #[trigger]
            m.contains_key(k) ==> after_datagram(m, local_name, msg, src, now).contains_key(k)
                && m[k].last_seen <= after_datagram(m, local_name, msg, src, now)[k].last_seen,
        forall|k: Seq<char>| #[trigger]
            after_datagram(m, local_name, msg, src, now).contains_key(k) ==> after_datagram(
                m,
                local_name,
                msg,
                src,
                now,
            )[k].last_seen <= now,
{
}

/// Right after a sweep at `now`, every remaining record was refreshed less
/// than `timeout` milliseconds before `now`.
pub proof fn lemma_sweep_leaves_only_fresh(m: Map<Seq<char>, PeerView>, now: u64, timeout: u64)
    ensures
        forall|k: Seq<char>| #[trigger]
            fresh_only(m, now, timeout).contains_key(k) ==> m.contains_key(k) && now
                - fresh_only(m, now, timeout)[k].last_seen < timeout,
{
}

/// The peers discovered so far, at most one record per name.
pub struct PeerRegistry {
    entries: Vec<Peer>,
}

impl View for PeerRegistry {
    type V = Map<Seq<char>, PeerView>;

    closed spec fn view(&self) -> Map<Seq<char>, PeerView> {
        by_name(views(self.entries@))
    }
}

proof fn lemma_by_name_at(s: Seq<PeerView>, i: int)
    requires
        unique_names(s),
        0 <= i < s.len(),
    ensures
        by_name(s).contains_key(s[i].name),
        by_name(s)[s[i].name] == s[i],
{
    let k = s[i].name;
    assert(exists|j: int| 0 <= j < s.len() && s[j].name == k);
    let j = choose|j: int| 0 <= j < s.len() && s[j].name == k;
    assert(j == i);
}

proof fn lemma_by_name_update(s: Seq<PeerView>, i: int, p: PeerView)
    requires
        unique_names(s),
        0 <= i < s.len(),
        s[i].name == p.name,
    ensures
        unique_names(s.update(i, p)),
        by_name(s.update(i, p)) == by_name(s).insert(p.name, p),
{
    let t = s.update(i, p);
    assert(unique_names(t)) by {
        assert forall|a: int, b: int|
            0 <= a < t.len() && 0 <= b < t.len() && a != b implies #[trigger] t[a].name
            != #[trigger] t[b].name by {
            assert(t[a].name == s[a].name);
            assert(t[b].name == s[b].name);
        }
    }
    assert forall|k: Seq<char>| #[trigger]
        by_name(t).contains_key(k) == by_name(s).insert(p.name, p).contains_key(k) by {
        if by_name(t).contains_key(k) {
            let j = choose|j: int| 0 <= j < t.len() && t[j].name == k;
            assert(s[j].name == k);
        }
        if by_name(s).contains_key(k) {
            let j = choose|j: int| 0 <= j < s.len() && s[j].name == k;
            assert(t[j].name == k);
        }
        if k == p.name {
            assert(t[i].name == k);
        }
    }
    assert forall|k: Seq<char>| #[trigger] by_name(t).contains_key(k) implies by_name(t)[k]
        == by_name(s).insert(p.name, p)[k] by {
        let j = choose|j: int| 0 <= j < t.len() && t[j].name == k;
        lemma_by_name_at(t, j);
        if j != i {
            assert(s[j] == t[j]);
            lemma_by_name_at(s, j);
        }
    }
    assert(by_name(t) =~= by_name(s).insert(p.name, p));
}

proof fn lemma_by_name_push(s: Seq<PeerView>, p: PeerView)
    requires
        unique_names(s),
        !by_name(s).contains_key(p.name),
    ensures
        unique_names(s.push(p)),
        by_name(s.push(p)) == by_name(s).insert(p.name, p),
{
    let t = s.push(p);
    assert(unique_names(t)) by {
        assert forall|a: int, b: int|
            0 <= a < t.len() && 0 <= b < t.len() && a != b implies #[trigger] t[a].name
            != #[trigger] t[b].name by {
            if a < s.len() && b < s.len() {
                assert(t[a] == s[a] && t[b] == s[b]);
            } else if a < s.len() {
                assert(t[a] == s[a]);
            } else {
                assert(t[b] == s[b]);
            }
        }
    }
    assert forall|k: Seq<char>| #[trigger]
        by_name(t).contains_key(k) == by_name(s).insert(p.name, p).contains_key(k) by {
        if by_name(t).contains_key(k) {
            let j = choose|j: int| 0 <= j < t.len() && t[j].name == k;
            if j < s.len() {
                assert(s[j].name == k);
            }
        }
        if by_name(s).contains_key(k) {
            let j = choose|j: int| 0 <= j < s.len() && s[j].name == k;
            assert(t[j].name == k);
        }
        if k == p.name {
            assert(t[s.len() as int].name == k);
        }
    }
    assert forall|k: Seq<char>| #[trigger] by_name(t).contains_key(k) implies by_name(t)[k]
        == by_name(s).insert(p.name, p)[k] by {
        let j = choose|j: int| 0 <= j < t.len() && t[j].name == k;
        lemma_by_name_at(t, j);
        if j < s.len() {
            assert(s[j] == t[j]);
            lemma_by_name_at(s, j);
        }
    }
    assert(by_name(t) =~= by_name(s).insert(p.name, p));
}

impl PeerRegistry {
    pub closed spec fn wf(&self) -> bool {
        unique_names(views(self.entries@))
    }

    pub fn new() -> (r: PeerRegistry)
        ensures
            r.wf(),
            r@ == Map::<Seq<char>, PeerView>::empty(),
    {
        let r = PeerRegistry { entries: Vec::new() };
        assert(r@ =~= Map::<Seq<char>, PeerView>::empty());
        r
    }

    /// The number of peers recorded.
    pub fn len(&self) -> (r: usize)
        requires
            self.wf(),
        ensures
            r == self@.len(),
    {
        proof {
            self.lemma_dom_len();
        }
        self.entries.len()
    }

    proof fn lemma_dom_len(&self)
        requires
            self.wf(),
        ensures
            self@.dom().finite(),
            self@.len() == self.entries@.len(),
    {
        let s = views(self.entries@);
        let f = |i: int| s[i].name;
        assert forall|k: Seq<char>| self@.dom().contains(k) <==> Set::new(
            |i: int| 0 <= i < s.len(),
        ).map(f).contains(k) by {
            if self@.dom().contains(k) {
                let j = choose|j: int| 0 <= j < s.len() && s[j].name == k;
                assert(Set::new(|i: int| 0 <= i < s.len()).contains(j));
            }
        }
        assert(self@.dom() =~= Set::new(|i: int| 0 <= i < s.len()).map(f));
        vstd::set_lib::lemma_int_range(0, s.len() as int);
        assert(Set::new(|i: int| 0 <= i < s.len()) =~= vstd::set_lib::set_int_range(
            0,
            s.len() as int,
        ));
        assert forall|a: int, b: int|
            Set::new(|i: int| 0 <= i < s.len()).contains(a) && Set::new(
                |i: int| 0 <= i < s.len(),
            ).contains(b) && #[trigger] f(a) == #[trigger] f(b) implies a == b by {}
        vstd::set_lib::lemma_map_size(Set::new(|i: int| 0 <= i < s.len()), self@.dom(), f);
    }

    /// Whether a peer of this name is recorded.
    pub fn contains(&self, name: &String) -> (r: bool)
        requires
            self.wf(),
        ensures
            r == self@.contains_key(name@),
    {
        match self.find(name) {
            Some(_) => true,
            None => false,
        }
    }

    /// The record of the peer of this name, if there is one.
    pub fn get(&self, name: &String) -> (r: Option<Peer>)
        requires
            self.wf(),
        ensures
            match r {
                Some(p) => self@.contains_key(name@) && p@ == self@[name@],
                None => !self@.contains_key(name@),
            },
    {
        match self.find(name) {
            Some(i) => Some(self.entries[i].duplicate()),
            None => None,
        }
    }

    fn find(&self, name: &String) -> (r: Option<usize>)
        requires
            self.wf(),
        ensures
            match r {
                Some(i) => i < self.entries@.len() && self.entries@[i as int].name@ == name@
                    && self@.contains_key(name@) && self@[name@] == self.entries@[i as int]@,
                None => !self@.contains_key(name@),
            },
    {
        let mut i: usize = 0;
        while i < self.entries.len()
            invariant
                0 <= i <= self.entries@.len(),
                unique_names(views(self.entries@)),
                forall|j: int| 0 <= j < i ==> self.entries@[j].name@ != name@,
            decreases self.entries@.len() - i,
        {
            if self.entries[i].name == *name {
                proof {
                    lemma_by_name_at(views(self.entries@), i as int);
                }
                return Some(i);
            }
            i = i + 1;
        }
        proof {
            let s = views(self.entries@);
            if self@.contains_key(name@) {
                let j = choose|j: int| 0 <= j < s.len() && s[j].name == name@;
                assert(self.entries@[j].name@ == name@);
            }
        }
        None
    }

    /// Records `peer`, replacing whatever was recorded under its name.
    pub fn upsert(&mut self, peer: Peer)
        requires
            old(self).wf(),
        ensures
            final(self).wf(),
            final(self)@ == old(self)@.insert(peer@.name, peer@),
    {
        let ghost s = views(self.entries@);
        match self.find(&peer.name) {
            Some(i) => {
                proof {
                    lemma_by_name_update(s, i as int, peer@);
                }
                self.entries.set(i, peer);
                assert(views(self.entries@) =~= s.update(i as int, peer@));
            },
            None => {
                proof {
                    lemma_by_name_push(s, peer@);
                }
                self.entries.push(peer);
                assert(views(self.entries@) =~= s.push(peer@));
            },
        }
    }

    /// Removes every record that has outlived the staleness window at time
    /// `now`.
    pub fn evict_stale(&mut self, now: u64, timeout: u64)
        requires
            old(self).wf(),
        ensures
            final(self).wf(),
            final(self)@ == fresh_only(old(self)@, now, timeout),
    {
        let ghost s = views(self.entries@);
        let ghost m = self@;
        let mut kept: Vec<Peer> = Vec::new();
        let mut i: usize = 0;
        while i < self.entries.len()
            invariant
                0 <= i <= self.entries@.len(),
                s == views(self.entries@),
                m == by_name(s),
                unique_names(s),
                unique_names(views(kept@)),
                forall|k: Seq<char>|
                    #![trigger by_name(views(kept@)).contains_key(k)]
                    by_name(views(kept@)).contains_key(k) <==> exists|j: int|
                        0 <= j < i && s[j].name == k && !is_stale(s[j], now, timeout),
                forall|a: int|
                    0 <= a < kept@.len() ==> m.contains_key(#[trigger] views(kept@)[a].name)
                        && m[views(kept@)[a].name] == views(kept@)[a],
            decreases self.entries@.len() - i,
        {
            let ghost before = views(kept@);
            let p = &self.entries[i];
            let stale = now >= p.last_seen && now - p.last_seen >= timeout;
            if !stale {
                proof {
                    assert(!by_name(before).contains_key(s[i as int].name)) by {
                        if by_name(before).contains_key(s[i as int].name) {
                            let j = choose|j: int|
                                0 <= j < i && s[j].name == s[i as int].name && !is_stale(
                                    s[j],
                                    now,
                                    timeout,
                                );
                        }
                    }
                    lemma_by_name_push(before, s[i as int]);
                }
                kept.push(p.duplicate());
                assert(views(kept@) =~= before.push(s[i as int]));
                proof {
                    let after = views(kept@);
                    lemma_by_name_at(s, i as int);
                    assert forall|a: int| 0 <= a < after.len() implies m.contains_key(
                        #[trigger] after[a].name,
                    ) && m[after[a].name] == after[a] by {
                        if a < before.len() {
                            assert(after[a] == before[a]);
                        } else {
                            assert(after[a] == s[i as int]);
                        }
                    }
                    assert forall|k: Seq<char>|
                        #![trigger by_name(after).contains_key(k)]
                        by_name(after).contains_key(k) <==> exists|j: int|
                            0 <= j < i + 1 && s[j].name == k && !is_stale(s[j], now, timeout) by {
                        if k == s[i as int].name {
                            assert(by_name(after).contains_key(k));
                        }
                    }
                }
            } else {
                proof {
                    assert forall|k: Seq<char>|
                        #![trigger by_name(before).contains_key(k)]
                        by_name(before).contains_key(k) <==> exists|j: int|
                            0 <= j < i + 1 && s[j].name == k && !is_stale(s[j], now, timeout) by {
                        if exists|j: int|
                            0 <= j < i + 1 && s[j].name == k && !is_stale(s[j], now, timeout) {
                            let j = choose|j: int|
                                0 <= j < i + 1 && s[j].name == k && !is_stale(
                                    s[j],
                                    now,
                                    timeout,
                                );
                            assert(j != i);
                        }
                    }
                }
            }
            i = i + 1;
        }
        proof {
            let t = views(kept@);
            let want = fresh_only(m, now, timeout);
            assert forall|k: Seq<char>| #[trigger]
                by_name(t).contains_key(k) == want.contains_key(k) by {
                if by_name(t).contains_key(k) {
                    let j = choose|j: int|
                        0 <= j < s.len() && s[j].name == k && !is_stale(s[j], now, timeout);
                    lemma_by_name_at(s, j);
                }
                if want.contains_key(k) {
                    let j = choose|j: int| 0 <= j < s.len() && s[j].name == k;
                    lemma_by_name_at(s, j);
                }
            }
            assert forall|k: Seq<char>| #[trigger] by_name(t).contains_key(k) implies by_name(t)[k]
                == want[k] by {
                let a = choose|a: int| 0 <= a < t.len() && t[a].name == k;
                lemma_by_name_at(t, a);
            }
            assert(by_name(t) =~= want);
        }
        self.entries = kept;
    }

    /// An independent copy of every record, one per name.
    pub fn snapshot(&self) -> (r: Vec<Peer>)
        requires
            self.wf(),
        ensures
            unique_names(views(r@)),
            by_name(views(r@)) == self@,
    {
        let mut out: Vec<Peer> = Vec::new();
        let mut i: usize = 0;
        while i < self.entries.len()
            invariant
                0 <= i <= self.entries@.len(),
                out@.len() == i,
                views(out@) == views(self.entries@).take(i as int),
            decreases self.entries@.len() - i,
        {
            let ghost before = out@;
            let c = self.entries[i].duplicate();
            out.push(c);
            assert(out@ == before.push(c));
            assert forall|j: int| 0 <= j < i + 1 implies #[trigger] views(out@)[j] == views(
                self.entries@,
            ).take(i + 1)[j] by {
                if j < i {
                    assert(out@[j] == before[j]);
                    assert(views(before)[j] == views(self.entries@).take(i as int)[j]);
                }
            }
            assert(views(out@) =~= views(self.entries@).take(i + 1));
            i = i + 1;
        }
        assert(views(self.entries@).take(i as int) =~= views(self.entries@));
        out
    }

    /// Handles one received datagram, already decoded: `msg` is `None` where
    /// it was not a well-formed announcement.  `local_name` is this
    /// participant's own name, `src` the sender's address and `now` the time of
    /// receipt.
    pub fn on_datagram(
        &mut self,
        local_name: &String,
        msg: Option<Announcement>,
        src: Endpoint,
        now: u64,
    ) -> (r: Received)
        requires
            old(self).wf(),
        ensures
            final(self).wf(),
            final(self)@ == after_datagram(
                old(self)@,
                local_name@,
                match msg {
                    Some(a) => Some(a@),
                    None => None,
                },
                src,
                now,
            ),
            r == (match msg {
                None => Received::Malformed,
                Some(a) => if a.name@ == local_name@ {
                    Received::OwnAnnouncement
                } else {
                    Received::Recorded
                },
            }),
    {
        match msg {
            None => Received::Malformed,
            Some(a) => {
                if a.name == *local_name {
                    Received::OwnAnnouncement
                } else {
                    let peer = Peer { addr: src, name: a.name, port: a.port, last_seen: now };
                    self.upsert(peer);
                    Received::Recorded
                }
            },
        }
    }
}

} // verus!
