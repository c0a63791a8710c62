use vstd::prelude::*;

verus! {

/// An IPv4 address held as its four octets, most significant first.
#[derive(Clone, Copy, Debug, PartialEq, Eq, Structural)]
pub struct Ipv4 {
    pub a: u8,
    pub b: u8,
    pub c: u8,
    pub d: u8,
}

/// A network endpoint: an IPv4 address and a UDP port.
#[derive(Clone, Copy, Debug, PartialEq, Eq, Structural)]
pub struct Endpoint {
    pub ip: Ipv4,
    pub port: u16,
}

/// 127.0.0.0/8
pub open spec fn is_loopback(x: Ipv4) -> bool {
    x.a == 127
}

/// 169.254.0.0/16
pub open spec fn is_link_local(x: Ipv4) -> bool {
    x.a == 169 && x.b == 254
}

/// 224.0.0.0/4
pub open spec fn is_multicast(x: Ipv4) -> bool {
    224 <= x.a <= 239
}

/// 0.0.0.0
pub open spec fn is_unspecified(x: Ipv4) -> bool {
    x.a == 0 && x.b == 0 && x.c == 0 && x.d == 0
}

/// An address that can carry multicast traffic to other hosts.
pub open spec fn is_usable(x: Ipv4) -> bool {
    !is_loopback(x) && !is_link_local(x) && !is_multicast(x) && !is_unspecified(x)
}

/// Rank among the private ranges: 192.168/16 above 172.16/12 above 10/8;
/// zero for an address in none of them.
pub open spec fn private_rank(x: Ipv4) -> int {
    if x.a == 192 && x.b == 168 {
        3
    } else if x.a == 172 && 16 <= x.b <= 31 {
        2
    } else if x.a == 10 {
        1
    } else {
        0
    }
}

/// Preference of an interface address: negative for an unusable one, and
/// among usable ones the private ranges above every other address.
pub open spec fn score(x: Ipv4) -> int {
    if !is_usable(x) {
        -1
    } else if private_rank(x) == 3 {
        100
    } else if private_rank(x) == 2 {
        90
    } else if private_rank(x) == 1 {
        80
    } else {
        10
    }
}

pub open spec fn loopback() -> Ipv4 {
    Ipv4 { a: 127, b: 0, c: 0, d: 1 }
}

pub open spec fn has_usable(c: Seq<Ipv4>) -> bool {
    exists|i: int| 0 <= i < c.len() && is_usable(#[trigger] c[i])
}

/// `c[k]` scores highest in `c`, and no earlier candidate scores as high.
pub open spec fn first_best(c: Seq<Ipv4>, k: int) -> bool {
    &&& 0 <= k < c.len()
    &&& forall|j: int| 0 <= j < c.len() ==> score(#[trigger] c[j]) <= score(c[k])
    &&& forall|j: int| 0 <= j < k ==> score(#[trigger] c[j]) < score(c[k])
}

/// `r` is the address chosen from the candidates `c`: the first of the
/// highest-scoring usable ones, or the loopback address when none is usable.
pub open spec fn is_selection(c: Seq<Ipv4>, r: Ipv4) -> bool {
    if has_usable(c) {
        exists|k: int| first_best(c, k) && c[k] == r
    } else {
        r == loopback()
    }
}

impl Ipv4 {
    pub fn new(a: u8, b: u8, c: u8, d: u8) -> (r: Ipv4)
        ensures
            r == (Ipv4 { a, b, c, d }),
    {
        Ipv4 { a, b, c, d }
    }

    pub fn localhost() -> (r: Ipv4)
        ensures
            r == loopback(),
    {
        Ipv4 { a: 127, b: 0, c: 0, d: 1 }
    }

    pub fn is_loopback(&self) -> (r: bool)
        ensures
            r == is_loopback(*self),
    {
        self.a == 127
    }

    pub fn is_link_local(&self) -> (r: bool)
        ensures
            r == is_link_local(*self),
    {
        self.a == 169 && self.b == 254
    }

    pub fn is_multicast(&self) -> (r: bool)
        ensures
            r == is_multicast(*self),
    {
        224 <= self.a && self.a <= 239
    }

    pub fn is_unspecified(&self) -> (r: bool)
        ensures
            r == is_unspecified(*self),
    {
        self.a == 0 && self.b == 0 && self.c == 0 && self.d == 0
    }

    pub fn is_usable(&self) -> (r: bool)
        ensures
            r == is_usable(*self),
    {
        !self.is_loopback() && !self.is_link_local() && !self.is_multicast()
            && !self.is_unspecified()
    }

    /// How strongly this address is preferred for binding and multicast
    /// membership.
    pub fn score(&self) -> (r: i32)
        ensures
            r as int == score(*self),
    {
        if !self.is_usable() {
            -1
        } else if self.a == 192 && self.b == 168 {
            100
        } else if self.a == 172 && 16 <= self.b && self.b <= 31 {
            90
        } else if self.a == 10 {
            80
        } else {
            10
        }
    }
}

/// Chooses the local address to bind and join the multicast group on.
pub fn select_local_ipv4(candidates: &Vec<Ipv4>) -> (r: Ipv4)
    ensures
        is_selection(candidates@, r),
        has_usable(candidates@) ==> is_usable(r),
        !has_usable(candidates@) ==> r == loopback(),
{
    let mut best: Option<usize> = None;
    let mut best_score: i32 = -1;
    let mut i: usize = 0;
    while i < candidates.len()
        invariant
            0 <= i <= candidates@.len(),
            best_score >= -1,
            match best {
                None => best_score == -1 && forall|j: int|
                    0 <= j < i ==> !is_usable(#[trigger] candidates@[j]),
                Some(k) => {
                    &&& k < i
                    &&& best_score as int == score(candidates@[k as int])
                    &&& is_usable(candidates@[k as int])
                    &&& forall|j: int|
                        0 <= j < i ==> score(#[trigger] candidates@[j]) <= best_score
                    &&& forall|j: int|
                        0 <= j < k ==> score(#[trigger] candidates@[j]) < best_score
                },
            },
        decreases candidates@.len() - i,
    {
        let sc = candidates[i].score();
        if sc > best_score {
            best_score = sc;
            best = Some(i);
        }
        i = i + 1;
    }
    match best {
        Some(k) => {
            assert(first_best(candidates@, k as int));
            candidates[k]
        },
        None => {
            assert(!has_usable(candidates@));
            Ipv4::localhost()
        },
    }
}

/// Whichever usable candidate is chosen, no private range narrower than the
/// chosen address's own is present among the candidates.
pub proof fn lemma_narrowest_private_range_wins(c: Seq<Ipv4>, r: Ipv4)
    requires
        is_selection(c, r),
    ensures
        forall|i: int|
            0 <= i < c.len() && is_usable(#[trigger] c[i]) && private_rank(c[i]) > 0
                ==> private_rank(r) >= private_rank(c[i]),
{
    if has_usable(c) {
        let k = choose|k: int| first_best(c, k) && c[k] == r;
        assert forall|i: int|
            0 <= i < c.len() && is_usable(#[trigger] c[i]) && private_rank(c[i]) > 0
                implies private_rank(r) >= private_rank(c[i]) by {
            assert(score(c[i]) <= score(c[k]));
        }
    }
}

/// The choice does not depend on the order of the candidates: two lists
/// holding the same addresses lead to addresses of the same score, and so of
/// the same private range.
pub proof fn lemma_selection_order_independent(c1: Seq<Ipv4>, c2: Seq<Ipv4>, r1: Ipv4, r2: Ipv4)
    requires
        forall|x: Ipv4| c1.contains(x) <==> c2.contains(x),
        is_selection(c1, r1),
        is_selection(c2, r2),
    ensures
        score(r1) == score(r2),
        private_rank(r1) == private_rank(r2),
        is_usable(r1) == is_usable(r2),
{
    if has_usable(c1) {
        let i = choose|i: int| 0 <= i < c1.len() && is_usable(#[trigger] c1[i]);
        assert(c1.contains(c1[i]));
        let j = choose|j: int| 0 <= j < c2.len() && c2[j] == c1[i];
        assert(has_usable(c2));
    }
    if has_usable(c2) {
        let i = choose|i: int| 0 <= i < c2.len() && is_usable(#[trigger] c2[i]);
        assert(c2.contains(c2[i]));
        let j = choose|j: int| 0 <= j < c1.len() && c1[j] == c2[i];
        assert(has_usable(c1));
    }
    if has_usable(c1) {
        let k1 = choose|k: int| first_best(c1, k) && c1[k] == r1;
        let k2 = choose|k: int| first_best(c2, k) && c2[k] == r2;
        assert(c1.contains(r1));
        assert(c2.contains(r2));
        let j2 = choose|j: int| 0 <= j < c2.len() && c2[j] == r1;
        let j1 = choose|j: int| 0 <= j < c1.len() && c1[j] == r2;
        assert(score(c2[j2]) <= score(c2[k2]));
        assert(score(c1[j1]) <= score(c1[k1]));
    }
}

} // verus!
