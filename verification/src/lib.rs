//! A gossip-based cluster membership protocol: each node keeps a local view of
//! which peers are alive, disseminates that view to randomly chosen peers, and
//! expires peers that stop being heard from.
//!
//! The heart of the crate is [`MembershipList`] with its `merge` and `sweep`
//! algorithms: an anti-entropy reconciliation rule where a higher heartbeat
//! counter wins, stale join announcements are dropped, and entries not
//! refreshed within the liveness window are evicted.

pub mod beatcount;
pub mod gossip;
pub mod timestamp;

use rand::seq::IteratorRandom;
use vstd::prelude::*;

use beatcount::bumped;
use beatcount::BeatCount;
use timestamp::now_seconds;
use timestamp::TimeStamp;

verus! {

/// A peer is identified by its network port number.
pub type Port = u16;

/// The liveness window in seconds: information about a peer older than this
/// is considered stale.
pub const SWEEP_TIME: i64 = 5;

/// One entry of the membership view: a peer and its heartbeat record.
#[derive(Clone, Copy, PartialEq, Eq, Structural, Debug)]
pub struct Entry {
    pub port: Port,
    pub record: BeatCount,
}

/// The record stored for `p` in a sequence of entries, if any; the last
/// occurrence wins, though a well-formed view holds each port at most once.
pub open spec fn seq_find(s: Seq<Entry>, p: Port) -> Option<BeatCount>
    decreases s.len(),
{
    if s.len() == 0 {
        None
    } else if s.last().port == p {
        Some(s.last().record)
    } else {
        seq_find(s.drop_last(), p)
    }
}

/// Each port occurs at most once in the sequence.
pub open spec fn unique_ports(s: Seq<Entry>) -> bool {
    forall|i: int, j: int| 0 <= i < j < s.len() ==> s[i].port != s[j].port
}

/// A record is found for `p` exactly when some entry carries `p`.
pub proof fn lemma_seq_find_occurrence(s: Seq<Entry>, p: Port)
    ensures
        (seq_find(s, p) is Some) <==> (exists|j: int| 0 <= j < s.len() && s[j].port == p),
    decreases s.len(),
{
    if s.len() > 0 {
        lemma_seq_find_occurrence(s.drop_last(), p);
        if s.last().port == p {
            assert(s[s.len() - 1].port == p);
        } else {
            if seq_find(s.drop_last(), p) is Some {
                let j = choose|j: int| 0 <= j < s.drop_last().len() && s.drop_last()[j].port == p;
                assert(s[j].port == p);
            }
            if exists|j: int| 0 <= j < s.len() && s[j].port == p {
                let j = choose|j: int| 0 <= j < s.len() && s[j].port == p;
                assert(j < s.len() - 1);
                assert(s.drop_last()[j].port == p);
            }
        }
    }
}

/// Appending an entry shadows `p` exactly when the entry carries `p`.
pub proof fn lemma_seq_find_push(s: Seq<Entry>, e: Entry, p: Port)
    ensures
        seq_find(s.push(e), p) == (if e.port == p {
            Some(e.record)
        } else {
            seq_find(s, p)
        }),
{
    assert(s.push(e).drop_last() =~= s);
    assert(s.push(e).last() == e);
}

/// Overwriting the entry at `i` with one carrying the same port changes the
/// record found for that port and no other.
pub proof fn lemma_seq_find_update(s: Seq<Entry>, i: int, e: Entry, p: Port)
    requires
        0 <= i < s.len(),
        unique_ports(s),
        s[i].port == e.port,
    ensures
        seq_find(s.update(i, e), p) == (if e.port == p {
            Some(e.record)
        } else {
            seq_find(s, p)
        }),
    decreases s.len(),
{
    let t = s.update(i, e);
    if i == s.len() - 1 {
        assert(t.last() == e);
        assert(t.drop_last() =~= s.drop_last());
        if e.port != p {
            assert(s.last().port == e.port);
        }
    } else {
        assert(t.drop_last() =~= s.drop_last().update(i, e));
        assert(t.last() == s.last());
        assert(unique_ports(s.drop_last())) by {
            assert(forall|a: int, b: int|
                0 <= a < b < s.drop_last().len() ==> s.drop_last()[a] == s[a] && s.drop_last()[b]
                    == s[b]);
        }
        assert(s.drop_last()[i].port == e.port);
        lemma_seq_find_update(s.drop_last(), i, e, p);
        if s.last().port == p {
            assert(s[i].port != s[s.len() - 1].port);
        }
    }
}

/// Appending to a sequence keeps exactly the old members plus the new one.
pub proof fn lemma_push_contains<T>(s: Seq<T>, x: T, q: T)
    ensures
        s.push(x).contains(q) <==> (s.contains(q) || q == x),
{
    if q == x {
        assert(s.push(x)[s.len() as int] == x);
    }
    if s.contains(q) {
        let j = choose|j: int| 0 <= j < s.len() && s[j] == q;
        assert(s.push(x)[j] == q);
    }
    if s.push(x).contains(q) {
        let j = choose|j: int| 0 <= j < s.push(x).len() && s.push(x)[j] == q;
        if j < s.len() {
            assert(s[j] == q);
        }
    }
}

/// Every record in the view is a fresh seed at `now`: counter zero, last
/// seen at `now`.
pub open spec fn seeded_at(m: Map<Port, BeatCount>, now: i64) -> bool {
    forall|q: Port| #![auto] m.dom().contains(q) ==> m[q] == BeatCount(0, TimeStamp(now))
}

/// A join announcement with this last-seen time is still fresh at `now`:
/// its age is below the liveness window.
pub open spec fn fresh_join(ts: i64, now: i64) -> bool {
    now - ts < SWEEP_TIME
}

/// A record with this last-seen time is stale at `now`: its age exceeds the
/// liveness window.
pub open spec fn stale_entry(ts: i64, now: i64) -> bool {
    now - ts > SWEEP_TIME
}

/// Sweep keeps an entry when it is the local node's own or not yet stale.
pub open spec fn keeps(sp: Option<Port>, p: Port, rec: BeatCount, now: i64) -> bool {
    sp == Some(p) || !stale_entry(rec.1.0, now)
}

/// The view after a sweep at time `now`: every stale entry other than the
/// local node's own is gone, and the rest are untouched.
pub open spec fn spec_sweep(m: Map<Port, BeatCount>, sp: Option<Port>, now: i64) -> Map<
    Port,
    BeatCount,
> {
    Map::new(|p: Port| m.dom().contains(p) && keeps(sp, p, m[p], now), |p: Port| m[p])
}

/// The record kept for a peer after merging a remote record for it: a higher
/// remote counter is adopted with a refreshed last-seen time, and the entry
/// for the sender itself takes one extra heartbeat step.
pub open spec fn merged_record(cur: BeatCount, rem: BeatCount, is_sender: bool, now: i64) -> BeatCount {
    let adopted = if rem.0 > cur.0 {
        BeatCount(rem.0, TimeStamp(now))
    } else {
        cur
    };
    if is_sender {
        BeatCount(bumped(adopted.0), TimeStamp(now))
    } else {
        adopted
    }
}

/// One step of the merge: reconcile a single remote entry into the view.
/// A known peer's record is merged; an unknown peer is admitted only while
/// its join announcement is still fresh.
pub open spec fn spec_merge_one(m: Map<Port, BeatCount>, e: Entry, sender: Port, now: i64) -> Map<
    Port,
    BeatCount,
> {
    if m.dom().contains(e.port) {
        m.insert(e.port, merged_record(m[e.port], e.record, e.port == sender, now))
    } else if fresh_join(e.record.1.0, now) {
        m.insert(e.port, e.record)
    } else {
        m
    }
}

/// The view after merging every entry of a remote view, in order.
pub open spec fn spec_merge(m: Map<Port, BeatCount>, rs: Seq<Entry>, sender: Port, now: i64) -> Map<
    Port,
    BeatCount,
>
    decreases rs.len(),
{
    if rs.len() == 0 {
        m
    } else {
        spec_merge_one(spec_merge(m, rs.drop_last(), sender, now), rs.last(), sender, now)
    }
}

/// The view after a full merge of a remote view followed by the sweep that
/// merge ends with.
pub open spec fn merged_view(
    m: Map<Port, BeatCount>,
    rs: Seq<Entry>,
    sp: Option<Port>,
    sender: Port,
    now: i64,
) -> Map<Port, BeatCount> {
    spec_sweep(spec_merge(m, rs, sender, now), sp, now)
}

/// What the merge leaves at each port: a known peer's record is merged with
/// the remote record for it, an unknown peer is admitted only while fresh,
/// and ports the remote view does not mention are untouched.
pub proof fn lemma_spec_merge_at_port(
    m: Map<Port, BeatCount>,
    rs: Seq<Entry>,
    sender: Port,
    now: i64,
    p: Port,
)
    requires
        unique_ports(rs),
    ensures
        ({
            let out = spec_merge(m, rs, sender, now);
            match seq_find(rs, p) {
                Some(r) => {
                    if m.dom().contains(p) {
                        out.dom().contains(p) && out[p] == merged_record(
                            m[p],
                            r,
                            p == sender,
                            now,
                        )
                    } else if fresh_join(r.1.0, now) {
                        out.dom().contains(p) && out[p] == r
                    } else {
                        !out.dom().contains(p)
                    }
                },
                None => {
                    &&& out.dom().contains(p) == m.dom().contains(p)
                    &&& (m.dom().contains(p) ==> out[p] == m[p])
                },
            }
        }),
    decreases rs.len(),
{
    if rs.len() > 0 {
        let rs0 = rs.drop_last();
        let e = rs.last();
        assert(unique_ports(rs0)) by {
            assert(forall|a: int, b: int|
                0 <= a < b < rs0.len() ==> rs0[a] == rs[a] && rs0[b] == rs[b]);
        }
        lemma_spec_merge_at_port(m, rs0, sender, now, p);
        if e.port == p {
            lemma_seq_find_occurrence(rs0, p);
            if seq_find(rs0, p) is Some {
                let j = choose|j: int| 0 <= j < rs0.len() && rs0[j].port == p;
                assert(rs[j].port == p && rs[rs.len() - 1].port == p);
                assert(false);
            }
        }
    }
}

/// A peer's stored counter is non-decreasing: one merge-and-sweep step can
/// only raise it, whatever the remote view, the sender and the time.
pub proof fn lemma_merge_counter_monotonic(
    m: Map<Port, BeatCount>,
    rs: Seq<Entry>,
    sp: Option<Port>,
    sender: Port,
    now: i64,
    p: Port,
)
    requires
        unique_ports(rs),
        m.dom().contains(p),
        merged_view(m, rs, sp, sender, now).dom().contains(p),
    ensures
        merged_view(m, rs, sp, sender, now)[p].0 >= m[p].0,
{
    lemma_spec_merge_at_port(m, rs, sender, now, p);
}

/// Merging never resurrects a stale join: a peer unknown to the view whose
/// announced record is already stale is not admitted.
pub proof fn lemma_no_stale_resurrection(
    m: Map<Port, BeatCount>,
    rs: Seq<Entry>,
    sp: Option<Port>,
    sender: Port,
    now: i64,
    p: Port,
)
    requires
        unique_ports(rs),
        !m.dom().contains(p),
        seq_find(rs, p) matches Some(r) ==> stale_entry(r.1.0, now),
    ensures
        !merged_view(m, rs, sp, sender, now).dom().contains(p),
{
    lemma_spec_merge_at_port(m, rs, sender, now, p);
}

/// Sweep never evicts the local node's own entry, whatever its recorded
/// time, and leaves its record untouched.
pub proof fn lemma_sweep_protects_self(m: Map<Port, BeatCount>, p: Port, now: i64)
    requires
        m.dom().contains(p),
    ensures
        spec_sweep(m, Some(p), now).dom().contains(p),
        spec_sweep(m, Some(p), now)[p] == m[p],
{
}

/// A peer other than the local node whose record is stale is absent after
/// the sweep.
pub proof fn lemma_sweep_evicts_stale(m: Map<Port, BeatCount>, sp: Option<Port>, p: Port, now: i64)
    requires
        sp != Some(p),
        m.dom().contains(p) ==> stale_entry(m[p].1.0, now),
    ensures
        !spec_sweep(m, sp, now).dom().contains(p),
{
}

/// A stale local entry shadowed by a remote record that is fresh but not
/// newer than the local one: the merge adopts nothing for it while the sweep
/// evicts it, so a second merge of the same view re-admits it from the
/// remote record.
pub open spec fn revivable(
    m: Map<Port, BeatCount>,
    rs: Seq<Entry>,
    sp: Option<Port>,
    now: i64,
    p: Port,
) -> bool {
    &&& m.dom().contains(p)
    &&& !keeps(sp, p, m[p], now)
    &&& (seq_find(rs, p) matches Some(r) && r.0 <= m[p].0 && fresh_join(r.1.0, now))
}

/// Merging the same remote view twice with no time passing changes nothing
/// over merging it once, at every port other than the sender's own entry
/// (which takes one extra self-heartbeat step, see
/// [`lemma_merge_self_heartbeat`]) and other than a [`revivable`] port.
pub proof fn lemma_merge_idempotent(
    m: Map<Port, BeatCount>,
    rs: Seq<Entry>,
    sp: Option<Port>,
    sender: Port,
    now: i64,
    p: Port,
)
    requires
        unique_ports(rs),
        p != sender,
        !revivable(m, rs, sp, now, p),
    ensures
        ({
            let once = merged_view(m, rs, sp, sender, now);
            let twice = merged_view(once, rs, sp, sender, now);
            &&& twice.dom().contains(p) == once.dom().contains(p)
            &&& (once.dom().contains(p) ==> twice[p] == once[p])
        }),
{
    lemma_spec_merge_at_port(m, rs, sender, now, p);
    lemma_spec_merge_at_port(merged_view(m, rs, sp, sender, now), rs, sender, now, p);
}

/// The self-heartbeat side effect: as long as a sender's own entry survives
/// the merge, merging its view again advances that entry's counter by one
/// step and refreshes its last-seen time.
pub proof fn lemma_merge_self_heartbeat(
    m: Map<Port, BeatCount>,
    rs: Seq<Entry>,
    sp: Option<Port>,
    sender: Port,
    now: i64,
)
    requires
        unique_ports(rs),
        seq_find(rs, sender) is Some,
        merged_view(m, rs, sp, sender, now).dom().contains(sender),
    ensures
        ({
            let once = merged_view(m, rs, sp, sender, now);
            let twice = merged_view(once, rs, sp, sender, now);
            &&& twice.dom().contains(sender)
            &&& twice[sender].0 == bumped(once[sender].0)
            &&& twice[sender].1.0 == now
        }),
{
    lemma_spec_merge_at_port(m, rs, sender, now, sender);
    lemma_spec_merge_at_port(merged_view(m, rs, sp, sender, now), rs, sender, now, sender);
}

/// True when a record with last-seen time `ts` is stale at `now`.
fn is_stale_at(ts: i64, now: i64) -> (r: bool)
    ensures
        r == stale_entry(ts, now),
{
    if now >= i64::MIN + SWEEP_TIME {
        ts < now - SWEEP_TIME
    } else {
        false
    }
}

/// True when a join announcement with last-seen time `ts` is still fresh at
/// `now`.
fn is_fresh_at(ts: i64, now: i64) -> (r: bool)
    ensures
        r == fresh_join(ts, now),
{
    if now >= i64::MIN + SWEEP_TIME {
        ts > now - SWEEP_TIME
    } else {
        true
    }
}

/// The index of the entry carrying `p`, if any.
fn find_port(ms: &Vec<Entry>, p: Port) -> (r: Option<usize>)
    ensures
        match r {
            Some(i) => i < ms@.len() && ms@[i as int].port == p && seq_find(ms@, p) == Some(
                ms@[i as int].record,
            ),
            None => seq_find(ms@, p) is None && forall|j: int|
                0 <= j < ms@.len() ==> ms@[j].port != p,
        },
{
    let mut i: usize = ms.len();
    proof {
        assert(ms@.take(ms@.len() as int) =~= ms@);
    }
    while i > 0
        invariant
            i <= ms@.len(),
            seq_find(ms@, p) == seq_find(ms@.take(i as int), p),
            forall|j: int| i <= j < ms@.len() ==> ms@[j].port != p,
        decreases i,
    {
        proof {
            assert(ms@.take(i as int).last() == ms@[i as int - 1]);
            assert(ms@.take(i as int).drop_last() =~= ms@.take(i as int - 1));
        }
        if ms[i - 1].port == p {
            return Some(i - 1);
        }
        i = i - 1;
    }
    proof {
        assert(ms@.take(0) =~= Seq::<Entry>::empty());
    }
    None
}

/// The local view of cluster membership: each known peer's heartbeat record,
/// plus the identity of the local node if it is itself a member.
#[derive(PartialEq, Debug)]
pub struct MembershipList {
    pub members: Vec<Entry>,
    pub self_port: Option<Port>,
}

impl View for MembershipList {
    type V = Map<Port, BeatCount>;

    open spec fn view(&self) -> Map<Port, BeatCount> {
        Map::new(
            |p: Port| seq_find(self.members@, p) is Some,
            |p: Port| seq_find(self.members@, p).unwrap(),
        )
    }
}

impl MembershipList {
    /// Well-formedness: each peer has at most one entry.
    pub open spec fn wf(self) -> bool {
        unique_ports(self.members@)
    }

    /// How many members there are besides the local node itself.
    pub open spec fn spec_peer_count(self) -> int {
        self.members@.len() - (match self.self_port {
            Some(sp) => if seq_find(self.members@, sp) is Some {
                1int
            } else {
                0int
            },
            None => 0int,
        })
    }

    /// A view made of the given entries, marking `port` as the local node.
    pub fn new(members: Vec<Entry>, port: Option<Port>) -> (r: Self)
        requires
            unique_ports(members@),
        ensures
            r.wf(),
            r.members@ == members@,
            r.self_port == port,
    {
        MembershipList { members, self_port: port }
    }

    /// The record stored for `p`, if any.
    pub fn lookup(&self, p: Port) -> (r: Option<BeatCount>)
        ensures
            r == seq_find(self.members@, p),
            r is Some <==> self@.dom().contains(p),
            r is Some ==> r.unwrap() == self@[p],
    {
        match find_port(&self.members, p) {
            Some(i) => Some(self.members[i].record),
            None => None,
        }
    }

    /// How many peers the view holds, the local node included.
    pub fn len(&self) -> (r: usize)
        ensures
            r == self.members@.len(),
    {
        self.members.len()
    }

    /// True when the view is well formed; a view decoded from the network is
    /// checked with this before it is merged.
    pub fn check_wf(&self) -> (r: bool)
        ensures
            r == self.wf(),
    {
        let n = self.members.len();
        let mut i: usize = 0;
        while i < n
            invariant
                n == self.members@.len(),
                i <= n,
                forall|a: int, b: int|
                    0 <= a < b < n && a < i ==> self.members@[a].port != self.members@[b].port,
            decreases n - i,
        {
            let mut j: usize = i + 1;
            while j < n
                invariant
                    n == self.members@.len(),
                    i < j <= n,
                    forall|b: int| i < b < j ==> self.members@[i as int].port != self.members@[b].port,
                decreases n - j,
            {
                if self.members[i].port == self.members[j].port {
                    return false;
                }
                j = j + 1;
            }
            i = i + 1;
        }
        true
    }

    /// Evict every stale entry other than the local node's own, judging
    /// staleness at the given time.
    pub fn sweep_at(&mut self, now: i64)
        requires
            old(self).wf(),
        ensures
            final(self).wf(),
            final(self).self_port == old(self).self_port,
            final(self)@ == spec_sweep(old(self)@, old(self).self_port, now),
    {
        let ghost s = self.members@;
        let ghost sp = self.self_port;
        let mut kept: Vec<Entry> = Vec::new();
        let mut i: usize = 0;
        while i < self.members.len()
            invariant
                self.members@ == s,
                self.self_port == sp,
                unique_ports(s),
                i <= s.len(),
                unique_ports(kept@),
                forall|p: Port| #![auto]
                    seq_find(kept@, p) == (match seq_find(s.take(i as int), p) {
                        Some(r) => if keeps(sp, p, r, now) {
                            Some(r)
                        } else {
                            None::<BeatCount>
                        },
                        None => None::<BeatCount>,
                    }),
            decreases s.len() - i,
        {
            let e = self.members[i];
            proof {
                assert(s.take(i as int + 1).last() == s[i as int]);
                assert(s.take(i as int + 1).drop_last() =~= s.take(i as int));
                lemma_seq_find_occurrence(s.take(i as int), e.port);
            }
            let is_self = match self.self_port {
                Some(sp_val) => sp_val == e.port,
                None => false,
            };
            if is_self || !is_stale_at(e.record.get_timestamp(), now) {
                proof {
                    lemma_seq_find_occurrence(kept@, e.port);
                    assert forall|p: Port| #![auto]
                        seq_find(kept@.push(e), p) == (match seq_find(s.take(i as int + 1), p) {
                            Some(r) => if keeps(sp, p, r, now) {
                                Some(r)
                            } else {
                                None::<BeatCount>
                            },
                            None => None::<BeatCount>,
                        }) by {
                        lemma_seq_find_push(kept@, e, p);
                    }
                    assert forall|a: int, b: int| 0 <= a < b < kept@.push(e).len() implies kept@.push(
                        e,
                    )[a].port != kept@.push(e)[b].port by {
                        if b == kept@.len() {
                            if kept@[a].port == e.port {
                                assert(seq_find(kept@, e.port) is Some) by {
                                    lemma_seq_find_occurrence(kept@, e.port);
                                }
                            }
                        }
                    }
                }
                kept.push(e);
            } else {
                proof {
                    assert forall|p: Port| #![auto]
                        seq_find(kept@, p) == (match seq_find(s.take(i as int + 1), p) {
                            Some(r) => if keeps(sp, p, r, now) {
                                Some(r)
                            } else {
                                None::<BeatCount>
                            },
                            None => None::<BeatCount>,
                        }) by {}
                }
            }
            i = i + 1;
        }
        proof {
            assert(s.take(s.len() as int) =~= s);
        }
        self.members = kept;
        proof {
            assert(self@ =~= spec_sweep(old(self)@, old(self).self_port, now));
        }
    }

    /// Reconcile a remote view into this one, judging freshness at the given
    /// time, then sweep. For a known peer a higher remote counter wins; the
    /// entry for the sender itself takes one extra heartbeat step; an unknown
    /// peer is admitted only while its join announcement is still fresh.
    pub fn merge_at(&mut self, remote: &MembershipList, sender: Port, now: i64)
        requires
            old(self).wf(),
            remote.wf(),
        ensures
            final(self).wf(),
            final(self).self_port == old(self).self_port,
            final(self)@ == merged_view(
                old(self)@,
                remote.members@,
                old(self).self_port,
                sender,
                now,
            ),
    {
        let ghost m0 = self@;
        let ghost rs = remote.members@;
        let n = remote.members.len();
        let mut k: usize = 0;
        proof {
            assert(rs.take(0) =~= Seq::<Entry>::empty());
        }
        while k < n
            invariant
                self.wf(),
                self.self_port == old(self).self_port,
                remote.wf(),
                rs == remote.members@,
                n == rs.len(),
                k <= n,
                self@ == spec_merge(m0, rs.take(k as int), sender, now),
                m0 == old(self)@,
            decreases n - k,
        {
            let ghost prev = self@;
            let ghost pre_members = self.members@;
            let e = remote.members[k];
            proof {
                assert(rs.take(k as int + 1).last() == rs[k as int]);
                assert(rs.take(k as int + 1).drop_last() =~= rs.take(k as int));
            }
            match find_port(&self.members, e.port) {
                Some(i) => {
                    let mut rec = self.members[i].record;
                    if e.record.get_count() > rec.get_count() {
                        rec = BeatCount::from_parts(e.record.get_count(), now);
                    }
                    if e.port == sender {
                        rec.increment_and_touch_at(now);
                    }
                    proof {
                        assert(prev.dom().contains(e.port));
                        assert(prev[e.port] == pre_members[i as int].record);
                        assert(rec == merged_record(prev[e.port], e.record, e.port == sender, now));
                    }
                    self.members[i] = Entry { port: e.port, record: rec };
                    proof {
                        assert(self.members@ == pre_members.update(
                            i as int,
                            Entry { port: e.port, record: rec },
                        ));
                        assert forall|p: Port| #![auto]
                            seq_find(self.members@, p) == (if e.port == p {
                                Some(rec)
                            } else {
                                seq_find(pre_members, p)
                            }) by {
                            lemma_seq_find_update(
                                pre_members,
                                i as int,
                                Entry { port: e.port, record: rec },
                                p,
                            );
                        }
                        assert forall|a: int, b: int|
                            0 <= a < b < self.members@.len() implies self.members@[a].port
                            != self.members@[b].port by {
                            assert(pre_members[a].port != pre_members[b].port);
                        }
                        assert(self@ =~= prev.insert(e.port, rec));
                    }
                },
                None => {
                    proof {
                        assert(!prev.dom().contains(e.port));
                    }
                    if is_fresh_at(e.record.get_timestamp(), now) {
                        self.members.push(e);
                        proof {
                            assert forall|p: Port| #![auto]
                                seq_find(self.members@, p) == (if e.port == p {
                                    Some(e.record)
                                } else {
                                    seq_find(pre_members, p)
                                }) by {
                                lemma_seq_find_push(pre_members, e, p);
                            }
                            assert forall|a: int, b: int|
                                0 <= a < b < self.members@.len() implies self.members@[a].port
                                != self.members@[b].port by {
                                if b == pre_members.len() {
                                    assert(pre_members[a].port != e.port);
                                }
                            }
                            assert(self@ =~= prev.insert(e.port, e.record));
                        }
                    }
                },
            }
            k = k + 1;
        }
        proof {
            assert(rs.take(n as int) =~= rs);
        }
        self.sweep_at(now);
    }

    /// Reconcile a remote view sent by `sender` into this one, judging
    /// freshness against the wall clock, then sweep.
    pub fn merge(&mut self, remote: &MembershipList, sender: Port)
        requires
            old(self).wf(),
            remote.wf(),
        ensures
            final(self).wf(),
            final(self).self_port == old(self).self_port,
            exists|now: i64|
                final(self)@ == merged_view(
                    old(self)@,
                    remote.members@,
                    old(self).self_port,
                    sender,
                    now,
                ),
    {
        let now = now_seconds();
        self.merge_at(remote, sender, now);
    }

    /// Evict every stale entry other than the local node's own, judging
    /// staleness against the wall clock.
    pub fn sweep(&mut self)
        requires
            old(self).wf(),
        ensures
            final(self).wf(),
            final(self).self_port == old(self).self_port,
            exists|now: i64| final(self)@ == spec_sweep(old(self)@, old(self).self_port, now),
    {
        let now = now_seconds();
        self.sweep_at(now);
    }

    /// A view seeded from a list of peer ports, every counter zero and every
    /// entry seen now; duplicate ports in the seed collapse to one entry.
    pub fn from_seed(ports: &Vec<Port>, self_port: Option<Port>) -> (r: Self)
        ensures
            r.wf(),
            r.self_port == self_port,
            forall|q: Port| #![auto] r@.dom().contains(q) <==> ports@.contains(q),
            exists|now: i64| seeded_at(r@, now),
    {
        let now = now_seconds();
        let mut ms: Vec<Entry> = Vec::new();
        let mut i: usize = 0;
        proof {
            assert(ports@.take(0) =~= Seq::<Port>::empty());
        }
        while i < ports.len()
            invariant
                i <= ports@.len(),
                unique_ports(ms@),
                forall|q: Port| #![auto]
                    (seq_find(ms@, q) is Some) <==> ports@.take(i as int).contains(q),
                forall|q: Port| #![auto]
                    (seq_find(ms@, q) is Some) ==> seq_find(ms@, q).unwrap() == BeatCount(
                        0,
                        TimeStamp(now),
                    ),
            decreases ports@.len() - i,
        {
            let p = ports[i];
            proof {
                assert(ports@.take(i as int + 1) =~= ports@.take(i as int).push(p));
            }
            match find_port(&ms, p) {
                Some(_) => {
                    proof {
                        assert forall|q: Port| #![auto]
                            (seq_find(ms@, q) is Some) <==> ports@.take(i as int + 1).contains(
                                q,
                            ) by {
                            lemma_push_contains(ports@.take(i as int), p, q);
                        }
                    }
                },
                None => {
                    let e = Entry { port: p, record: BeatCount::from_parts(0, now) };
                    let ghost pre = ms@;
                    ms.push(e);
                    proof {
                        assert forall|q: Port| #![auto]
                            seq_find(ms@, q) == (if q == p {
                                Some(e.record)
                            } else {
                                seq_find(pre, q)
                            }) by {
                            lemma_seq_find_push(pre, e, q);
                        }
                        assert forall|q: Port| #![auto]
                            (seq_find(ms@, q) is Some) <==> ports@.take(i as int + 1).contains(
                                q,
                            ) by {
                            lemma_push_contains(ports@.take(i as int), p, q);
                        }
                        assert forall|a: int, b: int|
                            0 <= a < b < ms@.len() implies ms@[a].port != ms@[b].port by {
                            if b == pre.len() {
                                if pre[a].port == p {
                                    lemma_seq_find_occurrence(pre, p);
                                }
                            }
                        }
                    }
                },
            }
            i = i + 1;
        }
        proof {
            assert(ports@.take(ports@.len() as int) =~= ports@);
        }
        let r = MembershipList { members: ms, self_port };
        proof {
            assert(seeded_at(r@, now));
        }
        r
    }

    /// A copy of the view, entry for entry.
    pub fn snapshot(&self) -> (r: Self)
        ensures
            r.members@ == self.members@,
            r.self_port == self.self_port,
            r@ == self@,
    {
        let mut ms: Vec<Entry> = Vec::new();
        let mut i: usize = 0;
        while i < self.members.len()
            invariant
                i <= self.members@.len(),
                ms@ == self.members@.take(i as int),
            decreases self.members@.len() - i,
        {
            let e = self.members[i];
            proof {
                assert(self.members@.take(i as int + 1) =~= self.members@.take(i as int).push(e));
            }
            ms.push(e);
            i = i + 1;
        }
        proof {
            assert(self.members@.take(self.members@.len() as int) =~= self.members@);
        }
        let r = MembershipList { members: ms, self_port: self.self_port };
        proof {
            assert(r@ =~= self@);
        }
        r
    }

    /// The ports the view may gossip to: every member except the local node
    /// itself, in view order.
    pub fn candidates(&self) -> (r: Vec<Port>)
        requires
            self.wf(),
        ensures
            forall|a: int, b: int| 0 <= a < b < r@.len() ==> r@[a] != r@[b],
            forall|q: Port| #![auto]
                r@.contains(q) <==> (self@.dom().contains(q) && self.self_port != Some(q)),
            r@.len() == self.spec_peer_count(),
    {
        let ghost s = self.members@;
        let ghost sp = self.self_port;
        let mut r: Vec<Port> = Vec::new();
        let mut i: usize = 0;
        proof {
            assert(s.take(0) =~= Seq::<Entry>::empty());
        }
        while i < self.members.len()
            invariant
                s == self.members@,
                sp == self.self_port,
                unique_ports(s),
                i <= s.len(),
                forall|a: int, b: int| 0 <= a < b < r@.len() ==> r@[a] != r@[b],
                forall|q: Port| #![auto]
                    r@.contains(q) <==> (seq_find(s.take(i as int), q) is Some && sp != Some(q)),
                r@.len() == i - (match sp {
                    Some(sv) => if seq_find(s.take(i as int), sv) is Some {
                        1int
                    } else {
                        0int
                    },
                    None => 0int,
                }),
            decreases s.len() - i,
        {
            let e = self.members[i];
            proof {
                assert(s.take(i as int + 1).last() == s[i as int]);
                assert(s.take(i as int + 1).drop_last() =~= s.take(i as int));
                lemma_seq_find_occurrence(s.take(i as int), e.port);
            }
            let is_self = match self.self_port {
                Some(sv) => sv == e.port,
                None => false,
            };
            if !is_self {
                let ghost pre = r@;
                r.push(e.port);
                proof {
                    assert forall|q: Port| #![auto]
                        r@.contains(q) <==> (seq_find(s.take(i as int + 1), q) is Some && sp
                            != Some(q)) by {
                        lemma_push_contains(pre, e.port, q);
                    }
                    assert forall|a: int, b: int| 0 <= a < b < r@.len() implies r@[a] != r@[b] by {
                        if b == pre.len() {
                            if pre[a] == e.port {
                                assert(pre.contains(e.port));
                            }
                        }
                    }
                }
            }
            i = i + 1;
        }
        proof {
            assert(s.take(s.len() as int) =~= s);
        }
        r
    }

    /// Up to two distinct gossip targets sampled at random from the view,
    /// never the local node itself.
    pub fn get_random(&self) -> (r: Vec<Port>)
        requires
            self.wf(),
        ensures
            forall|a: int|
                0 <= a < r@.len() ==> self@.dom().contains(r@[a]) && self.self_port != Some(
                    r@[a],
                ),
            forall|a: int, b: int| 0 <= a < b < r@.len() ==> r@[a] != r@[b],
            r@.len() == (if self.spec_peer_count() < 2 {
                self.spec_peer_count()
            } else {
                2int
            }),
    {
        let c = self.candidates();
        let r = sample_two(&c);
        proof {
            assert forall|a: int|
                0 <= a < r@.len() implies self@.dom().contains(r@[a]) && self.self_port != Some(
                r@[a],
            ) by {
                assert(c@.contains(r@[a]));
            }
        }
        r
    }
}

/// Relies on rand: `IteratorRandom::choose_multiple` collects `min(2, n)`
/// elements of the iterator, drawn from distinct positions, so distinct
/// inputs give a duplicate-free sample. Nothing is assumed about which
/// elements are chosen.
#[verifier::external_body]
fn sample_two(v: &Vec<Port>) -> (r: Vec<Port>)
    requires
        forall|a: int, b: int| 0 <= a < b < v@.len() ==> v@[a] != v@[b],
    ensures
        r@.len() == (if v@.len() < 2 {
            v@.len() as int
        } else {
            2int
        }),
        forall|a: int| 0 <= a < r@.len() ==> v@.contains(r@[a]),
        forall|a: int, b: int| 0 <= a < b < r@.len() ==> r@[a] != r@[b],
{
    let mut rng = rand::thread_rng();
    v.iter().cloned().choose_multiple(&mut rng, 2)
}

/// A gossip datagram: a full membership snapshot, a free-form informational
/// string, or an error string. Only the snapshot case drives the protocol.
#[derive(PartialEq, Debug)]
pub enum Message {
    MemList(MembershipList),
    Data(String),
    Error(String),
}

/// Apply one received gossip message to the view: a membership snapshot from
/// a known sender is merged (and the view swept); the diagnostic cases leave
/// the view untouched.
pub fn process_message(message: &Message, view: &mut MembershipList, sender: Option<Port>)
    requires
        old(view).wf(),
        message matches Message::MemList(m) ==> m.wf() && sender is Some,
    ensures
        final(view).wf(),
        final(view).self_port == old(view).self_port,
        match message {
            Message::MemList(m) => exists|now: i64|
                final(view)@ == merged_view(
                    old(view)@,
                    m.members@,
                    old(view).self_port,
                    sender.unwrap(),
                    now,
                ),
            _ => *final(view) == *old(view),
        },
{
    match message {
        Message::MemList(m) => {
            match sender {
                Some(s) => {
                    view.merge(m, s);
                },
                None => {
                    proof {
                        assert(false);
                    }
                },
            }
        },
        _ => {},
    }
}

} // verus!
