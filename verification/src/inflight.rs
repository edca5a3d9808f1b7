//! The requests that were sent and have not come to an outcome yet, oldest
//! first.

use vstd::prelude::*;

verus! {

/// One request awaiting its outcome: its sequence number and the time, in
/// microseconds, at which it was sent.
#[derive(Debug, Clone, Copy, PartialEq, Eq, Structural)]
pub struct InFlight {
    pub seq: u32,
    pub sent_at: u64,
}

/// The sixteen bits of a sequence number that travel in an ICMP message.
pub open spec fn wire_seq(seq: u32) -> u16 {
    (seq % 0x1_0000) as u16
}

/// Whether a request has waited longer than `timeout` microseconds by `now`.
pub open spec fn is_expired(entry: InFlight, now: u64, timeout: u32) -> bool {
    now - entry.sent_at > timeout
}

/// Later entries have larger sequence numbers and were not sent earlier.
pub open spec fn ordered(s: Seq<InFlight>) -> bool {
    forall|i: int, j: int|
        0 <= i < j < s.len() ==> s[i].seq < s[j].seq && s[i].sent_at <= s[j].sent_at
}

/// The index of the first entry that `pred` holds of, or the length of `s`
/// where it holds of none.
pub open spec fn first_index(s: Seq<InFlight>, pred: spec_fn(InFlight) -> bool) -> int
    decreases s.len(),
{
    if s.len() == 0 || pred(s[0]) {
        0
    } else {
        1 + first_index(s.skip(1), pred)
    }
}

/// Holds of the entries whose sequence number travels as `wire`.
pub open spec fn has_wire(wire: u16) -> spec_fn(InFlight) -> bool {
    |entry: InFlight| wire_seq(entry.seq) == wire
}

/// Holds of the entry with the sequence number `seq`.
pub open spec fn has_seq(seq: u32) -> spec_fn(InFlight) -> bool {
    |entry: InFlight| entry.seq == seq
}

/// Holds of the entries that have not waited longer than `timeout` by `now`.
pub open spec fn is_fresh(now: u64, timeout: u32) -> spec_fn(InFlight) -> bool {
    |entry: InFlight| !is_expired(entry, now, timeout)
}

/// How many entries at the front have waited longer than `timeout` by `now`.
pub open spec fn expired_count(s: Seq<InFlight>, now: u64, timeout: u32) -> int {
    first_index(s, is_fresh(now, timeout))
}

/// An index below which `pred` holds of nothing, and which is the length or
/// holds an entry that `pred` holds of, is the first index.
pub proof fn lemma_first_index_unique(s: Seq<InFlight>, pred: spec_fn(InFlight) -> bool, i: int)
    requires
        0 <= i <= s.len(),
        forall|j: int| 0 <= j < i ==> !pred(#[trigger] s[j]),
        i < s.len() ==> pred(s[i]),
    ensures
        first_index(s, pred) == i,
    decreases s.len(),
{
    if s.len() == 0 || pred(s[0]) {
        if i > 0 {
            assert(!pred(s[0]));
        }
    } else {
        let rest: Seq<InFlight> = s.skip(1);
        assert forall|j: int| 0 <= j < i - 1 implies !pred(#[trigger] rest[j]) by {
            assert(rest[j] == s[j + 1]);
        }
        lemma_first_index_unique(rest, pred, i - 1);
    }
}

/// The first index lies within the sequence or at its end, `pred` holds of
/// nothing before it, and of the entry at it.
pub proof fn lemma_first_index_is_first(s: Seq<InFlight>, pred: spec_fn(InFlight) -> bool)
    ensures
        0 <= first_index(s, pred) <= s.len(),
        forall|j: int| 0 <= j < first_index(s, pred) ==> !pred(#[trigger] s[j]),
        first_index(s, pred) < s.len() ==> pred(s[first_index(s, pred)]),
    decreases s.len(),
{
    if s.len() == 0 || pred(s[0]) {
    } else {
        let rest: Seq<InFlight> = s.skip(1);
        lemma_first_index_is_first(rest, pred);
        let k: int = first_index(rest, pred);
        assert forall|j: int| 0 <= j < k + 1 implies !pred(#[trigger] s[j]) by {
            if j > 0 {
                assert(rest[j - 1] == s[j]);
            }
        }
        if k < rest.len() {
            assert(rest[k] == s[k + 1]);
        }
    }
}

/// In an ordered table the entries that have waited too long stand together at
/// the front: behind them nothing has expired.
pub proof fn lemma_expired_stand_in_front(s: Seq<InFlight>, now: u64, timeout: u32)
    requires
        ordered(s),
    ensures
        forall|i: int|
            expired_count(s, now, timeout) <= i < s.len() ==> !is_expired(
                #[trigger] s[i],
                now,
                timeout,
            ),
        forall|i: int|
            0 <= i < expired_count(s, now, timeout) ==> is_expired(#[trigger] s[i], now, timeout),
{
    lemma_first_index_is_first(s, is_fresh(now, timeout));
    let k: int = expired_count(s, now, timeout);
    assert forall|i: int| k <= i < s.len() implies !is_expired(#[trigger] s[i], now, timeout) by {
        assert(is_fresh(now, timeout)(s[k]));
        assert(s[k].sent_at <= s[i].sent_at);
    }
    assert forall|i: int| 0 <= i < k implies is_expired(#[trigger] s[i], now, timeout) by {
        assert(!is_fresh(now, timeout)(s[i]));
    }
}

/// Removing entries keeps a table ordered.
pub proof fn lemma_ordered_remove(s: Seq<InFlight>, i: int)
    requires
        ordered(s),
        0 <= i < s.len(),
    ensures
        ordered(s.remove(i)),
{
    let t: Seq<InFlight> = s.remove(i);
    assert forall|a: int, b: int| 0 <= a < b < t.len() implies t[a].seq < t[b].seq && t[a].sent_at
        <= t[b].sent_at by {
        let a0: int = if a < i {
            a
        } else {
            a + 1
        };
        let b0: int = if b < i {
            b
        } else {
            b + 1
        };
        assert(t[a] == s[a0]);
        assert(t[b] == s[b0]);
    }
}

/// The table of requests in flight.
pub struct InFlightTable {
    entries: Vec<InFlight>,
}

impl View for InFlightTable {
    type V = Seq<InFlight>;

    closed spec fn view(&self) -> Seq<InFlight> {
        self.entries@
    }
}

impl InFlightTable {
    /// The entries are ordered.
    pub open spec fn wf(&self) -> bool {
        ordered(self@)
    }

    /// A table with nothing in flight.
    pub fn new() -> (table: InFlightTable)
        ensures
            table@ == Seq::<InFlight>::empty(),
            table.wf(),
    {
        InFlightTable { entries: Vec::new() }
    }

    /// How many requests are in flight.
    pub fn len(&self) -> (n: usize)
        ensures
            n == self@.len(),
    {
        self.entries.len()
    }

    /// Whether nothing is in flight.
    pub fn is_empty(&self) -> (empty: bool)
        ensures
            empty == (self@.len() == 0),
    {
        self.entries.len() == 0
    }

    /// Enters a request that was just sent. It must be newer than all that
    /// are in flight.
    pub fn record(&mut self, seq: u32, sent_at: u64)
        requires
            old(self).wf(),
            old(self)@.len() > 0 ==> old(self)@.last().seq < seq && old(self)@.last().sent_at
                <= sent_at,
        ensures
            final(self)@ == old(self)@.push(InFlight { seq, sent_at }),
            final(self).wf(),
    {
        self.entries.push(InFlight { seq, sent_at });
        proof {
            let before: Seq<InFlight> = old(self)@;
            let after: Seq<InFlight> = self@;
            assert forall|i: int, j: int| 0 <= i < j < after.len() implies after[i].seq
                < after[j].seq && after[i].sent_at <= after[j].sent_at by {
                if j == before.len() && i < before.len() - 1 {
                    assert(before[i].seq < before[before.len() - 1].seq);
                }
            }
        }
    }

    /// Takes out the oldest request whose sequence number travels as `wire`.
    pub fn take_by_wire(&mut self, wire: u16) -> (found: Option<InFlight>)
        requires
            old(self).wf(),
        ensures
            final(self).wf(),
            ({
                let at: int = first_index(old(self)@, has_wire(wire));
                if at < old(self)@.len() {
                    found == Some(old(self)@[at]) && final(self)@ == old(self)@.remove(at)
                } else {
                    found.is_none() && final(self)@ == old(self)@
                }
            }),
    {
        let mut i: usize = 0;
        while i < self.entries.len()
            invariant
                old(self).wf(),
                self.entries@ == old(self)@,
                i <= self.entries.len(),
                forall|j: int| 0 <= j < i ==> !has_wire(wire)(#[trigger] self.entries@[j]),
            decreases self.entries.len() - i,
        {
            if (self.entries[i].seq % 0x1_0000) as u16 == wire {
                proof {
                    lemma_first_index_unique(old(self)@, has_wire(wire), i as int);
                    lemma_ordered_remove(old(self)@, i as int);
                }
                let entry: InFlight = self.entries.remove(i);
                return Some(entry);
            }
            i = i + 1;
        }
        proof {
            lemma_first_index_unique(old(self)@, has_wire(wire), i as int);
        }
        None
    }

    /// Takes out the request with the sequence number `seq`.
    pub fn take_by_seq(&mut self, seq: u32) -> (found: Option<InFlight>)
        requires
            old(self).wf(),
        ensures
            final(self).wf(),
            ({
                let at: int = first_index(old(self)@, has_seq(seq));
                if at < old(self)@.len() {
                    found == Some(old(self)@[at]) && final(self)@ == old(self)@.remove(at)
                } else {
                    found.is_none() && final(self)@ == old(self)@
                }
            }),
    {
        let mut i: usize = 0;
        while i < self.entries.len()
            invariant
                old(self).wf(),
                self.entries@ == old(self)@,
                i <= self.entries.len(),
                forall|j: int| 0 <= j < i ==> !has_seq(seq)(#[trigger] self.entries@[j]),
            decreases self.entries.len() - i,
        {
            if self.entries[i].seq == seq {
                proof {
                    lemma_first_index_unique(old(self)@, has_seq(seq), i as int);
                    lemma_ordered_remove(old(self)@, i as int);
                }
                let entry: InFlight = self.entries.remove(i);
                return Some(entry);
            }
            i = i + 1;
        }
        proof {
            lemma_first_index_unique(old(self)@, has_seq(seq), i as int);
        }
        None
    }

    /// Takes out the oldest request.
    pub fn take_oldest(&mut self) -> (found: Option<InFlight>)
        requires
            old(self).wf(),
        ensures
            final(self).wf(),
            old(self)@.len() == 0 ==> found.is_none() && final(self)@ == old(self)@,
            old(self)@.len() > 0 ==> found == Some(old(self)@[0]) && final(self)@ == old(self)@.skip(
                1,
            ),
    {
        if self.entries.len() == 0 {
            None
        } else {
            proof {
                lemma_ordered_remove(old(self)@, 0);
                assert(old(self)@.remove(0) =~= old(self)@.skip(1));
            }
            let entry: InFlight = self.entries.remove(0);
            Some(entry)
        }
    }

    /// Takes out the requests that have waited longer than `timeout`
    /// microseconds by `now`, oldest first.
    pub fn take_expired(&mut self, now: u64, timeout: u32) -> (gone: Vec<InFlight>)
        requires
            old(self).wf(),
        ensures
            final(self).wf(),
            gone@ == old(self)@.take(expired_count(old(self)@, now, timeout)),
            final(self)@ == old(self)@.skip(expired_count(old(self)@, now, timeout)),
    {
        let mut i: usize = 0;
        while i < self.entries.len() && self.entries[i].sent_at < now && now - self.entries[i].sent_at
            > timeout as u64
            invariant
                self.entries@ == old(self)@,
                i <= self.entries.len(),
                forall|j: int|
                    0 <= j < i ==> !is_fresh(now, timeout)(#[trigger] self.entries@[j]),
            decreases self.entries.len() - i,
        {
            i = i + 1;
        }
        proof {
            lemma_first_index_unique(old(self)@, is_fresh(now, timeout), i as int);
        }
        let mut rest: Vec<InFlight> = self.entries.split_off(i);
        std::mem::swap(&mut self.entries, &mut rest);
        proof {
            let kept: Seq<InFlight> = self@;
            assert(kept =~= old(self)@.skip(i as int));
            assert forall|a: int, b: int| 0 <= a < b < kept.len() implies kept[a].seq < kept[b].seq
                && kept[a].sent_at <= kept[b].sent_at by {
                assert(kept[a] == old(self)@[a + i]);
                assert(kept[b] == old(self)@[b + i]);
            }
            assert(rest@ =~= old(self)@.take(i as int));
        }
        rest
    }

    /// Takes out everything, oldest first.
    pub fn take_all(&mut self) -> (gone: Vec<InFlight>)
        ensures
            gone@ == old(self)@,
            final(self)@ == Seq::<InFlight>::empty(),
            final(self).wf(),
    {
        let mut gone: Vec<InFlight> = Vec::new();
        std::mem::swap(&mut self.entries, &mut gone);
        gone
    }
}

} // verus!
