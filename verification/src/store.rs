//! The message store's contract as an in-memory model: an append-only log
//! of `(room, content, sent_at)` rows with non-decreasing timestamps, and a
//! per-room fetch that returns rows in timestamp order. The on-disk store
//! behind the unverified collaborator must behave like this.

use vstd::prelude::*;

verus! {

/// One stored chat message: the room it was sent to, its text, and the
/// timestamp the store assigned on append.
pub struct StoredMessage {
    pub room: String,
    pub content: String,
    pub sent_at: u64,
}

/// Timestamps never decrease along the sequence.
pub open spec fn ts_sorted(s: Seq<StoredMessage>) -> bool {
    forall|i: int, j: int| 0 <= i < j < s.len() ==> s[i].sent_at <= s[j].sent_at
}

/// The rows a fetch for `room` returns: the log restricted to that room,
/// in log order.
pub open spec fn fetch_view(rows: Seq<StoredMessage>, room: Seq<char>) -> Seq<StoredMessage> {
    rows.filter(|m: StoredMessage| m.room@ == room)
}

/// The append-only message log.
pub struct MessageLog {
    pub rows: Vec<StoredMessage>,
}

impl MessageLog {
    /// Rows were appended with a clock that never ran backwards.
    pub open spec fn wf(self) -> bool {
        ts_sorted(self.rows@)
    }

    /// An empty log.
    pub fn new() -> (s: Self)
        ensures
            s.wf(),
            s.rows@.len() == 0,
    {
        MessageLog { rows: Vec::new() }
    }

    /// Append one row, timestamped `now_ms` by the store's clock; the clock
    /// never reads earlier than a timestamp it already assigned.
    pub fn store(&mut self, room: String, content: String, now_ms: u64)
        requires
            old(self).wf(),
            forall|i: int|
                0 <= i < old(self).rows@.len() ==> (#[trigger] old(self).rows@[i]).sent_at
                    <= now_ms,
        ensures
            final(self).wf(),
            final(self).rows@ == old(self).rows@.push(
                (StoredMessage { room, content, sent_at: now_ms }),
            ),
    {
        self.rows.push(StoredMessage { room, content, sent_at: now_ms });
    }

    /// All rows stored under `room`, in the order they were appended, which
    /// is non-decreasing timestamp order.
    pub fn fetch_by_room(&self, room: &str) -> (r: Vec<StoredMessage>)
        requires
            self.wf(),
        ensures
            r@ == fetch_view(self.rows@, room@),
            ts_sorted(r@),
    {
        let ghost pred = |m: StoredMessage| m.room@ == room@;
        let mut out: Vec<StoredMessage> = Vec::new();
        let mut k: usize = 0;
        while k < self.rows.len()
            invariant
                0 <= k <= self.rows@.len(),
                self.wf(),
                out@ == self.rows@.take(k as int).filter(pred),
                pred == (|m: StoredMessage| m.room@ == room@),
                forall|t: int|
                    0 <= t < out@.len() ==> exists|j: int|
                        0 <= j < k && (#[trigger] out@[t]) == self.rows@[j],
            decreases self.rows@.len() - k,
        {
            let ghost out0 = out@;
            let hit = crate::text::str_eq(self.rows[k].room.as_str(), room);
            if hit {
                let row = StoredMessage {
                    room: self.rows[k].room.clone(),
                    content: self.rows[k].content.clone(),
                    sent_at: self.rows[k].sent_at,
                };
                proof {
                    assert(row == self.rows@[k as int]);
                }
                out.push(row);
            }
            proof {
                reveal(Seq::filter);
                assert(self.rows@.take(k as int + 1).drop_last() =~= self.rows@.take(k as int));
                assert(self.rows@.take(k as int + 1).last() == self.rows@[k as int]);
                assert(out@ == self.rows@.take(k as int + 1).filter(pred));
                assert forall|t: int| 0 <= t < out@.len() implies exists|j: int|
                    0 <= j < k + 1 && (#[trigger] out@[t]) == self.rows@[j] by {
                    if t < out0.len() {
                        let j = choose|j: int| 0 <= j < k && (#[trigger] out0[t]) == self.rows@[j];
                        assert(out@[t] == self.rows@[j]);
                    } else {
                        assert(out@[t] == self.rows@[k as int]);
                    }
                }
            }
            k += 1;
        }
        proof {
            assert(self.rows@.take(self.rows@.len() as int) =~= self.rows@);
            assert forall|i: int, j: int| 0 <= i < j < out@.len() implies out@[i].sent_at
                <= out@[j].sent_at by {
                let a = choose|a: int| 0 <= a < self.rows@.len() && (#[trigger] out@[i]) == self.rows@[a];
                let b = choose|b: int| 0 <= b < self.rows@.len() && (#[trigger] out@[j]) == self.rows@[b];
                if a == b {
                } else if a < b {
                } else {
                    // filter keeps log order, so the earlier output row
                    // comes from an earlier log position
                    lemma_filter_ordered(self.rows@, pred, i, j);
                }
            }
        }
        out
    }
}

/// A filtered sequence keeps the underlying order: the positions two output
/// rows come from can be chosen in order.
proof fn lemma_filter_ordered(
    s: Seq<StoredMessage>,
    pred: spec_fn(StoredMessage) -> bool,
    i: int,
    j: int,
)
    requires
        0 <= i < j < s.filter(pred).len(),
        ts_sorted(s),
    ensures
        s.filter(pred)[i].sent_at <= s.filter(pred)[j].sent_at,
    decreases s.len(),
{
    reveal(Seq::filter);
    if s.len() > 0 {
        let last = s.last();
        let rest = s.drop_last();
        if pred(last) {
            if j < s.filter(pred).len() - 1 {
                lemma_filter_ordered(rest, pred, i, j);
            } else {
                // the last output row is the last matching log row; any
                // earlier output row comes from the earlier log
                if i < s.filter(pred).len() - 1 {
                    lemma_filter_element_from(rest, pred, i);
                    let a = choose|a: int|
                        0 <= a < rest.len() && rest[a] == rest.filter(pred)[i];
                    assert(s[a] == rest[a]);
                }
            }
        } else {
            lemma_filter_ordered(rest, pred, i, j);
        }
    }
}

/// Every row of a filtered sequence occurs in the underlying sequence.
proof fn lemma_filter_element_from(s: Seq<StoredMessage>, pred: spec_fn(StoredMessage) -> bool, i: int)
    requires
        0 <= i < s.filter(pred).len(),
    ensures
        exists|a: int| 0 <= a < s.len() && s[a] == s.filter(pred)[i],
    decreases s.len(),
{
    reveal(Seq::filter);
    if s.len() > 0 {
        let rest = s.drop_last();
        if pred(s.last()) && i == s.filter(pred).len() - 1 {
            assert(s[s.len() - 1] == s.filter(pred)[i]);
        } else {
            lemma_filter_element_from(rest, pred, i);
            let a = choose|a: int| 0 <= a < rest.len() && rest[a] == rest.filter(pred)[i];
            assert(s[a] == s.filter(pred)[i]);
        }
    }
}

/// Law: a stored row is returned by a fetch for its room. Together with
/// `fetch_by_room`'s own contract (rows come back in non-decreasing
/// timestamp order), storing a message and then fetching its room yields a
/// sequence that includes the message, in timestamp order.
pub proof fn lemma_store_then_fetch(rows: Seq<StoredMessage>, m: StoredMessage)
    ensures
        fetch_view(rows.push(m), m.room@).contains(m),
        fetch_view(rows.push(m), m.room@).last() == m,
{
    reveal(Seq::filter);
    let pred = |x: StoredMessage| x.room@ == m.room@;
    assert(rows.push(m).drop_last() =~= rows);
    assert(rows.push(m).last() == m);
    assert(fetch_view(rows.push(m), m.room@) == rows.filter(pred).push(m));
    assert(fetch_view(rows.push(m), m.room@).last() == m);
    assert(fetch_view(rows.push(m), m.room@).contains(m));
}

} // verus!
