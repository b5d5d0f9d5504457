//! The chat coordinator: the single serialized owner of membership state.
//! Every mutation goes through one of the command methods; each returns the
//! broadcasts (and, for chat text, the persistence request) that the caller
//! must carry out, so the state logic itself stays pure and verified.

use vstd::prelude::*;
use crate::text::str_eq;
use crate::text::dec_str;
use crate::text::visitor_notice;
use rand::Rng;

verus! {

/// One outbound broadcast: push `text` onto connection `conn`'s channel.
pub struct Delivery {
    pub conn: u64,
    pub text: String,
}

/// One persistence request: append `content` under room `room`.
pub struct Persist {
    pub room: String,
    pub content: String,
}

/// A named room and the connections that are its members.
pub struct Room {
    pub name: String,
    pub members: Vec<u64>,
}

/// The coordinator's exclusive state: which connections exist, which room
/// each belongs to, and how many visitors have ever connected.
pub struct ChatServer {
    pub sessions: Vec<u64>,
    pub rooms: Vec<Room>,
    pub visitor_count: u64,
}

/// `d` delivers `text` to exactly the connections in `conns`, once each.
pub open spec fn delivers_exactly(d: Seq<Delivery>, conns: Set<u64>, text: Seq<char>) -> bool {
    &&& (forall|k: int| 0 <= k < d.len() ==> (#[trigger] d[k]).text@ == text)
    &&& (forall|k: int| 0 <= k < d.len() ==> conns.contains((#[trigger] d[k]).conn))
    &&& (forall|c: u64|
        #[trigger] conns.contains(c) ==> exists|k: int|
            0 <= k < d.len() && (#[trigger] d[k]).conn == c)
    &&& (forall|k1: int, k2: int|
        0 <= k1 < k2 < d.len() ==> (#[trigger] d[k1]).conn != (#[trigger] d[k2]).conn)
}

impl ChatServer {
    /// The set of connection ids the coordinator tracks.
    pub open spec fn ids(self) -> Set<u64> {
        self.sessions@.to_set()
    }

    /// Whether a room named `room` exists.
    pub open spec fn has_room(self, room: Seq<char>) -> bool {
        exists|i: int| 0 <= i < self.rooms@.len() && (#[trigger] self.rooms@[i]).name@ == room
    }

    /// The set of current room names.
    pub open spec fn room_names(self) -> Set<Seq<char>> {
        Set::new(|n: Seq<char>| self.has_room(n))
    }

    /// Whether connection `id` is a member of the room named `room`.
    pub open spec fn member_of(self, id: u64, room: Seq<char>) -> bool {
        exists|i: int|
            0 <= i < self.rooms@.len() && (#[trigger] self.rooms@[i]).name@ == room
                && self.rooms@[i].members@.contains(id)
    }

    /// Whether connection `id` sits in some room.
    pub open spec fn in_some_room(self, id: u64) -> bool {
        exists|i: int|
            0 <= i < self.rooms@.len() && (#[trigger] self.rooms@[i]).members@.contains(id)
    }

    /// The members of `room` other than `skip`: the recipients of one
    /// broadcast into that room.
    pub open spec fn recipients(self, room: Seq<char>, skip: u64) -> Set<u64> {
        Set::new(|c: u64| self.member_of(c, room) && c != skip)
    }

    /// Room names are unique and no member is listed twice in a room.
    pub open spec fn rooms_ok(self) -> bool {
        &&& (forall|i: int, j: int|
            0 <= i < j < self.rooms@.len() ==> (#[trigger] self.rooms@[i]).name@ != (
            #[trigger] self.rooms@[j]).name@)
        &&& (forall|i: int|
            0 <= i < self.rooms@.len() ==> (#[trigger] self.rooms@[i]).members@.no_duplicates())
    }

    /// The coordinator's invariant: ids are tracked once; room names are
    /// unique; members are tracked ids; every tracked id sits in exactly one
    /// room; the default room always exists.
    pub open spec fn wf(self) -> bool {
        &&& self.sessions@.no_duplicates()
        &&& self.rooms_ok()
        &&& (forall|i: int, k: int|
            0 <= i < self.rooms@.len() && 0 <= k < (#[trigger] self.rooms@[i]).members@.len()
                ==> self.sessions@.contains(#[trigger] self.rooms@[i].members@[k]))
        &&& (forall|i: int, j: int, id: u64|
            #![trigger self.rooms@[i].members@.contains(id), self.rooms@[j].members@.contains(id)]
            0 <= i < self.rooms@.len() && 0 <= j < self.rooms@.len() && i != j
                && self.rooms@[i].members@.contains(id) ==> !self.rooms@[j].members@.contains(id))
        &&& (forall|id: u64| #[trigger] self.sessions@.contains(id) ==> self.in_some_room(id))
        &&& self.has_room("main"@)
    }
}

/// Pushing a fresh element keeps a sequence duplicate-free.
proof fn lemma_push_no_dup(s: Seq<u64>, x: u64)
    requires
        s.no_duplicates(),
        !s.contains(x),
    ensures
        s.push(x).no_duplicates(),
{
    assert forall|i: int, j: int|
        0 <= i < s.push(x).len() && 0 <= j < s.push(x).len() && i != j implies s.push(x)[i]
        != s.push(x)[j] by {
        if i < s.len() && j < s.len() {
        } else if i < s.len() {
            assert(s.contains(s[i]));
        } else if j < s.len() {
            assert(s.contains(s[j]));
        }
    }
}

/// Pushing an element inserts it into the sequence's set of elements.
proof fn lemma_push_to_set(s: Seq<u64>, x: u64)
    ensures
        s.push(x).to_set() == s.to_set().insert(x),
{
    assert forall|y: u64| s.push(x).to_set().contains(y) implies s.to_set().insert(x).contains(
        y,
    ) by {
        let i = choose|i: int| 0 <= i < s.push(x).len() && s.push(x)[i] == y;
        if i < s.len() {
            assert(s[i] == y);
            assert(s.contains(y));
        }
    }
    assert forall|y: u64| s.to_set().insert(x).contains(y) implies s.push(x).to_set().contains(
        y,
    ) by {
        if y == x {
            assert(s.push(x)[s.len() as int] == y);
        } else {
            let i = choose|i: int| 0 <= i < s.len() && s[i] == y;
            assert(s.push(x)[i] == y);
        }
        assert(s.push(x).contains(y));
    }
    assert(s.push(x).to_set() =~= s.to_set().insert(x));
}

/// Removing position `k` from a duplicate-free sequence removes exactly the
/// element that sat there.
proof fn lemma_remove_at(s: Seq<u64>, k: int)
    requires
        0 <= k < s.len(),
        s.no_duplicates(),
    ensures
        s.remove(k).no_duplicates(),
        forall|y: u64| s.remove(k).contains(y) <==> s.contains(y) && y != s[k],
        s.remove(k).to_set() == s.to_set().remove(s[k]),
{
    let r = s.remove(k);
    assert forall|i: int, j: int| 0 <= i < r.len() && 0 <= j < r.len() && i != j implies r[i]
        != r[j] by {
        let si: int = if i < k { i } else { i + 1 };
        let sj: int = if j < k { j } else { j + 1 };
        assert(r[i] == s[si] && r[j] == s[sj]);
    }
    assert forall|y: u64| r.contains(y) implies s.contains(y) && y != s[k] by {
        let i = choose|i: int| 0 <= i < r.len() && r[i] == y;
        let si: int = if i < k { i } else { i + 1 };
        assert(s[si] == y);
    }
    assert forall|y: u64| s.contains(y) && y != s[k] implies r.contains(y) by {
        let i = choose|i: int| 0 <= i < s.len() && s[i] == y;
        if i < k {
            assert(r[i] == y);
        } else {
            assert(r[i - 1] == y);
        }
    }
    assert(s.remove(k).to_set() =~= s.to_set().remove(s[k]));
}

/// Whether `x` occurs in `v`.
fn contains_id(v: &Vec<u64>, x: u64) -> (b: bool)
    ensures
        b == v@.contains(x),
{
    let mut k: usize = 0;
    while k < v.len()
        invariant
            0 <= k <= v@.len(),
            forall|t: int| 0 <= t < k ==> v@[t] != x,
        decreases v@.len() - k,
    {
        if v[k] == x {
            return true;
        }
        k += 1;
    }
    false
}

/// Remove `x` from a duplicate-free vector, if present.
fn remove_value(v: &mut Vec<u64>, x: u64) -> (removed: bool)
    requires
        old(v)@.no_duplicates(),
    ensures
        final(v)@.no_duplicates(),
        removed == old(v)@.contains(x),
        forall|y: u64| final(v)@.contains(y) <==> old(v)@.contains(y) && y != x,
        final(v)@.to_set() == old(v)@.to_set().remove(x),
        !removed ==> final(v)@ == old(v)@,
    decreases old(v)@.len(),
{
    let mut k: usize = 0;
    while k < v.len()
        invariant
            0 <= k <= v@.len(),
            v@ == old(v)@,
            v@.no_duplicates(),
            forall|t: int| 0 <= t < k ==> v@[t] != x,
        decreases v@.len() - k,
    {
        if v[k] == x {
            proof {
                lemma_remove_at(v@, k as int);
            }
            v.remove(k);
            return true;
        }
        k += 1;
    }
    proof {
        assert(!v@.contains(x));
        assert(v@.to_set() =~= v@.to_set().remove(x));
    }
    false
}

impl ChatServer {
    /// A fresh coordinator: no connections, the default room, a zero count.
    pub fn new() -> (s: Self)
        ensures
            s.wf(),
            s.ids() == Set::<u64>::empty(),
            s.room_names() == set!["main"@],
            s.visitor_count == 0,
    {
        let mut rooms: Vec<Room> = Vec::new();
        rooms.push(Room { name: "main".to_owned(), members: Vec::new() });
        let s = ChatServer { sessions: Vec::new(), rooms, visitor_count: 0 };
        proof {
            assert(s.rooms@[0].name@ == "main"@);
            assert(s.ids() =~= Set::<u64>::empty());
            assert(s.room_names() =~= set!["main"@]);
        }
        s
    }

    /// Index of the room named `room`, if one exists.
    fn room_index(&self, room: &str) -> (r: Option<usize>)
        ensures
            r matches Some(i) ==> i < self.rooms@.len() && self.rooms@[i as int].name@ == room@,
            r is None ==> !self.has_room(room@),
    {
        let mut k: usize = 0;
        while k < self.rooms.len()
            invariant
                0 <= k <= self.rooms@.len(),
                forall|t: int| 0 <= t < k ==> (#[trigger] self.rooms@[t]).name@ != room@,
            decreases self.rooms@.len() - k,
        {
            if str_eq(self.rooms[k].name.as_str(), room) {
                return Some(k);
            }
            k += 1;
        }
        None
    }

    /// Index of the room that holds connection `id`, if any.
    fn find_room_of(&self, id: u64) -> (r: Option<usize>)
        ensures
            r matches Some(i) ==> i < self.rooms@.len() && self.rooms@[i as int].members@.contains(
                id,
            ),
            r is None ==> !self.in_some_room(id),
    {
        let mut k: usize = 0;
        while k < self.rooms.len()
            invariant
                0 <= k <= self.rooms@.len(),
                forall|t: int| 0 <= t < k ==> !(#[trigger] self.rooms@[t]).members@.contains(id),
            decreases self.rooms@.len() - k,
        {
            if contains_id(&self.rooms[k].members, id) {
                return Some(k);
            }
            k += 1;
        }
        None
    }

    /// Whether the coordinator tracks connection `id`.
    pub fn is_connected(&self, id: u64) -> (b: bool)
        ensures
            b == self.ids().contains(id),
    {
        contains_id(&self.sessions, id)
    }

    /// Build the broadcasts of `msg` to every member of `room` except
    /// `skip`, one delivery per recipient.
    fn send_system_message(&self, room: &str, skip: u64, msg: &str) -> (r: Vec<Delivery>)
        requires
            self.rooms_ok(),
        ensures
            delivers_exactly(r@, self.recipients(room@, skip), msg@),
    {
        let mut out: Vec<Delivery> = Vec::new();
        let ri = match self.room_index(room) {
            Some(i) => i,
            None => {
                proof {
                    assert forall|c: u64| self.recipients(room@, skip).contains(c) implies false by {
                        assert(self.member_of(c, room@));
                    }
                }
                return out;
            },
        };
        let ghost members = self.rooms@[ri as int].members@;
        let mut k: usize = 0;
        while k < self.rooms[ri].members.len()
            invariant
                ri < self.rooms@.len(),
                self.rooms@[ri as int].name@ == room@,
                self.rooms@[ri as int].members@ == members,
                0 <= k <= members.len(),
                forall|t: int| 0 <= t < out@.len() ==> (#[trigger] out@[t]).text@ == msg@,
                forall|t: int|
                    0 <= t < out@.len() ==> members.take(k as int).contains(
                        (#[trigger] out@[t]).conn,
                    ) && out@[t].conn != skip,
                forall|c: u64|
                    #[trigger] members.take(k as int).contains(c) && c != skip ==> exists|t: int|
                        0 <= t < out@.len() && (#[trigger] out@[t]).conn == c,
                forall|t1: int, t2: int|
                    0 <= t1 < t2 < out@.len() ==> (#[trigger] out@[t1]).conn != (
                    #[trigger] out@[t2]).conn,
                self.rooms_ok(),
            decreases members.len() - k,
        {
            let m = self.rooms[ri].members[k];
            let ghost out0 = out@;
            proof {
                assert(members.take(k as int + 1) =~= members.take(k as int).push(members[k as int]));
                assert forall|c: u64| members.take(k as int).contains(c) implies members.take(
                    k as int + 1,
                ).contains(c) by {
                    let t = choose|t: int|
                        0 <= t < members.take(k as int).len() && #[trigger] members.take(
                            k as int,
                        )[t] == c;
                    assert(members.take(k as int + 1)[t] == c);
                }
                assert(members.take(k as int + 1)[k as int] == members[k as int]);
                assert(members.take(k as int + 1).contains(members[k as int]));
                assert forall|c: u64| #[trigger] members.take(k as int + 1).contains(c) && c != skip
                    implies members.take(k as int).contains(c) || c == members[k as int] by {
                    let t = choose|t: int|
                        0 <= t < members.take(k as int + 1).len() && #[trigger] members.take(
                            k as int + 1,
                        )[t] == c;
                    if t < k {
                        assert(members.take(k as int)[t] == c);
                    }
                }
                if m != skip {
                    // the new recipient is not an earlier one: members has no
                    // duplicates, so members[k] is not in take(k)
                    assert forall|t: int| 0 <= t < out@.len() implies (#[trigger] out@[t]).conn
                        != m by {
                        if out@[t].conn == m {
                            let u = choose|u: int|
                                0 <= u < members.take(k as int).len() && members.take(k as int)[u]
                                    == m;
                            assert(members[u] == members[k as int]);
                        }
                    }
                }
            }
            if m != skip {
                out.push(Delivery { conn: m, text: msg.to_owned() });
            }
            proof {
                assert forall|c: u64|
                    #[trigger] members.take(k as int + 1).contains(c) && c != skip implies exists|
                    t: int,
                | 0 <= t < out@.len() && (#[trigger] out@[t]).conn == c by {
                    if c == members[k as int] {
                        assert(out@[out@.len() - 1].conn == c);
                    } else {
                        assert(members.take(k as int).contains(c));
                        let t = choose|t: int| 0 <= t < out0.len() && (#[trigger] out0[t]).conn == c;
                        assert(out@[t].conn == c);
                    }
                }
            }
            k += 1;
        }
        proof {
            assert(members.take(members.len() as int) =~= members);
            let rii = ri as int;
            assert forall|c: u64| #[trigger] self.recipients(room@, skip).contains(c) implies exists|
                t: int,
            | 0 <= t < out@.len() && (#[trigger] out@[t]).conn == c by {
                assert(self.member_of(c, room@));
                let j = choose|j: int|
                    0 <= j < self.rooms@.len() && (#[trigger] self.rooms@[j]).name@ == room@
                        && self.rooms@[j].members@.contains(c);
                if j != rii {
                    assert((#[trigger] self.rooms@[j]).name@ != self.rooms@[rii].name@);
                }
                assert(members.contains(c));
            }
            assert forall|t: int| 0 <= t < out@.len() implies self.recipients(room@, skip).contains(
                (#[trigger] out@[t]).conn,
            ) by {
                assert(members.contains(out@[t].conn));
                assert(self.member_of(out@[t].conn, room@));
            }
        }
        out
    }

    /// A snapshot of the current room names.
    pub fn list_rooms(&self) -> (r: Vec<String>)
        requires
            self.rooms_ok(),
        ensures
            r@.len() == self.rooms@.len(),
            forall|k: int| 0 <= k < r@.len() ==> (#[trigger] r@[k])@ == self.rooms@[k].name@,
            forall|k: int| 0 <= k < r@.len() ==> self.has_room((#[trigger] r@[k])@),
            forall|n: Seq<char>| self.has_room(n) ==> exists|k: int| 0 <= k < r@.len() && (#[trigger] r@[k])@ == n,
            forall|k1: int, k2: int| 0 <= k1 < k2 < r@.len() ==> (#[trigger] r@[k1])@ != (#[trigger] r@[k2])@,
    {
        let mut out: Vec<String> = Vec::new();
        let mut k: usize = 0;
        while k < self.rooms.len()
            invariant
                0 <= k <= self.rooms@.len(),
                out@.len() == k,
                forall|t: int| 0 <= t < k ==> (#[trigger] out@[t])@ == self.rooms@[t].name@,
            decreases self.rooms@.len() - k,
        {
            out.push(self.rooms[k].name.clone());
            k += 1;
        }
        proof {
            assert forall|n: Seq<char>| self.has_room(n) implies exists|t: int|
                0 <= t < out@.len() && (#[trigger] out@[t])@ == n by {
                let j = choose|j: int|
                    0 <= j < self.rooms@.len() && (#[trigger] self.rooms@[j]).name@ == n;
                assert((out@[j])@ == n);
            }
        }
        out
    }
}

/// Pushing an element onto a sequence adds exactly it to the elements.
proof fn lemma_push_contains(s: Seq<u64>, x: u64)
    ensures
        forall|y: u64| #[trigger] s.push(x).contains(y) <==> (s.contains(y) || y == x),
{
    assert forall|y: u64| #[trigger] s.push(x).contains(y) implies (s.contains(y) || y == x) by {
        let i = choose|i: int| 0 <= i < s.push(x).len() && s.push(x)[i] == y;
        if i < s.len() {
            assert(s[i] == y);
        }
    }
    assert forall|y: u64| (s.contains(y) || y == x) implies #[trigger] s.push(x).contains(y) by {
        if y == x {
            assert(s.push(x)[s.len() as int] == y);
        } else {
            let i = choose|i: int| 0 <= i < s.len() && s[i] == y;
            assert(s.push(x)[i] == y);
        }
    }
}

impl ChatServer {
    /// The room that holds connection `id`; meaningful only when some room
    /// does.
    pub open spec fn the_room_of(self, id: u64) -> Seq<char> {
        choose|rn: Seq<char>| self.member_of(id, rn)
    }
}

/// In a well-formed state a connection sits in at most one room, so any room
/// that holds `id` is `the_room_of(id)`.
pub proof fn lemma_the_room(s: ChatServer, id: u64, rn: Seq<char>)
    requires
        s.wf(),
        s.member_of(id, rn),
    ensures
        s.the_room_of(id) == rn,
        s.member_of(id, s.the_room_of(id)),
{
    assert(s.member_of(id, s.the_room_of(id)));
    let r2 = s.the_room_of(id);
    let i = choose|i: int|
        0 <= i < s.rooms@.len() && (#[trigger] s.rooms@[i]).name@ == rn
            && s.rooms@[i].members@.contains(id);
    let j = choose|j: int|
        0 <= j < s.rooms@.len() && (#[trigger] s.rooms@[j]).name@ == r2
            && s.rooms@[j].members@.contains(id);
    if i != j {
        assert(s.rooms@[i].members@.contains(id));
        assert(s.rooms@[j].members@.contains(id));
        assert(false);
    }
}

/// The visitor counter after one more connect: one more, wrapping as the
/// machine counter does.
pub open spec fn next_count(c: u64) -> u64 {
    if c < u64::MAX {
        (c + 1) as u64
    } else {
        0
    }
}

/// Who hears the visitor-count notice: the prior members of the default
/// room and the fresh connection, the synthetic system id excluded.
pub open spec fn count_notice_recipients(pre: ChatServer, id: u64) -> Set<u64> {
    Set::new(|c: u64| (pre.member_of(c, "main"@) || c == id) && c != 0)
}

/// What `connect` broadcasts: a join announcement to the prior members of
/// the default room, then the incremented visitor count to them and to the
/// new member,
/// the synthetic system id excluded from both.
pub open spec fn connect_deliveries(d: Seq<Delivery>, pre: ChatServer, id: u64) -> bool {
    exists|m: int|
        0 <= m <= d.len() && delivers_exactly(
            #[trigger] d.subrange(0, m),
            pre.recipients("main"@, 0),
            "Someone joined"@,
        ) && delivers_exactly(
            d.subrange(m, d.len() as int),
            count_notice_recipients(pre, id),
            "Total visitors "@ + dec_str(next_count(pre.visitor_count) as nat),
        )
}

/// Everything `connect` does: tracks the fresh id, puts it in the default
/// room and nowhere else, leaves everyone else where they were, counts the
/// visitor, and broadcasts the two notices.
pub open spec fn connect_post(pre: ChatServer, post: ChatServer, id: u64, d: Seq<Delivery>) -> bool {
    &&& post.wf()
    &&& post.ids() == pre.ids().insert(id)
    &&& (forall|rn: Seq<char>| #[trigger] post.member_of(id, rn) <==> rn == "main"@)
    &&& (forall|x: u64, rn: Seq<char>|
        x != id ==> (#[trigger] post.member_of(x, rn)) == pre.member_of(x, rn))
    &&& post.room_names() == pre.room_names()
    &&& post.visitor_count == next_count(pre.visitor_count)
    &&& connect_deliveries(d, pre, id)
}

impl ChatServer {
    /// Register a fresh connection: announce it to the default room, track
    /// the id, place it in the default room, and report the incremented
    /// visitor count.
    pub fn connect(&mut self, id: u64) -> (r: Vec<Delivery>)
        requires
            old(self).wf(),
            !old(self).ids().contains(id),
        ensures
            connect_post(*old(self), *final(self), id, r@),
    {
        let ghost pre = *old(self);
        let mut first = self.send_system_message("main", 0, "Someone joined");
        let ghost firstv = first@;
        let ri = match self.room_index("main") {
            Some(i) => i,
            None => {
                proof {
                    assert(false);
                }
                unreached()
            },
        };
        let ghost rii = ri as int;
        proof {
            assert(!pre.sessions@.contains(id));
            if pre.rooms@[rii].members@.contains(id) {
                let k = choose|k: int|
                    0 <= k < pre.rooms@[rii].members@.len() && pre.rooms@[rii].members@[k] == id;
                assert(pre.sessions@.contains(pre.rooms@[rii].members@[k]));
            }
            lemma_push_no_dup(pre.sessions@, id);
            lemma_push_no_dup(pre.rooms@[rii].members@, id);
            lemma_push_contains(pre.sessions@, id);
            lemma_push_contains(pre.rooms@[rii].members@, id);
            lemma_push_to_set(pre.sessions@, id);
        }
        self.sessions.push(id);
        self.rooms[ri].members.push(id);
        if self.visitor_count < u64::MAX {
            self.visitor_count = self.visitor_count + 1;
        } else {
            self.visitor_count = 0;
        }
        let count = self.visitor_count;
        proof {
            let post = *self;
            assert(post.sessions@ == pre.sessions@.push(id));
            assert(post.rooms@[rii].members@ == pre.rooms@[rii].members@.push(id));
            assert(post.rooms@[rii].name@ == pre.rooms@[rii].name@);
            assert(forall|j: int|
                0 <= j < pre.rooms@.len() && j != rii ==> post.rooms@[j] == pre.rooms@[j]);
            assert(forall|j: int|
                0 <= j < pre.rooms@.len() ==> (#[trigger] post.rooms@[j]).name@
                    == pre.rooms@[j].name@);
            // membership of the fresh id: the default room and nowhere else
            assert forall|rn: Seq<char>| #[trigger] post.member_of(id, rn) implies rn
                == "main"@ by {
                let j = choose|j: int|
                    0 <= j < post.rooms@.len() && (#[trigger] post.rooms@[j]).name@ == rn
                        && post.rooms@[j].members@.contains(id);
                if j != rii {
                    let k = choose|k: int|
                        0 <= k < pre.rooms@[j].members@.len() && pre.rooms@[j].members@[k] == id;
                    assert(pre.sessions@.contains(pre.rooms@[j].members@[k]));
                }
            }
            assert(post.rooms@[rii].members@.contains(id));
            assert(post.member_of(id, "main"@));
            // everyone else is exactly where they were
            assert forall|x: u64, rn: Seq<char>| x != id implies (#[trigger] post.member_of(x, rn))
                == pre.member_of(x, rn) by {
                if post.member_of(x, rn) {
                    let j = choose|j: int|
                        0 <= j < post.rooms@.len() && (#[trigger] post.rooms@[j]).name@ == rn
                            && post.rooms@[j].members@.contains(x);
                    assert(pre.rooms@[j].members@.contains(x));
                    assert(pre.member_of(x, rn));
                }
                if pre.member_of(x, rn) {
                    let j = choose|j: int|
                        0 <= j < pre.rooms@.len() && (#[trigger] pre.rooms@[j]).name@ == rn
                            && pre.rooms@[j].members@.contains(x);
                    assert(post.rooms@[j].members@.contains(x));
                    assert(post.member_of(x, rn));
                }
            }
            // well-formedness is preserved
            assert forall|i: int, k: int|
                0 <= i < post.rooms@.len() && 0 <= k < (#[trigger] post.rooms@[i]).members@.len()
                    implies post.sessions@.contains(#[trigger] post.rooms@[i].members@[k]) by {
                if i != rii {
                    assert(pre.sessions@.contains(pre.rooms@[i].members@[k]));
                } else if k < pre.rooms@[rii].members@.len() {
                    assert(pre.sessions@.contains(pre.rooms@[rii].members@[k]));
                }
            }
            assert forall|i: int, j: int, x: u64|
                0 <= i < post.rooms@.len() && 0 <= j < post.rooms@.len() && i != j && (
                #[trigger] post.rooms@[i].members@.contains(x)) implies !(
                #[trigger] post.rooms@[j].members@.contains(x)) by {
                if post.rooms@[j].members@.contains(x) {
                    // x would sit in two rooms
                    if x == id {
                        let jj: int = if i == rii { j } else { i };
                        let k = choose|k: int|
                            0 <= k < pre.rooms@[jj].members@.len() && pre.rooms@[jj].members@[k]
                                == id;
                        assert(pre.sessions@.contains(pre.rooms@[jj].members@[k]));
                    } else {
                        assert(pre.rooms@[i].members@.contains(x));
                        assert(pre.rooms@[j].members@.contains(x));
                    }
                }
            }
            assert forall|x: u64| #[trigger] post.sessions@.contains(x) implies post.in_some_room(
                x,
            ) by {
                if x == id {
                    assert(post.rooms@[rii].members@.contains(id));
                } else {
                    assert(pre.sessions@.contains(x));
                    let j = choose|j: int|
                        0 <= j < pre.rooms@.len() && (#[trigger] pre.rooms@[j]).members@.contains(
                            x,
                        );
                    assert(post.rooms@[j].members@.contains(x));
                }
            }
            assert(post.has_room("main"@));
            assert(post.wf());
            // the set of room names is untouched
            assert forall|n: Seq<char>| #[trigger] post.has_room(n) == pre.has_room(n) by {
                if post.has_room(n) {
                    let j = choose|j: int|
                        0 <= j < post.rooms@.len() && (#[trigger] post.rooms@[j]).name@ == n;
                    assert(pre.rooms@[j].name@ == n);
                }
                if pre.has_room(n) {
                    let j = choose|j: int|
                        0 <= j < pre.rooms@.len() && (#[trigger] pre.rooms@[j]).name@ == n;
                    assert(post.rooms@[j].name@ == n);
                }
            }
            assert(post.room_names() =~= pre.room_names());
        }
        let notice = visitor_notice(count);
        let mut second = self.send_system_message("main", 0, notice.as_str());
        proof {
            // the recipients of the count notice are the prior members plus
            // the fresh connection, the system id excluded
            assert(self.recipients("main"@, 0) =~= count_notice_recipients(pre, id));
        }
        let ghost secondv = second@;
        first.append(&mut second);
        proof {
            let m = firstv.len() as int;
            assert(first@.subrange(0, m) =~= firstv);
            assert(first@.subrange(m, first@.len() as int) =~= secondv);
            assert(delivers_exactly(
                first@.subrange(0, m),
                pre.recipients("main"@, 0),
                "Someone joined"@,
            ));
            assert(delivers_exactly(
                first@.subrange(m, first@.len() as int),
                count_notice_recipients(pre, id),
                "Total visitors "@ + dec_str(next_count(pre.visitor_count) as nat),
            ));
            assert(connect_deliveries(first@, pre, id));
        }
        first
    }
}

/// Who hears the departure notice when `id` leaves its room: the remaining
/// members, the synthetic system id excluded.
pub open spec fn departure_recipients(pre: ChatServer, id: u64) -> Set<u64> {
    Set::new(|c: u64| pre.member_of(c, pre.the_room_of(id)) && c != id && c != 0)
}

/// Everything `disconnect` does: stops tracking the id, removes it from its
/// room, and tells the remaining members. An unknown id changes nothing and
/// never fails.
pub open spec fn disconnect_post(pre: ChatServer, post: ChatServer, id: u64, d: Seq<Delivery>) -> bool {
    &&& post.wf()
    &&& post.ids() == pre.ids().remove(id)
    &&& (forall|rn: Seq<char>| !(#[trigger] post.member_of(id, rn)))
    &&& (forall|x: u64, rn: Seq<char>|
        x != id ==> (#[trigger] post.member_of(x, rn)) == pre.member_of(x, rn))
    &&& post.room_names() == pre.room_names()
    &&& post.visitor_count == pre.visitor_count
    &&& (pre.ids().contains(id) ==> pre.member_of(id, pre.the_room_of(id)) && delivers_exactly(
        d,
        departure_recipients(pre, id),
        "Someone disconnected"@,
    ))
    &&& (!pre.ids().contains(id) ==> d.len() == 0)
}

impl ChatServer {
    /// Remove a connection: stop tracking it, take it out of its room, and
    /// notify the remaining members there.
    pub fn disconnect(&mut self, id: u64) -> (r: Vec<Delivery>)
        requires
            old(self).wf(),
        ensures
            disconnect_post(*old(self), *final(self), id, r@),
    {
        let ghost pre = *old(self);
        if !contains_id(&self.sessions, id) {
            proof {
                assert(pre.ids() =~= pre.ids().remove(id));
                assert forall|rn: Seq<char>| !(#[trigger] pre.member_of(id, rn)) by {
                    if pre.member_of(id, rn) {
                        let j = choose|j: int|
                            0 <= j < pre.rooms@.len() && (#[trigger] pre.rooms@[j]).name@ == rn
                                && pre.rooms@[j].members@.contains(id);
                        let k = choose|k: int|
                            0 <= k < pre.rooms@[j].members@.len() && pre.rooms@[j].members@[k]
                                == id;
                        assert(pre.sessions@.contains(pre.rooms@[j].members@[k]));
                    }
                }
            }
            return Vec::new();
        }
        let _removed = remove_value(&mut self.sessions, id);
        let ri = match self.find_room_of(id) {
            Some(i) => i,
            None => {
                proof {
                    assert(pre.sessions@.contains(id));
                    assert(false);
                }
                unreached()
            },
        };
        let ghost rii = ri as int;
        let name = self.rooms[ri].name.clone();
        proof {
            assert(pre.rooms@[rii].members@.contains(id));
            lemma_the_room(pre, id, name@);
        }
        let _ = remove_value(&mut self.rooms[ri].members, id);
        proof {
            let post = *self;
            assert(post.rooms@.len() == pre.rooms@.len());
            assert(forall|j: int|
                0 <= j < pre.rooms@.len() && j != rii ==> post.rooms@[j] == pre.rooms@[j]);
            assert(forall|j: int|
                0 <= j < pre.rooms@.len() ==> (#[trigger] post.rooms@[j]).name@
                    == pre.rooms@[j].name@);
            // the id leaves every room
            assert forall|rn: Seq<char>| !(#[trigger] post.member_of(id, rn)) by {
                if post.member_of(id, rn) {
                    let j = choose|j: int|
                        0 <= j < post.rooms@.len() && (#[trigger] post.rooms@[j]).name@ == rn
                            && post.rooms@[j].members@.contains(id);
                    if j != rii {
                        assert(pre.rooms@[j].members@.contains(id));
                        assert(pre.rooms@[rii].members@.contains(id));
                        assert(false);
                    }
                }
            }
            // everyone else stays where they were
            assert forall|x: u64, rn: Seq<char>| x != id implies (#[trigger] post.member_of(x, rn))
                == pre.member_of(x, rn) by {
                if post.member_of(x, rn) {
                    let j = choose|j: int|
                        0 <= j < post.rooms@.len() && (#[trigger] post.rooms@[j]).name@ == rn
                            && post.rooms@[j].members@.contains(x);
                    assert(pre.rooms@[j].members@.contains(x));
                    assert(pre.member_of(x, rn));
                }
                if pre.member_of(x, rn) {
                    let j = choose|j: int|
                        0 <= j < pre.rooms@.len() && (#[trigger] pre.rooms@[j]).name@ == rn
                            && pre.rooms@[j].members@.contains(x);
                    assert(post.rooms@[j].members@.contains(x));
                    assert(post.member_of(x, rn));
                }
            }
            // well-formedness is preserved
            assert forall|i: int, k: int|
                0 <= i < post.rooms@.len() && 0 <= k < (#[trigger] post.rooms@[i]).members@.len()
                    implies post.sessions@.contains(#[trigger] post.rooms@[i].members@[k]) by {
                let x = post.rooms@[i].members@[k];
                assert(post.rooms@[i].members@.contains(x));
                if i == rii {
                    assert(pre.rooms@[rii].members@.contains(x) && x != id);
                    let t = choose|t: int|
                        0 <= t < pre.rooms@[rii].members@.len() && pre.rooms@[rii].members@[t]
                            == x;
                    assert(pre.sessions@.contains(pre.rooms@[rii].members@[t]));
                } else {
                    assert(pre.sessions@.contains(pre.rooms@[i].members@[k]));
                    if x == id {
                        assert(pre.rooms@[i].members@.contains(id));
                        assert(pre.rooms@[rii].members@.contains(id));
                        assert(false);
                    }
                }
            }
            assert forall|i: int, j: int, x: u64|
                0 <= i < post.rooms@.len() && 0 <= j < post.rooms@.len() && i != j && (
                #[trigger] post.rooms@[i].members@.contains(x)) implies !(
                #[trigger] post.rooms@[j].members@.contains(x)) by {
                if post.rooms@[j].members@.contains(x) {
                    assert(pre.rooms@[i].members@.contains(x));
                    assert(pre.rooms@[j].members@.contains(x));
                }
            }
            assert forall|x: u64| #[trigger] post.sessions@.contains(x) implies post.in_some_room(
                x,
            ) by {
                assert(pre.sessions@.contains(x) && x != id);
                let j = choose|j: int|
                    0 <= j < pre.rooms@.len() && (#[trigger] pre.rooms@[j]).members@.contains(x);
                assert(post.rooms@[j].members@.contains(x));
            }
            assert(post.has_room("main"@)) by {
                let j = choose|j: int|
                    0 <= j < pre.rooms@.len() && (#[trigger] pre.rooms@[j]).name@ == "main"@;
                assert(post.rooms@[j].name@ == "main"@);
            }
            assert(post.wf());
            assert forall|n: Seq<char>| #[trigger] post.has_room(n) == pre.has_room(n) by {
                if post.has_room(n) {
                    let j = choose|j: int|
                        0 <= j < post.rooms@.len() && (#[trigger] post.rooms@[j]).name@ == n;
                    assert(pre.rooms@[j].name@ == n);
                }
                if pre.has_room(n) {
                    let j = choose|j: int|
                        0 <= j < pre.rooms@.len() && (#[trigger] pre.rooms@[j]).name@ == n;
                    assert(post.rooms@[j].name@ == n);
                }
            }
            assert(post.room_names() =~= pre.room_names());
            assert(self.recipients(name@, 0) =~= departure_recipients(pre, id));
        }
        let out = self.send_system_message(name.as_str(), 0, "Someone disconnected");
        out
    }

    /// Broadcast chat text from `id` to the other members of its room and
    /// request that the text be persisted under that room's name. A sender
    /// in no room is silently dropped: no broadcast, no persistence.
    pub fn send_message(&self, id: u64, msg: &str) -> (r: (Vec<Delivery>, Option<Persist>))
        requires
            self.wf(),
        ensures
            message_post(*self, id, msg@, r.0@, r.1),
    {
        let ri = match self.find_room_of(id) {
            Some(i) => i,
            None => {
                return (Vec::new(), None);
            },
        };
        let name = self.rooms[ri].name.clone();
        proof {
            assert(self.rooms@[ri as int].members@.contains(id));
            lemma_the_room(*self, id, name@);
        }
        let out = self.send_system_message(name.as_str(), id, msg);
        (out, Some(Persist { room: name, content: msg.to_owned() }))
    }
}

/// Everything `send_message` does: text goes verbatim to the other members
/// of the sender's room and is handed to persistence under that room's
/// name; a sender in no room causes no broadcast and no persistence.
pub open spec fn message_post(
    s: ChatServer,
    id: u64,
    msg: Seq<char>,
    d: Seq<Delivery>,
    p: Option<Persist>,
) -> bool {
    &&& (s.in_some_room(id) ==> {
        &&& s.member_of(id, s.the_room_of(id))
        &&& (p matches Some(pp) && pp.room@ == s.the_room_of(id) && pp.content@ == msg)
        &&& delivers_exactly(d, s.recipients(s.the_room_of(id), id), msg)
    })
    &&& (!s.in_some_room(id) ==> d.len() == 0 && p is None)
}

/// What `join_room` broadcasts: a departure notice to the vacated room's
/// remaining members, then an arrival notice to the joined room's other
/// members.
pub open spec fn join_deliveries(d: Seq<Delivery>, pre: ChatServer, id: u64, room: Seq<char>) -> bool {
    exists|m: int|
        0 <= m <= d.len() && delivers_exactly(
            #[trigger] d.subrange(0, m),
            departure_recipients(pre, id),
            "Someone disconnected"@,
        ) && delivers_exactly(
            d.subrange(m, d.len() as int),
            pre.recipients(room, id),
            "Someone connected"@,
        )
}

/// Everything `join_room` does: a tracked id ends up in exactly the named
/// room (created if absent), everyone else stays put, and the two notices
/// go out. An unknown id changes nothing and never fails.
pub open spec fn join_post(
    pre: ChatServer,
    post: ChatServer,
    id: u64,
    room: Seq<char>,
    d: Seq<Delivery>,
) -> bool {
    &&& post.wf()
    &&& post.ids() == pre.ids()
    &&& post.visitor_count == pre.visitor_count
    &&& (forall|x: u64, rn: Seq<char>|
        x != id ==> (#[trigger] post.member_of(x, rn)) == pre.member_of(x, rn))
    &&& (pre.ids().contains(id) ==> {
        &&& (forall|rn: Seq<char>| #[trigger] post.member_of(id, rn) <==> rn == room)
        &&& post.room_names() == pre.room_names().insert(room)
        &&& pre.member_of(id, pre.the_room_of(id))
        &&& join_deliveries(d, pre, id, room)
    })
    &&& (!pre.ids().contains(id) ==> {
        &&& (forall|rn: Seq<char>| (#[trigger] post.member_of(id, rn)) == pre.member_of(id, rn))
        &&& post.room_names() == pre.room_names()
        &&& d.len() == 0
    })
}

impl ChatServer {
    /// Move a connection into the named room: take it out of its current
    /// room (announcing the departure), create the target room if absent,
    /// put it there, and announce the arrival to the others.
    pub fn join_room(&mut self, id: u64, room: &str) -> (r: Vec<Delivery>)
        requires
            old(self).wf(),
        ensures
            join_post(*old(self), *final(self), id, room@, r@),
    {
        let ghost pre = *old(self);
        if !contains_id(&self.sessions, id) {
            return Vec::new();
        }
        let ri = match self.find_room_of(id) {
            Some(i) => i,
            None => {
                proof {
                    assert(pre.sessions@.contains(id));
                    assert(false);
                }
                unreached()
            },
        };
        let ghost rii = ri as int;
        let old_name = self.rooms[ri].name.clone();
        proof {
            assert(pre.rooms@[rii].members@.contains(id));
            lemma_the_room(pre, id, old_name@);
        }
        let _ = remove_value(&mut self.rooms[ri].members, id);
        proof {
            let mid = *self;
            assert(mid.rooms@.len() == pre.rooms@.len());
            assert(forall|j: int|
                0 <= j < pre.rooms@.len() && j != rii ==> mid.rooms@[j] == pre.rooms@[j]);
            assert(forall|j: int|
                0 <= j < pre.rooms@.len() ==> (#[trigger] mid.rooms@[j]).name@
                    == pre.rooms@[j].name@);
            assert forall|j: int| 0 <= j < mid.rooms@.len() implies !(
            #[trigger] mid.rooms@[j]).members@.contains(id) by {
                if j != rii && mid.rooms@[j].members@.contains(id) {
                    assert(pre.rooms@[j].members@.contains(id));
                    assert(pre.rooms@[rii].members@.contains(id));
                    assert(false);
                }
            }
            assert forall|x: u64, rn: Seq<char>| x != id implies (#[trigger] mid.member_of(x, rn))
                == pre.member_of(x, rn) by {
                if mid.member_of(x, rn) {
                    let j = choose|j: int|
                        0 <= j < mid.rooms@.len() && (#[trigger] mid.rooms@[j]).name@ == rn
                            && mid.rooms@[j].members@.contains(x);
                    assert(pre.rooms@[j].members@.contains(x));
                    assert(pre.member_of(x, rn));
                }
                if pre.member_of(x, rn) {
                    let j = choose|j: int|
                        0 <= j < pre.rooms@.len() && (#[trigger] pre.rooms@[j]).name@ == rn
                            && pre.rooms@[j].members@.contains(x);
                    assert(mid.rooms@[j].members@.contains(x));
                    assert(mid.member_of(x, rn));
                }
            }
            assert(mid.rooms_ok());
            assert(self.recipients(old_name@, 0) =~= departure_recipients(pre, id));
        }
        let mut depart = self.send_system_message(old_name.as_str(), 0, "Someone disconnected");
        let ghost departv = depart@;
        let ghost mid = *self;
        let ti = match self.room_index(room) {
            Some(t) => t,
            None => {
                let members: Vec<u64> = Vec::new();
                self.rooms.push(Room { name: room.to_owned(), members });
                self.rooms.len() - 1
            },
        };
        let ghost tii = ti as int;
        let ghost mid2 = *self;
        let ghost created = mid2.rooms@.len() != mid.rooms@.len();
        proof {
            assert(forall|j: int| 0 <= j < mid.rooms@.len() ==> mid2.rooms@[j] == mid.rooms@[j]);
            assert(mid2.rooms@[tii].name@ == room@);
            if created {
                assert(tii == mid.rooms@.len());
                assert(mid2.rooms@[tii].members@.len() == 0);
                assert(!mid.has_room(room@));
            }
            assert(!mid2.rooms@[tii].members@.contains(id));
            // the new empty room holds nobody, so membership is unchanged
            assert forall|x: u64, rn: Seq<char>| #[trigger] mid2.member_of(x, rn)
                == mid.member_of(x, rn) by {
                if mid2.member_of(x, rn) {
                    let j = choose|j: int|
                        0 <= j < mid2.rooms@.len() && (#[trigger] mid2.rooms@[j]).name@ == rn
                            && mid2.rooms@[j].members@.contains(x);
                    if j < mid.rooms@.len() {
                        assert(mid.member_of(x, rn));
                    } else {
                        assert(mid2.rooms@[j].members@.len() == 0);
                        assert(false);
                    }
                }
                if mid.member_of(x, rn) {
                    let j = choose|j: int|
                        0 <= j < mid.rooms@.len() && (#[trigger] mid.rooms@[j]).name@ == rn
                            && mid.rooms@[j].members@.contains(x);
                    assert(mid2.rooms@[j].members@.contains(x));
                    assert(mid2.member_of(x, rn));
                }
            }
            // names stay unique
            assert forall|a: int, b: int| 0 <= a < b < mid2.rooms@.len() implies (
            #[trigger] mid2.rooms@[a]).name@ != (#[trigger] mid2.rooms@[b]).name@ by {
                if b < mid.rooms@.len() {
                } else if created && b == mid.rooms@.len() {
                    if mid2.rooms@[a].name@ == room@ {
                        assert(mid.rooms@[a].name@ == room@);
                        assert(mid.has_room(room@));
                        assert(false);
                    }
                }
            }
            lemma_push_contains(mid2.rooms@[tii].members@, id);
            lemma_push_no_dup(mid2.rooms@[tii].members@, id);
        }
        self.rooms[ti].members.push(id);
        proof {
            let post = *self;
            assert(post.rooms@.len() == mid2.rooms@.len());
            assert(forall|j: int|
                0 <= j < mid2.rooms@.len() && j != tii ==> post.rooms@[j] == mid2.rooms@[j]);
            assert(forall|j: int|
                0 <= j < mid2.rooms@.len() ==> (#[trigger] post.rooms@[j]).name@
                    == mid2.rooms@[j].name@);
            assert(post.rooms@[tii].members@ == mid2.rooms@[tii].members@.push(id));
            // the id sits in exactly the target room
            assert forall|rn: Seq<char>| #[trigger] post.member_of(id, rn) implies rn == room@ by {
                let j = choose|j: int|
                    0 <= j < post.rooms@.len() && (#[trigger] post.rooms@[j]).name@ == rn
                        && post.rooms@[j].members@.contains(id);
                if j != tii {
                    assert(mid2.rooms@[j].members@.contains(id));
                    assert(mid.rooms@[j].members@.contains(id) || mid2.rooms@[j].members@.len()
                        == 0);
                    assert(false);
                }
            }
            assert(post.rooms@[tii].members@.contains(id));
            assert(post.member_of(id, room@));
            // everyone else stays where they were
            assert forall|x: u64, rn: Seq<char>| x != id implies (#[trigger] post.member_of(x, rn))
                == mid2.member_of(x, rn) by {
                if post.member_of(x, rn) {
                    let j = choose|j: int|
                        0 <= j < post.rooms@.len() && (#[trigger] post.rooms@[j]).name@ == rn
                            && post.rooms@[j].members@.contains(x);
                    assert(mid2.rooms@[j].members@.contains(x));
                    assert(mid2.member_of(x, rn));
                }
                if mid2.member_of(x, rn) {
                    let j = choose|j: int|
                        0 <= j < mid2.rooms@.len() && (#[trigger] mid2.rooms@[j]).name@ == rn
                            && mid2.rooms@[j].members@.contains(x);
                    assert(post.rooms@[j].members@.contains(x));
                    assert(post.member_of(x, rn));
                }
            }
            // well-formedness is re-established
            assert forall|i: int, k: int|
                0 <= i < post.rooms@.len() && 0 <= k < (#[trigger] post.rooms@[i]).members@.len()
                    implies post.sessions@.contains(#[trigger] post.rooms@[i].members@[k]) by {
                let x = post.rooms@[i].members@[k];
                assert(post.rooms@[i].members@.contains(x));
                if i == tii && x == id {
                    assert(pre.sessions@.contains(id));
                } else {
                    let mm: Seq<u64> = if i == tii {
                        mid2.rooms@[tii].members@
                    } else {
                        mid2.rooms@[i].members@
                    };
                    assert(mm.contains(x));
                    if i < mid.rooms@.len() || i != tii {
                        if i >= mid.rooms@.len() {
                            assert(mm.len() == 0);
                            assert(false);
                        }
                    }
                    if created && i == tii {
                        assert(mm.len() == 0);
                        assert(false);
                    } else {
                        assert(mid.rooms@[i].members@.contains(x));
                        if i == rii {
                            assert(pre.rooms@[rii].members@.contains(x));
                        } else {
                            assert(pre.rooms@[i].members@.contains(x));
                        }
                        let t = choose|t: int|
                            0 <= t < pre.rooms@[i].members@.len() && pre.rooms@[i].members@[t]
                                == x;
                        assert(pre.sessions@.contains(pre.rooms@[i].members@[t]));
                    }
                }
            }
            assert forall|i: int, j: int, x: u64|
                0 <= i < post.rooms@.len() && 0 <= j < post.rooms@.len() && i != j && (
                #[trigger] post.rooms@[i].members@.contains(x)) implies !(
                #[trigger] post.rooms@[j].members@.contains(x)) by {
                if post.rooms@[j].members@.contains(x) {
                    if x == id {
                        let jj: int = if i == tii {
                            j
                        } else {
                            i
                        };
                        assert(post.rooms@[jj].members@.contains(id));
                        assert(post.member_of(id, post.rooms@[jj].name@));
                        assert(post.rooms@[jj].name@ == room@);
                        assert(post.rooms@[tii].name@ == room@);
                        if jj < mid.rooms@.len() {
                            assert(mid.rooms@[jj].members@.contains(id));
                        } else {
                            assert(mid2.rooms@[jj].members@.len() == 0);
                        }
                        assert(false);
                    } else {
                        // both memberships come from the state before the push
                        let mi: Seq<u64> = mid2.rooms@[i].members@;
                        let mj: Seq<u64> = mid2.rooms@[j].members@;
                        assert(mi.contains(x) || (i == tii && post.rooms@[i].members@
                            == mid2.rooms@[i].members@.push(id)));
                        assert(mi.contains(x));
                        assert(mj.contains(x));
                        if i >= mid.rooms@.len() {
                            assert(mi.len() == 0);
                        }
                        if j >= mid.rooms@.len() {
                            assert(mj.len() == 0);
                        }
                        assert(mid.rooms@[i].members@.contains(x));
                        assert(mid.rooms@[j].members@.contains(x));
                        assert(pre.rooms@[i].members@.contains(x));
                        assert(pre.rooms@[j].members@.contains(x));
                        assert(false);
                    }
                }
            }
            assert forall|x: u64| #[trigger] post.sessions@.contains(x) implies post.in_some_room(
                x,
            ) by {
                if x == id {
                    assert(post.rooms@[tii].members@.contains(id));
                } else {
                    let j = choose|j: int|
                        0 <= j < pre.rooms@.len() && (#[trigger] pre.rooms@[j]).members@.contains(
                            x,
                        );
                    assert(mid.rooms@[j].members@.contains(x));
                    assert(mid2.rooms@[j].members@.contains(x));
                    if j == tii {
                        assert(post.rooms@[tii].members@.contains(x));
                    } else {
                        assert(post.rooms@[j].members@.contains(x));
                    }
                }
            }
            assert(post.has_room("main"@)) by {
                let j = choose|j: int|
                    0 <= j < pre.rooms@.len() && (#[trigger] pre.rooms@[j]).name@ == "main"@;
                assert(post.rooms@[j].name@ == "main"@);
            }
            assert(post.wf());
            // the room names gain exactly the target
            assert forall|n: Seq<char>| #[trigger] post.has_room(n) == (pre.has_room(n) || n
                == room@) by {
                if post.has_room(n) {
                    let j = choose|j: int|
                        0 <= j < post.rooms@.len() && (#[trigger] post.rooms@[j]).name@ == n;
                    if j < mid.rooms@.len() {
                        assert(pre.rooms@[j].name@ == n);
                    }
                }
                if pre.has_room(n) {
                    let j = choose|j: int|
                        0 <= j < pre.rooms@.len() && (#[trigger] pre.rooms@[j]).name@ == n;
                    assert(post.rooms@[j].name@ == n);
                }
                if n == room@ {
                    assert(post.rooms@[tii].name@ == n);
                }
            }
            assert(post.room_names() =~= pre.room_names().insert(room@));
            assert(self.recipients(room@, id) =~= pre.recipients(room@, id));
        }
        let mut arrive = self.send_system_message(room, id, "Someone connected");
        let ghost arrivev = arrive@;
        depart.append(&mut arrive);
        proof {
            let m = departv.len() as int;
            assert(depart@.subrange(0, m) =~= departv);
            assert(depart@.subrange(m, depart@.len() as int) =~= arrivev);
            assert(delivers_exactly(
                depart@.subrange(0, m),
                departure_recipients(pre, id),
                "Someone disconnected"@,
            ));
            assert(delivers_exactly(
                depart@.subrange(m, depart@.len() as int),
                pre.recipients(room@, id),
                "Someone connected"@,
            ));
            assert(join_deliveries(depart@, pre, id, room@));
        }
        depart
    }
}

/// Relies on rand::thread_rng and Rng::gen: a randomly drawn 64-bit
/// connection id. Nothing is promised of the value drawn.
#[verifier::external_body]
fn new_connection_id() -> u64 {
    rand::thread_rng().gen()
}

/// A finite set that contains all of `0 .. n` has at least `n` elements.
proof fn lemma_contains_range_card(s: Set<u64>, n: int)
    requires
        s.finite(),
        0 <= n <= u64::MAX as int + 1,
        forall|t: u64| (t as int) < n ==> s.contains(t),
    ensures
        s.len() >= n,
    decreases n,
{
    if n > 0 {
        let x = (n - 1) as u64;
        let s2 = s.remove(x);
        assert forall|t: u64| (t as int) < n - 1 implies s2.contains(t) by {
            assert(s.contains(t));
        }
        lemma_contains_range_card(s2, n - 1);
        assert(s.contains(x));
    }
}

impl ChatServer {
    /// A connection id the coordinator does not track: by pigeonhole, one of
    /// the first `len + 1` ids is free.
    fn first_free_id(&self) -> (id: u64)
        requires
            self.wf(),
        ensures
            !self.ids().contains(id),
    {
        let bound: u64 = self.sessions.len() as u64;
        let mut c: u64 = 0;
        while c < bound
            invariant
                0 <= c <= bound,
                bound == self.sessions@.len(),
                self.wf(),
                forall|t: u64| t < c ==> self.sessions@.contains(t),
            decreases bound - c,
        {
            if !contains_id(&self.sessions, c) {
                return c;
            }
            c += 1;
        }
        if !contains_id(&self.sessions, bound) {
            return bound;
        }
        proof {
            broadcast use vstd::seq_lib::seq_to_set_is_finite;

            assert forall|t: u64| (t as int) < self.sessions@.len() + 1 implies
                self.sessions@.to_set().contains(t) by {
                assert(self.sessions@.contains(t));
            }
            lemma_contains_range_card(self.sessions@.to_set(), self.sessions@.len() as int + 1);
            self.sessions@.unique_seq_to_set();
            assert(false);
        }
        unreached()
    }

    /// Draw a random id; on the negligible chance that it is taken, fall
    /// back to the first free one. Then register the connection under it.
    pub fn connect_new(&mut self) -> (r: (u64, Vec<Delivery>))
        requires
            old(self).wf(),
        ensures
            !old(self).ids().contains(r.0),
            connect_post(*old(self), *final(self), r.0, r.1@),
    {
        let mut id = new_connection_id();
        if self.is_connected(id) {
            id = self.first_free_id();
        }
        let d = self.connect(id);
        (id, d)
    }

    /// The name of the room that holds connection `id`, if any does.
    pub fn current_room(&self, id: u64) -> (r: Option<String>)
        requires
            self.wf(),
        ensures
            r matches Some(n) ==> self.member_of(id, n@) && n@ == self.the_room_of(id),
            r is None ==> !self.in_some_room(id),
    {
        match self.find_room_of(id) {
            Some(i) => {
                let name = self.rooms[i].name.clone();
                proof {
                    assert(self.rooms@[i as int].members@.contains(id));
                    lemma_the_room(*self, id, name@);
                }
                Some(name)
            },
            None => None,
        }
    }
}

/// One request submitted to the coordinator's queue.
pub enum Command {
    /// Register a new connection and reply with its id.
    Connect,
    /// Remove a connection; unknown ids are a no-op.
    Disconnect { conn: u64 },
    /// Report a snapshot of the room names.
    List,
    /// Move a connection into a room.
    Join { conn: u64, room: String },
    /// Broadcast chat text from a connection to its room.
    Message { conn: u64, msg: String },
}

/// The value a command's submitter is handed back.
pub enum Reply {
    /// The id assigned by `Connect`.
    NewId { id: u64 },
    /// The room names reported by `List`.
    Rooms { rooms: Vec<String> },
    /// Completion of the other commands.
    Done,
}

/// Everything one command application produces: broadcasts to hand to the
/// connections' channels, at most one persistence request, and the reply.
pub struct Applied {
    pub deliveries: Vec<Delivery>,
    pub persist: Option<Persist>,
    pub reply: Reply,
}

/// What applying one command does to the state and what it hands back,
/// variant by variant.
pub open spec fn command_post(pre: ChatServer, post: ChatServer, cmd: Command, r: Applied) -> bool {
    match cmd {
        Command::Connect => {
            &&& (r.reply matches Reply::NewId { id } && !pre.ids().contains(id) && connect_post(
                pre,
                post,
                id,
                r.deliveries@,
            ))
            &&& r.persist is None
        },
        Command::Disconnect { conn } => {
            &&& disconnect_post(pre, post, conn, r.deliveries@)
            &&& r.persist is None
            &&& r.reply is Done
        },
        Command::List => {
            &&& post == pre
            &&& (r.reply matches Reply::Rooms { rooms }
                && rooms@.len() == pre.rooms@.len()
                && (forall|k: int|
                    0 <= k < rooms@.len() ==> pre.has_room((#[trigger] rooms@[k])@))
                && (forall|n: Seq<char>|
                    pre.has_room(n) ==> exists|k: int|
                        0 <= k < rooms@.len() && (#[trigger] rooms@[k])@ == n))
            &&& r.deliveries@.len() == 0
            &&& r.persist is None
        },
        Command::Join { conn, room } => {
            &&& join_post(pre, post, conn, room@, r.deliveries@)
            &&& r.persist is None
            &&& r.reply is Done
        },
        Command::Message { conn, msg } => {
            &&& post == pre
            &&& message_post(pre, conn, msg@, r.deliveries@, r.persist)
            &&& r.reply is Done
        },
    }
}

impl ChatServer {
    /// Apply one command from the queue: the coordinator's whole behaviour,
    /// one submission at a time, in submission order.
    pub fn handle_command(&mut self, cmd: Command) -> (r: Applied)
        requires
            old(self).wf(),
        ensures
            final(self).wf(),
            command_post(*old(self), *final(self), cmd, r),
    {
        match cmd {
            Command::Connect => {
                let (id, deliveries) = self.connect_new();
                Applied { deliveries, persist: None, reply: Reply::NewId { id } }
            },
            Command::Disconnect { conn } => {
                let deliveries = self.disconnect(conn);
                Applied { deliveries, persist: None, reply: Reply::Done }
            },
            Command::List => {
                let rooms = self.list_rooms();
                Applied { deliveries: Vec::new(), persist: None, reply: Reply::Rooms { rooms } }
            },
            Command::Join { conn, room } => {
                let deliveries = self.join_room(conn, room.as_str());
                Applied { deliveries, persist: None, reply: Reply::Done }
            },
            Command::Message { conn, msg } => {
                let (deliveries, persist) = self.send_message(conn, msg.as_str());
                Applied { deliveries, persist, reply: Reply::Done }
            },
        }
    }
}

/// One connection-lifecycle event, as the coordinator sees them.
pub enum ConnEvent {
    Connected { id: u64 },
    Disconnected { id: u64 },
}

/// How one lifecycle event changes the set of tracked ids: exactly how
/// `connect` and `disconnect` change `ids()`.
pub open spec fn apply_conn_event(s: Set<u64>, e: ConnEvent) -> Set<u64> {
    match e {
        ConnEvent::Connected { id } => s.insert(id),
        ConnEvent::Disconnected { id } => s.remove(id),
    }
}

/// The tracked ids after a whole sequence of lifecycle events.
pub open spec fn apply_conn_events(s: Set<u64>, evs: Seq<ConnEvent>) -> Set<u64>
    decreases evs.len(),
{
    if evs.len() == 0 {
        s
    } else {
        apply_conn_events(apply_conn_event(s, evs[0]), evs.drop_first())
    }
}

/// Whether `id` has connected and not disconnected since.
pub open spec fn live_after(evs: Seq<ConnEvent>, id: u64) -> bool {
    exists|i: int|
        0 <= i < evs.len() && evs[i] == (ConnEvent::Connected { id }) && (forall|j: int|
            i < j < evs.len() ==> evs[j] != (ConnEvent::Disconnected { id }))
}

/// Events apply left to right: appending one event applies it last.
proof fn lemma_apply_conn_events_push(s: Set<u64>, evs: Seq<ConnEvent>, e: ConnEvent)
    ensures
        apply_conn_events(s, evs.push(e)) == apply_conn_event(apply_conn_events(s, evs), e),
    decreases evs.len(),
{
    if evs.len() == 0 {
        assert(evs.push(e).drop_first() =~= evs);
        assert(evs.push(e)[0] == e);
        assert(apply_conn_events(s, evs.push(e)) == apply_conn_events(
            apply_conn_event(s, e),
            evs,
        ));
        assert(apply_conn_events(s, evs) == s);
    } else {
        assert(evs.push(e)[0] == evs[0]);
        assert(evs.push(e).drop_first() =~= evs.drop_first().push(e));
        lemma_apply_conn_events_push(apply_conn_event(s, evs[0]), evs.drop_first(), e);
        assert(apply_conn_events(s, evs.push(e)) == apply_conn_events(
            apply_conn_event(s, evs[0]),
            evs.drop_first().push(e),
        ));
        assert(apply_conn_events(s, evs) == apply_conn_events(
            apply_conn_event(s, evs[0]),
            evs.drop_first(),
        ));
    }
}

/// Law: after any sequence of connect and disconnect events, starting from
/// no connections, the set of tracked ids is exactly the ids that have
/// connected and not yet disconnected. `connect` and `disconnect` change
/// `ids()` by `apply_conn_event`, so this pins the coordinator's tracking.
pub proof fn lemma_tracked_ids_are_live(evs: Seq<ConnEvent>)
    ensures
        apply_conn_events(Set::empty(), evs) == Set::new(|id: u64| live_after(evs, id)),
    decreases evs.len(),
{
    if evs.len() == 0 {
        assert forall|id: u64| !live_after(evs, id) by {}
        assert(apply_conn_events(Set::<u64>::empty(), evs) =~= Set::new(
            |id: u64| live_after(evs, id),
        ));
    } else {
        let evs0 = evs.drop_last();
        let e = evs.last();
        lemma_tracked_ids_are_live(evs0);
        assert(evs0.push(e) =~= evs);
        lemma_apply_conn_events_push(Set::empty(), evs0, e);
        let prev = apply_conn_events(Set::<u64>::empty(), evs0);
        let cur = apply_conn_events(Set::<u64>::empty(), evs);
        assert(cur == apply_conn_event(prev, e));
        assert forall|id: u64| #[trigger] cur.contains(id) == live_after(evs, id) by {
            match e {
                ConnEvent::Connected { id: id0 } => {
                    if id == id0 {
                        assert(evs[evs.len() - 1] == (ConnEvent::Connected { id }));
                        assert(live_after(evs, id));
                        assert(cur.contains(id));
                    } else {
                        lemma_live_extend_other(evs0, e, id);
                    }
                },
                ConnEvent::Disconnected { id: id0 } => {
                    if id == id0 {
                        assert(!cur.contains(id));
                        if live_after(evs, id) {
                            let i = choose|i: int|
                                0 <= i < evs.len() && evs[i] == (ConnEvent::Connected { id }) && (
                                forall|j: int|
                                    i < j < evs.len() ==> evs[j] != (ConnEvent::Disconnected {
                                        id,
                                    }));
                            assert(evs[evs.len() - 1] == (ConnEvent::Disconnected { id }));
                            assert(i < evs.len() - 1);
                            assert(false);
                        }
                    } else {
                        lemma_live_extend_other(evs0, e, id);
                    }
                },
            }
        }
        assert(cur =~= Set::new(|id: u64| live_after(evs, id)));
    }
}

/// Appending an event about another id does not change whether `id` is
/// live.
proof fn lemma_live_extend_other(evs0: Seq<ConnEvent>, e: ConnEvent, id: u64)
    requires
        e != (ConnEvent::Connected { id }),
        e != (ConnEvent::Disconnected { id }),
    ensures
        live_after(evs0.push(e), id) == live_after(evs0, id),
{
    let evs = evs0.push(e);
    if live_after(evs0, id) {
        let i = choose|i: int|
            0 <= i < evs0.len() && evs0[i] == (ConnEvent::Connected { id }) && (forall|j: int|
                i < j < evs0.len() ==> evs0[j] != (ConnEvent::Disconnected { id }));
        assert(evs[i] == (ConnEvent::Connected { id }));
        assert forall|j: int| i < j < evs.len() implies evs[j] != (ConnEvent::Disconnected {
            id,
        }) by {
            if j < evs0.len() {
                assert(evs[j] == evs0[j]);
            }
        }
        assert(live_after(evs, id));
    }
    if live_after(evs, id) {
        let i = choose|i: int|
            0 <= i < evs.len() && evs[i] == (ConnEvent::Connected { id }) && (forall|j: int|
                i < j < evs.len() ==> evs[j] != (ConnEvent::Disconnected { id }));
        assert(i < evs0.len());
        assert(evs0[i] == evs[i]);
        assert forall|j: int| i < j < evs0.len() implies evs0[j] != (ConnEvent::Disconnected {
            id,
        }) by {
            assert(evs[j] == evs0[j]);
        }
        assert(live_after(evs0, id));
    }
}

/// One verified operation moves the tracked ids by exactly one lifecycle
/// event: `connect` inserts the fresh id, `disconnect` removes its id. With
/// `lemma_tracked_ids_are_live` this pins the tracking for every sequence
/// of connects and disconnects: starting from `ChatServer::new` (no ids),
/// the coordinator tracks exactly the ids that have connected and not yet
/// disconnected.
pub proof fn lemma_ops_step_events(
    pre: ChatServer,
    post: ChatServer,
    e: ConnEvent,
    d: Seq<Delivery>,
)
    requires
        match e {
            ConnEvent::Connected { id } => !pre.ids().contains(id) && connect_post(
                pre,
                post,
                id,
                d,
            ),
            ConnEvent::Disconnected { id } => disconnect_post(pre, post, id, d),
        },
    ensures
        post.ids() == apply_conn_event(pre.ids(), e),
{
}

} // verus!

