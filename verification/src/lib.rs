//! An append-only transaction log indexed by logical offset.
//!
//! Entries are appended in strictly increasing offset order and later
//! retrieved by exact offset. Internally the log is a skip list: each
//! entry is a node that participates in one or more levels, and lookup
//! walks the levels top-down. Nodes live in an arena and link to each
//! other by index, so the whole structure is plain owned data.

use vstd::prelude::*;

verus! {

/// One logged entry: its offset, its payload, and for every level the
/// entry participates in, the index of the next participant at that
/// level (or `None` when the entry is currently last at that level).
#[derive(Debug, Clone)]
struct Node {
    next: Vec<Option<usize>>,
    offset: u64,
    command: String,
}

impl Node {
    fn new(next: Vec<Option<usize>>, offset: u64, command: String) -> (node: Node)
        ensures
            node.next == next,
            node.offset == offset,
            node.command == command,
    {
        Node { next, offset, command }
    }
}

/// The append-only log. `nodes` is the arena, in append order; `head`
/// is the index of the first entry; `tails[lvl]` is the index of the
/// last entry that participates in level `lvl`; `max_level` is the
/// level ceiling; `length` is the number of entries.
#[derive(Debug, Clone)]
pub struct BestTransactionLog {
    nodes: Vec<Node>,
    head: Option<usize>,
    tails: Vec<Option<usize>>,
    max_level: usize,
    pub length: u64,
}

impl BestTransactionLog {
    /// The log as the sequence of `(offset, payload)` pairs, in append order.
    pub closed spec fn view(&self) -> Seq<(u64, Seq<char>)> {
        self.nodes@.map(|i: int, n: Node| (n.offset, n.command@))
    }

    /// The current level ceiling.
    pub closed spec fn ceiling(&self) -> nat {
        self.max_level as nat
    }

    /// The entry count, as contracts see it; equals the `length` field.
    pub closed spec fn spec_length(&self) -> u64 {
        self.length
    }

    pub fn new_empty() -> (log: BestTransactionLog)
        ensures
            log.wf(),
            log@ == Seq::<(u64, Seq<char>)>::empty(),
            log.spec_length() == 0,
            log.ceiling() == 0,
    {
        let mut tails: Vec<Option<usize>> = Vec::new();
        tails.push(None);
        let log = BestTransactionLog { head: None, tails, max_level: 0, length: 0, nodes: Vec::new() };
        proof {
            assert(log@ =~= Seq::<(u64, Seq<char>)>::empty());
        }
        log
    }

    /// Everything at level `lvl` after node `i`: `next[lvl]` is the first
    /// later node participating at `lvl`, or `None` when there is none.
    spec fn link_ok(&self, i: int, lvl: int) -> bool {
        match self.nodes@[i].next@[lvl] {
            Some(j) => {
                &&& i < j < self.nodes@.len()
                &&& lvl < self.nodes@[j as int].next@.len()
                &&& forall|k: int| i < k < j ==> #[trigger] self.nodes@[k].next@.len() <= lvl
            },
            None => forall|k: int| i < k < self.nodes@.len() ==> #[trigger] self.nodes@[k].next@.len() <= lvl,
        }
    }

    /// `tails[lvl]` is the last node participating at level `lvl`, if any.
    spec fn tail_ok(&self, lvl: int) -> bool {
        match self.tails@[lvl] {
            Some(t) => {
                &&& 0 <= t < self.nodes@.len()
                &&& lvl < self.nodes@[t as int].next@.len()
                &&& forall|k: int| t < k < self.nodes@.len() ==> #[trigger] self.nodes@[k].next@.len() <= lvl
            },
            None => forall|k: int| 0 <= k < self.nodes@.len() ==> #[trigger] self.nodes@[k].next@.len() <= lvl,
        }
    }

    /// Well-formedness: the arena is in strictly increasing offset order,
    /// the head is the first entry, every node participates in level 0 and
    /// in no level above the ceiling, the head reaches the ceiling, and the
    /// per-level links and tails are consistent.
    pub closed spec fn wf(&self) -> bool {
        &&& self.length == self.nodes@.len()
        &&& self.tails@.len() == self.max_level + 1
        &&& (self.nodes@.len() == 0 <==> self.head is None)
        &&& (self.nodes@.len() > 0 ==> self.head == Some(0usize))
        &&& (forall|i: int| 0 <= i < self.nodes@.len() ==> 1 <= #[trigger] self.nodes@[i].next@.len() <= self.max_level + 1)
        &&& (self.nodes@.len() > 0 ==> self.nodes@[0].next@.len() == self.max_level + 1)
        &&& (forall|i: int, j: int| 0 <= i < j < self.nodes@.len() ==> #[trigger] self.nodes@[i].offset < #[trigger] self.nodes@[j].offset)
        &&& (forall|i: int, lvl: int| 0 <= i < self.nodes@.len() && 0 <= lvl < self.nodes@[i].next@.len() ==> #[trigger] self.link_ok(i, lvl))
        &&& (forall|lvl: int| 0 <= lvl < self.tails@.len() ==> #[trigger] self.tail_ok(lvl))
    }
}

/// Relies on rand::random::<bool>: a fair coin flip. Nothing is promised
/// of the result; every caller must be correct for both outcomes.
#[verifier::external_body]
fn coin_flip() -> bool {
    rand::random::<bool>()
}

impl BestTransactionLog {
    /// Draw a level for a new node: count fair coin flips that come up
    /// true, stopping at the first false or at the current ceiling.
    fn get_level(&self) -> (n: usize)
        ensures
            n <= self.max_level,
    {
        let mut n: usize = 0;
        let mut go = coin_flip();
        while go && n < self.max_level
            invariant
                n <= self.max_level,
            decreases self.max_level - n,
        {
            n = n + 1;
            go = coin_flip();
        }
        n
    }

    /// Append one entry. Offsets must be supplied in strictly increasing
    /// order; that is the caller's responsibility and is stated here as a
    /// precondition rather than checked at run time.
    pub fn append(&mut self, offset: u64, value: String)
        requires
            old(self).wf(),
            old(self)@.len() == 0 || old(self)@.last().0 < offset,
        ensures
            final(self).wf(),
            final(self)@ == old(self)@.push((offset, value@)),
            final(self).spec_length() == old(self).spec_length() + 1,
            final(self).ceiling() == old(self).ceiling(),
    {
        let ghost old_log = *old(self);
        // One tail slot exists per level up to the ceiling, so the slot
        // count is exactly one above the ceiling and bounds the draw.
        let slots: usize = self.tails.len();
        let level: usize = if self.head.is_none() {
            slots
        } else {
            self.get_level() + 1
        };

        let mut next: Vec<Option<usize>> = Vec::new();
        let mut i: usize = 0;
        while i < level
            invariant
                i <= level,
                next@.len() == i,
                forall|k: int| 0 <= k < i ==> next@[k] is None,
            decreases level - i,
        {
            next.push(None);
            i = i + 1;
        }

        let new_idx: usize = self.nodes.len();
        self.nodes.push(Node::new(next, offset, value));

        let mut i: usize = 0;
        while i < level
            invariant
                old_log.wf(),
                1 <= level <= old_log.max_level + 1,
                old_log.head is None ==> level == old_log.max_level + 1,
                i <= level,
                new_idx == old_log.nodes@.len(),
                self.nodes@.len() == new_idx + 1,
                self.nodes@[new_idx as int].offset == offset,
                self.nodes@[new_idx as int].command@ == value@,
                self.nodes@[new_idx as int].next@.len() == level,
                forall|lvl: int| 0 <= lvl < level ==> self.nodes@[new_idx as int].next@[lvl] is None,
                forall|k: int| 0 <= k < new_idx ==> #[trigger] self.nodes@[k].offset == old_log.nodes@[k].offset,
                forall|k: int| 0 <= k < new_idx ==> #[trigger] self.nodes@[k].command == old_log.nodes@[k].command,
                forall|k: int| 0 <= k < new_idx ==> #[trigger] self.nodes@[k].next@.len() == old_log.nodes@[k].next@.len(),
                forall|k: int, lvl: int|
                    0 <= k < new_idx && 0 <= lvl < old_log.nodes@[k].next@.len() ==> #[trigger] self.nodes@[k].next@[lvl]
                        == (if lvl < i && old_log.tails@[lvl] == Some(k as usize) {
                            Some(new_idx)
                        } else {
                            old_log.nodes@[k].next@[lvl]
                        }),
                self.tails@.len() == old_log.tails@.len(),
                forall|lvl: int| 0 <= lvl < i ==> #[trigger] self.tails@[lvl] == Some(new_idx),
                forall|lvl: int| i <= lvl < self.tails@.len() ==> #[trigger] self.tails@[lvl] == old_log.tails@[lvl],
                self.head == old_log.head,
                self.max_level == old_log.max_level,
                self.length == old_log.length,
            decreases level - i,
        {
            let t = self.tails[i];
            match t {
                Some(old_t) => {
                    proof {
                        assert(old_log.tail_ok(i as int));
                    }
                    self.nodes[old_t].next[i] = Some(new_idx);
                }
                None => {}
            }
            self.tails[i] = Some(new_idx);
            i = i + 1;
        }

        if self.head.is_none() {
            self.head = Some(new_idx);
        }
        self.length = self.nodes.len() as u64;

        proof {
            lemma_append_wf(old_log, *self, new_idx, level as int, offset, value@);
            assert(self@ =~= old_log@.push((offset, value@)));
        }
    }
}

/// What a lookup of `offset` yields on a log holding the entries `s`:
/// the payload of the first entry with that exact offset, or `None`.
pub open spec fn spec_find(s: Seq<(u64, Seq<char>)>, offset: u64) -> Option<Seq<char>>
    decreases s.len(),
{
    if s.len() == 0 {
        None
    } else if s[0].0 == offset {
        Some(s[0].1)
    } else {
        spec_find(s.drop_first(), offset)
    }
}

/// The entries carry strictly increasing offsets, in order.
pub open spec fn sorted_by_offset(s: Seq<(u64, Seq<char>)>) -> bool {
    forall|i: int, j: int| 0 <= i < j < s.len() ==> s[i].0 < s[j].0
}

/// The payload behind a lookup result, if any.
pub open spec fn result_view(r: Option<String>) -> Option<Seq<char>> {
    match r {
        Some(v) => Some(v@),
        None => None,
    }
}

impl BestTransactionLog {
    /// Look up the entry appended with exactly this offset and return a
    /// copy of its payload, or `None` when no such entry exists.
    pub fn find(&self, offset: u64) -> (result: Option<String>)
        requires
            self.wf(),
        ensures
            result_view(result) == spec_find(self@, offset),
    {
        match self.head {
            None => {
                proof {
                    assert(self@.len() == 0);
                }
                None
            }
            Some(h) => {
                let mut start_level: usize = self.max_level;
                while start_level > 0 && self.nodes[h].next[start_level].is_none()
                    invariant
                        self.wf(),
                        self.nodes@.len() > 0,
                        h == 0,
                        start_level <= self.max_level,
                    decreases start_level,
                {
                    start_level = start_level - 1;
                }

                let mut cur: usize = h;
                let mut lvl: usize = start_level;
                loop
                    invariant
                        self.wf(),
                        cur < self.nodes@.len(),
                        lvl < self.nodes@[cur as int].next@.len(),
                        cur == 0 || self.nodes@[cur as int].offset <= offset,
                    decreases lvl,
                {
                    loop
                        invariant
                            self.wf(),
                            cur < self.nodes@.len(),
                            lvl < self.nodes@[cur as int].next@.len(),
                            cur == 0 || self.nodes@[cur as int].offset <= offset,
                        ensures
                            cur < self.nodes@.len(),
                            lvl < self.nodes@[cur as int].next@.len(),
                            cur == 0 || self.nodes@[cur as int].offset <= offset,
                            match self.nodes@[cur as int].next@[lvl as int] {
                                Some(j) => self.nodes@[j as int].offset > offset,
                                None => true,
                            },
                        decreases self.nodes@.len() - cur,
                    {
                        proof {
                            assert(self.link_ok(cur as int, lvl as int));
                        }
                        let nxt = self.nodes[cur].next[lvl];
                        match nxt {
                            Some(j) => {
                                if self.nodes[j].offset <= offset {
                                    cur = j;
                                } else {
                                    break;
                                }
                            }
                            None => {
                                break;
                            }
                        }
                    }

                    if self.nodes[cur].offset == offset {
                        proof {
                            self.lemma_wf_sorted();
                            lemma_spec_find_present(self@, cur as int);
                        }
                        return Some(self.nodes[cur].command.clone());
                    }
                    if lvl == 0 {
                        proof {
                            self.lemma_wf_sorted();
                            let s = self@;
                            assert forall|t: int| 0 <= t < s.len() implies s[t].0 != offset by {
                                if self.nodes@[t].offset == offset {
                                    assert(self.nodes@[cur as int].offset != offset);
                                    if cur < t {
                                        assert(self.link_ok(cur as int, 0));
                                        match self.nodes@[cur as int].next@[0] {
                                            Some(j) => {
                                                if j > cur + 1 {
                                                    assert(self.nodes@[cur + 1].next@.len() <= 0);
                                                    assert(false);
                                                }
                                                assert(j == cur + 1);
                                                assert(self.nodes@[j as int].offset <= self.nodes@[t].offset);
                                                assert(false);
                                            }
                                            None => {
                                                assert(self.nodes@[t].next@.len() <= 0);
                                                assert(false);
                                            }
                                        }
                                    } else if cur > t {
                                        assert(self.nodes@[t].offset < self.nodes@[cur as int].offset);
                                        assert(cur == 0 || self.nodes@[cur as int].offset <= offset);
                                        assert(false);
                                    }
                                }
                            }
                            lemma_spec_find_absent(s, offset);
                        }
                        return None;
                    }
                    lvl = lvl - 1;
                }
            }
        }
    }

    /// A well-formed log holds its entries in strictly increasing offset order.
    pub proof fn lemma_wf_sorted(&self)
        requires
            self.wf(),
        ensures
            sorted_by_offset(self@),
    {
    }

    /// `length` counts exactly the entries appended so far, and no
    /// lookup can change it, since `find` borrows the log immutably.
    pub proof fn lemma_length_counts_entries(&self)
        requires
            self.wf(),
        ensures
            self.spec_length() == self@.len(),
    {
    }
}

/// A lookup on a log with no entries is absent, whatever the offset.
pub proof fn lemma_find_empty(offset: u64)
    ensures
        spec_find(Seq::<(u64, Seq<char>)>::empty(), offset) is None,
{
}

/// Repeated lookups with no intervening append agree: what `find`
/// returns is a function of the log's entries and the offset alone.
pub proof fn lemma_find_idempotent(s: Seq<(u64, Seq<char>)>, offset: u64, r1: Option<String>, r2: Option<String>)
    requires
        result_view(r1) == spec_find(s, offset),
        result_view(r2) == spec_find(s, offset),
    ensures
        result_view(r1) == result_view(r2),
{
}

/// On a log in strictly increasing offset order, looking up the offset of
/// any entry yields exactly that entry's payload: appended values round-trip.
pub proof fn lemma_spec_find_present(s: Seq<(u64, Seq<char>)>, i: int)
    requires
        sorted_by_offset(s),
        0 <= i < s.len(),
    ensures
        spec_find(s, s[i].0) == Some(s[i].1),
    decreases s.len(),
{
    if i > 0 {
        let t = s.drop_first();
        assert(s[0].0 < s[i].0);
        assert forall|p: int, q: int| 0 <= p < q < t.len() implies t[p].0 < t[q].0 by {
            assert(t[p] == s[p + 1]);
            assert(t[q] == s[q + 1]);
        }
        lemma_spec_find_present(t, i - 1);
        assert(t[i - 1] == s[i]);
    }
}

/// An offset that no entry carries is never found.
pub proof fn lemma_spec_find_absent(s: Seq<(u64, Seq<char>)>, offset: u64)
    requires
        forall|i: int| 0 <= i < s.len() ==> s[i].0 != offset,
    ensures
        spec_find(s, offset) is None,
    decreases s.len(),
{
    if s.len() > 0 {
        let t = s.drop_first();
        assert forall|i: int| 0 <= i < t.len() implies t[i].0 != offset by {
            assert(t[i] == s[i + 1]);
        }
        lemma_spec_find_absent(t, offset);
    }
}

/// The state after the linking pass of an append: `post` differs from
/// `pre` by one new node at index `n` with `lvl_cnt` empty forward slots,
/// by the forward links of the old per-level tails below `lvl_cnt`, by
/// the tails below `lvl_cnt`, by the head when `pre` was empty, and by
/// the length.
spec fn append_shape(pre: BestTransactionLog, post: BestTransactionLog, n: usize, lvl_cnt: int, offset: u64, value: Seq<char>) -> bool {
    &&& 1 <= lvl_cnt <= pre.max_level + 1
    &&& (pre.head is None ==> lvl_cnt == pre.max_level + 1)
    &&& n == pre.nodes@.len()
    &&& post.nodes@.len() == n + 1
    &&& post.nodes@[n as int].offset == offset
    &&& post.nodes@[n as int].command@ == value
    &&& post.nodes@[n as int].next@.len() == lvl_cnt
    &&& (forall|lvl: int| 0 <= lvl < lvl_cnt ==> post.nodes@[n as int].next@[lvl] is None)
    &&& (forall|k: int| 0 <= k < n ==> #[trigger] post.nodes@[k].offset == pre.nodes@[k].offset)
    &&& (forall|k: int| 0 <= k < n ==> #[trigger] post.nodes@[k].command == pre.nodes@[k].command)
    &&& (forall|k: int| 0 <= k < n ==> #[trigger] post.nodes@[k].next@.len() == pre.nodes@[k].next@.len())
    &&& (forall|k: int, lvl: int|
            0 <= k < n && 0 <= lvl < pre.nodes@[k].next@.len() ==> #[trigger] post.nodes@[k].next@[lvl]
                == (if lvl < lvl_cnt && pre.tails@[lvl] == Some(k as usize) {
                    Some(n as usize)
                } else {
                    pre.nodes@[k].next@[lvl]
                }))
    &&& post.tails@.len() == pre.tails@.len()
    &&& (forall|lvl: int| 0 <= lvl < lvl_cnt ==> #[trigger] post.tails@[lvl] == Some(n as usize))
    &&& (forall|lvl: int| lvl_cnt <= lvl < post.tails@.len() ==> #[trigger] post.tails@[lvl] == pre.tails@[lvl])
    &&& post.head == (if pre.head is None { Some(n as usize) } else { pre.head })
    &&& post.max_level == pre.max_level
    &&& post.length == pre.length + 1
}

/// An append in strictly increasing offset order keeps the log well formed.
proof fn lemma_append_wf(pre: BestTransactionLog, post: BestTransactionLog, n: usize, lvl_cnt: int, offset: u64, value: Seq<char>)
    requires
        pre.wf(),
        pre@.len() == 0 || pre@.last().0 < offset,
        append_shape(pre, post, n, lvl_cnt, offset, value),
    ensures
        post.wf(),
{
    let pn = pre.nodes@;
    let qn = post.nodes@;

    assert forall|k: int| 0 <= k < n implies pn[k].offset < offset by {
        if k < n - 1 {
            assert(pn[k].offset < pn[n as int - 1].offset);
        }
        assert(pre@[n as int - 1].0 == pn[n as int - 1].offset);
    }

    assert forall|k: int, lvl: int| 0 <= k < qn.len() && 0 <= lvl < qn[k].next@.len() implies #[trigger] post.link_ok(k, lvl) by {
        if k == n {
            assert(qn[k].next@[lvl] is None);
        } else {
            assert(pre.link_ok(k, lvl));
            if lvl < lvl_cnt && pre.tails@[lvl] == Some(k as usize) {
                assert(qn[k].next@[lvl] == Some(n as usize));
                assert(pre.tail_ok(lvl));
                assert(forall|m: int| k < m < n ==> #[trigger] qn[m].next@.len() <= lvl);
            } else {
                assert(qn[k].next@[lvl] == pn[k].next@[lvl]);
                match pn[k].next@[lvl] {
                    Some(j) => {
                        assert(post.link_ok(k, lvl));
                    }
                    None => {
                        // pre's links at lvl end at k, so k was pre's tail at lvl
                        // unless the new node also stays below lvl.
                        if lvl < lvl_cnt {
                            assert(pre.tail_ok(lvl));
                            match pre.tails@[lvl] {
                                Some(t) => {
                                    if t < k {
                                        assert(pn[k].next@.len() <= lvl);
                                        assert(false);
                                    } else if t > k {
                                        assert(pn[t as int].next@.len() <= lvl);
                                        assert(false);
                                    } else {
                                        assert(false);
                                    }
                                }
                                None => {
                                    assert(pn[k].next@.len() <= lvl);
                                    assert(false);
                                }
                            }
                        } else {
                            assert(qn[n as int].next@.len() == lvl_cnt <= lvl);
                            assert(forall|m: int| k < m < qn.len() ==> #[trigger] qn[m].next@.len() <= lvl);
                        }
                    }
                }
            }
        }
    }

    assert forall|lvl: int| 0 <= lvl < post.tails@.len() implies #[trigger] post.tail_ok(lvl) by {
        if lvl < lvl_cnt {
            assert(post.tails@[lvl] == Some(n as usize));
            assert(qn[n as int].next@.len() == lvl_cnt > lvl);
        } else {
            assert(post.tails@[lvl] == pre.tails@[lvl]);
            assert(pre.tail_ok(lvl));
            match pre.tails@[lvl] {
                Some(t) => {
                    assert(forall|m: int| t < m < qn.len() ==> #[trigger] qn[m].next@.len() <= lvl);
                }
                None => {
                    assert(forall|m: int| 0 <= m < qn.len() ==> #[trigger] qn[m].next@.len() <= lvl);
                }
            }
        }
    }

    assert forall|i: int, j: int| 0 <= i < j < qn.len() implies #[trigger] qn[i].offset < #[trigger] qn[j].offset by {
        if j == n {
            assert(qn[i].offset == pn[i].offset);
        }
    }

    if pre.nodes@.len() == 0 {
        assert(post.nodes@[0].next@.len() == post.max_level + 1);
    }
}

} // verus!
