//! The in-memory table: a skip list over byte-string keys, kept in an
//! arena of nodes linked by index.
use vstd::prelude::*;

use crate::keys::{
    entries_map, is_ordered_scan, key_eq, key_lt, lemma_entries_map_index, lemma_entries_map_insert,
    lemma_entries_map_len, lemma_entries_map_remove, lemma_entries_map_update, lemma_lex_irreflexive,
    lemma_lex_total, lemma_lex_transitive, lemma_sorted_run_is_scan, lex_lt, sorted_by_key,
};
use crate::types::{copy_bytes, pairs_view, Key, KeyRange, KeyValue, Value};

verus! {

/// The number of levels of the skip list.
pub const MAX_HEIGHT: usize = 16;

/// Flips a coin with `rand::random::<bool>()`, the thread-local generator of
/// the `rand` crate. Nothing is promised of the outcome.
#[verifier::external_body]
fn coin_flip() -> bool {
    rand::random::<bool>()
}

struct SkipListNode {
    key: Key,
    value: Value,
    forwards: Vec<Option<usize>>,
}

/// A skip list mapping byte-string keys to byte-string values, in key order.
///
/// Node 0 is the head; it holds no entry and has a link on every level.
/// Level `l` is the chain of nodes reached from the head by the links
/// `forwards[l]`; level 0 holds every entry, each higher level a subset of
/// the level below. Unlinked nodes stay in the arena.
pub struct SkipList {
    nodes: Vec<SkipListNode>,
    head: usize,
    height: usize,
    len: usize,
    levels: Ghost<Seq<Seq<usize>>>,
}

impl SkipList {
    spec fn key_at(&self, n: int) -> Seq<u8> {
        self.nodes@[n].key@
    }

    spec fn value_at(&self, n: int) -> Seq<u8> {
        self.nodes@[n].value@
    }

    spec fn next_at(&self, n: int, l: int) -> Option<usize> {
        self.nodes@[n].forwards@[l]
    }

    spec fn chain(&self, l: int) -> Seq<usize> {
        self.levels@[l]
    }

    /// The node that stands before position `p` of level `l`.
    spec fn node_before(&self, l: int, p: int) -> usize {
        if p == 0 {
            self.head
        } else {
            self.levels@[l][p - 1]
        }
    }

    /// The node at position `p` of level `l`, if any.
    spec fn node_at(&self, l: int, p: int) -> Option<usize> {
        if p < self.levels@[l].len() {
            Some(self.levels@[l][p])
        } else {
            None
        }
    }

    spec fn level_wf(&self, l: int) -> bool {
        &&& forall|k: int|
            #![trigger self.levels@[l][k]]
            0 <= k < self.levels@[l].len() ==> {
                &&& 1 <= self.levels@[l][k] < self.nodes@.len()
                &&& l < self.nodes@[self.levels@[l][k] as int].forwards@.len()
            }
        &&& forall|p: int|
            #![trigger self.node_before(l, p)]
            0 <= p <= self.levels@[l].len() ==> self.next_at(self.node_before(l, p) as int, l)
                == self.node_at(l, p)
        &&& forall|i: int, j: int|
            #![trigger self.levels@[l][i], self.levels@[l][j]]
            0 <= i < j < self.levels@[l].len() ==> lex_lt(
                self.key_at(self.levels@[l][i] as int),
                self.key_at(self.levels@[l][j] as int),
            )
    }

    /// The well-formedness of the list: the chains of every level are
    /// linked as recorded, sorted by key, and nested.
    pub closed spec fn wf(&self) -> bool {
        &&& self.head == 0
        &&& self.nodes@.len() >= 1
        &&& self.nodes@[0].forwards@.len() == MAX_HEIGHT
        &&& 1 <= self.height <= MAX_HEIGHT
        &&& self.levels@.len() == MAX_HEIGHT
        &&& self.len == self.levels@[0].len()
        &&& self.len < self.nodes@.len()
        &&& forall|l: int| 0 <= l < MAX_HEIGHT ==> #[trigger] self.level_wf(l)
        &&& forall|l: int| self.height <= l < MAX_HEIGHT ==> (#[trigger] self.levels@[l]).len() == 0
        &&& forall|l: int, x: usize|
            0 < l < MAX_HEIGHT && #[trigger] self.levels@[l].contains(x) ==> self.levels@[l
                - 1].contains(x)
    }

    /// The entries in key order.
    pub closed spec fn entries(&self) -> Seq<(Seq<u8>, Seq<u8>)> {
        self.levels@[0].map_values(|n: usize| (self.key_at(n as int), self.value_at(n as int)))
    }

    /// `p` is the number of keys of level `l` below `t`.
    spec fn is_lower_pos(&self, l: int, t: Seq<u8>, p: int) -> bool {
        &&& 0 <= p <= self.levels@[l].len()
        &&& forall|j: int|
            0 <= j < p ==> lex_lt(self.key_at(#[trigger] self.levels@[l][j] as int), t)
        &&& forall|j: int|
            p <= j < self.levels@[l].len() ==> !lex_lt(
                self.key_at(#[trigger] self.levels@[l][j] as int),
                t,
            )
    }

    proof fn lemma_entries_sorted(&self)
        requires
            self.wf(),
        ensures
            sorted_by_key(self.entries()),
            self.entries().len() == self.len,
    {
        assert(self.level_wf(0));
        let e = self.entries();
        assert forall|i: int, j: int| 0 <= i < j < e.len() implies lex_lt(
            #[trigger] e[i].0,
            #[trigger] e[j].0,
        ) by {
            assert(self.levels@[0][i] == self.levels@[0][i]);
            assert(self.levels@[0][j] == self.levels@[0][j]);
        }
    }

    /// A node of a level is on every level below it.
    proof fn lemma_level_subset(&self, l1: int, l2: int, x: usize)
        requires
            self.wf(),
            0 <= l1 <= l2 < MAX_HEIGHT,
            self.levels@[l2].contains(x),
        ensures
            self.levels@[l1].contains(x),
        decreases l2 - l1,
    {
        if l1 < l2 {
            assert(self.levels@[l2 - 1].contains(x));
            self.lemma_level_subset(l1, l2 - 1, x);
        }
    }

    /// Positions of a level hold distinct nodes, none of them the head.
    proof fn lemma_positions_distinct(&self, l: int, p: int, q: int)
        requires
            self.wf(),
            0 <= l < MAX_HEIGHT,
            0 <= p <= self.levels@[l].len(),
            0 <= q <= self.levels@[l].len(),
            p != q,
        ensures
            self.node_before(l, p) != self.node_before(l, q),
    {
        broadcast use lemma_lex_irreflexive;

        assert(self.level_wf(l));
        if p > 0 && q > 0 {
            let c = self.levels@[l];
            assert(c[p - 1] == c[p - 1]);
            assert(c[q - 1] == c[q - 1]);
        } else if p > 0 {
            assert(self.levels@[l][p - 1] >= 1);
        } else {
            assert(self.levels@[l][q - 1] >= 1);
        }
    }

    /// The keys of a level below `t`, found from a position on the level
    /// above, carry over to the level below.
    proof fn lemma_descend(&self, l: int, t: Seq<u8>, p: int) -> (q: int)
        requires
            self.wf(),
            0 < l < MAX_HEIGHT,
            self.is_lower_pos(l, t, p),
        ensures
            0 <= q <= self.levels@[l - 1].len(),
            self.node_before(l - 1, q) == self.node_before(l, p),
            forall|j: int|
                0 <= j < q ==> lex_lt(self.key_at(#[trigger] self.levels@[l - 1][j] as int), t),
    {
        if p == 0 {
            0
        } else {
            let x = self.levels@[l][p - 1];
            assert(lex_lt(self.key_at(self.levels@[l][p - 1] as int), t));
            assert(self.levels@[l].contains(x));
            assert(self.levels@[l - 1].contains(x));
            let c = self.levels@[l - 1];
            let i = choose|i: int| 0 <= i < c.len() && c[i] == x;
            assert(self.level_wf(l - 1));
            assert forall|j: int| 0 <= j < i + 1 implies lex_lt(
                self.key_at(#[trigger] self.levels@[l - 1][j] as int),
                t,
            ) by {
                if j < i {
                    assert(c[j] == c[j]);
                    assert(c[i] == c[i]);
                    lemma_lex_transitive(self.key_at(c[j] as int), self.key_at(x as int), t);
                }
            }
            i + 1
        }
    }

    /// Walks level `level` from `start`, the node before position `p0`, to
    /// the last node whose key is below `key`.
    fn search_level(&self, level: usize, start: usize, key: &[u8], Ghost(p0): Ghost<int>) -> (res: (
        usize,
        Ghost<int>,
    ))
        requires
            self.wf(),
            level < MAX_HEIGHT,
            0 <= p0 <= self.levels@[level as int].len(),
            start == self.node_before(level as int, p0),
            forall|j: int|
                0 <= j < p0 ==> lex_lt(
                    self.key_at(#[trigger] self.levels@[level as int][j] as int),
                    key@,
                ),
        ensures
            res.0 == self.node_before(level as int, res.1@),
            self.is_lower_pos(level as int, key@, res.1@),
    {
        let ghost l = level as int;
        let mut current = start;
        let ghost mut p = p0;
        loop
            invariant
                self.wf(),
                l == level,
                level < MAX_HEIGHT,
                0 <= p <= self.levels@[l].len(),
                current == self.node_before(l, p),
                forall|j: int|
                    0 <= j < p ==> lex_lt(self.key_at(#[trigger] self.levels@[l][j] as int), key@),
            ensures
                current == self.node_before(l, p),
                self.is_lower_pos(l, key@, p),
            decreases self.levels@[l].len() - p,
        {
            proof {
                assert(self.level_wf(l));
                assert(self.next_at(self.node_before(l, p) as int, l) == self.node_at(l, p));
                if p > 0 {
                    assert(self.levels@[l][p - 1] == self.levels@[l][p - 1]);
                }
            }
            match self.nodes[current].forwards[level] {
                None => {
                    break ;
                },
                Some(next) => {
                    assert(next == self.levels@[l][p]);
                    if !key_lt(&self.nodes[next].key, key) {
                        proof {
                            assert forall|j: int| p <= j < self.levels@[l].len() implies !lex_lt(
                                self.key_at(#[trigger] self.levels@[l][j] as int),
                                key@,
                            ) by {
                                if j > p && lex_lt(self.key_at(self.levels@[l][j] as int), key@) {
                                    assert(self.levels@[l][p] == self.levels@[l][p]);
                                    lemma_lex_transitive(
                                        self.key_at(self.levels@[l][p] as int),
                                        self.key_at(self.levels@[l][j] as int),
                                        key@,
                                    );
                                }
                            }
                        }
                        break ;
                    }
                    current = next;
                    proof {
                        p = p + 1;
                    }
                },
            }
        }
        (current, Ghost(p))
    }

    /// For every level, finds the last node whose key is below `key` and
    /// records it in `update`; returns the first node of level 0 whose key is
    /// not below `key`.
    fn find_update_path(&self, key: &[u8], update: &mut Vec<usize>) -> (res: (
        Option<usize>,
        Ghost<Seq<int>>,
    ))
        requires
            self.wf(),
            old(update)@.len() == MAX_HEIGHT,
            forall|l: int| 0 <= l < MAX_HEIGHT ==> old(update)@[l] == self.head,
        ensures
            final(update)@.len() == MAX_HEIGHT,
            res.1@.len() == MAX_HEIGHT,
            forall|l: int|
                0 <= l < MAX_HEIGHT ==> {
                    &&& self.is_lower_pos(l, key@, #[trigger] res.1@[l])
                    &&& final(update)@[l] == self.node_before(l, res.1@[l])
                },
            res.0 == self.node_at(0, res.1@[0]),
    {
        let mut current = self.head;
        let ghost mut pos: Seq<int> = Seq::new(MAX_HEIGHT as nat, |l: int| 0int);
        let mut level = self.height;
        proof {
            assert forall|l: int| self.height <= l < MAX_HEIGHT implies self.is_lower_pos(
                l,
                key@,
                pos[l],
            ) by {
                assert(self.levels@[l].len() == 0);
            }
        }
        while level > 0
            invariant
                self.wf(),
                0 <= level <= self.height,
                update@.len() == MAX_HEIGHT,
                pos.len() == MAX_HEIGHT,
                forall|l: int| 0 <= l < level ==> update@[l] == self.head,
                forall|l: int|
                    level <= l < MAX_HEIGHT ==> {
                        &&& self.is_lower_pos(l, key@, #[trigger] pos[l])
                        &&& update@[l] == self.node_before(l, pos[l])
                    },
                level == self.height ==> current == self.head,
                level < self.height ==> current == self.node_before(level as int, pos[level as int]),
            decreases level,
        {
            level = level - 1;
            let ghost q = if level + 1 == self.height {
                0int
            } else {
                self.lemma_descend(level + 1, key@, pos[level + 1])
            };
            let (found, Ghost(np)) = self.search_level(level, current, key, Ghost(q));
            current = found;
            update[level] = current;
            proof {
                pos = pos.update(level as int, np);
            }
        }
        proof {
            assert(self.level_wf(0));
            assert(self.next_at(self.node_before(0, pos[0]) as int, 0) == self.node_at(0, pos[0]));
            if pos[0] > 0 {
                assert(self.levels@[0][pos[0] - 1] == self.levels@[0][pos[0] - 1]);
            }
        }
        (self.nodes[current].forwards[0], Ghost(pos))
    }

    /// Whether `t` is a key of the list, read off its position on level 0.
    proof fn lemma_lookup(&self, t: Seq<u8>, p: int)
        requires
            self.wf(),
            self.is_lower_pos(0, t, p),
        ensures
            self@.contains_key(t) <==> (p < self.levels@[0].len() && self.key_at(
                self.levels@[0][p] as int,
            ) == t),
            p < self.levels@[0].len() && self.key_at(self.levels@[0][p] as int) == t ==> self@[t]
                == self.value_at(self.levels@[0][p] as int),
    {
        broadcast use lemma_lex_irreflexive;

        self.lemma_entries_sorted();
        let e = self.entries();
        let c = self.levels@[0];
        assert(self.level_wf(0));
        if p < c.len() && self.key_at(c[p] as int) == t {
            assert(e[p] == (self.key_at(c[p] as int), self.value_at(c[p] as int)));
            lemma_entries_map_index(e, p);
        }
        if self@.contains_key(t) {
            let j = choose|j: int| 0 <= j < e.len() && #[trigger] e[j].0 == t;
            assert(e[j].0 == self.key_at(c[j] as int));
            if j < p {
                assert(lex_lt(self.key_at(c[j] as int), t));
            } else if j > p {
                assert(c[p] == c[p]);
                assert(c[j] == c[j]);
                assert(lex_lt(self.key_at(c[p] as int), self.key_at(c[j] as int)));
                assert(!lex_lt(self.key_at(c[p] as int), t));
            }
        }
    }

    /// Finds the first node of level 0 whose key is not below `key`.
    fn lower_bound(&self, key: &[u8]) -> (res: (Option<usize>, Ghost<int>))
        requires
            self.wf(),
        ensures
            self.is_lower_pos(0, key@, res.1@),
            res.0 == self.node_at(0, res.1@),
    {
        let mut current = self.head;
        let ghost mut p: int = 0;
        let mut level = self.height;
        while level > 0
            invariant
                self.wf(),
                0 <= level <= self.height,
                level == self.height ==> current == self.head,
                level < self.height ==> {
                    &&& self.is_lower_pos(level as int, key@, p)
                    &&& current == self.node_before(level as int, p)
                },
            decreases level,
        {
            level = level - 1;
            let ghost q = if level + 1 == self.height {
                0int
            } else {
                self.lemma_descend(level + 1, key@, p)
            };
            let (found, Ghost(np)) = self.search_level(level, current, key, Ghost(q));
            current = found;
            proof {
                p = np;
            }
        }
        proof {
            assert(self.level_wf(0));
            assert(self.next_at(self.node_before(0, p) as int, 0) == self.node_at(0, p));
            if p > 0 {
                assert(self.levels@[0][p - 1] == self.levels@[0][p - 1]);
            }
        }
        (self.nodes[current].forwards[0], Ghost(p))
    }

    /// An empty list.
    pub fn new() -> (r: Self)
        ensures
            r.wf(),
            r@ == Map::<Seq<u8>, Seq<u8>>::empty(),
    {
        let mut forwards: Vec<Option<usize>> = Vec::new();
        let mut i: usize = 0;
        while i < MAX_HEIGHT
            invariant
                i <= MAX_HEIGHT,
                forwards@.len() == i,
                forall|j: int| 0 <= j < i ==> forwards@[j] is None,
            decreases MAX_HEIGHT - i,
        {
            forwards.push(None);
            i = i + 1;
        }
        let mut nodes: Vec<SkipListNode> = Vec::new();
        nodes.push(SkipListNode { key: Vec::new(), value: Vec::new(), forwards });
        let r = SkipList {
            nodes,
            head: 0,
            height: 1,
            len: 0,
            levels: Ghost(Seq::new(MAX_HEIGHT as nat, |l: int| Seq::<usize>::empty())),
        };
        proof {
            assert forall|l: int| 0 <= l < MAX_HEIGHT implies #[trigger] r.level_wf(l) by {
                assert(r.levels@[l].len() == 0);
            }
            assert(r.entries().len() == 0);
            assert(r@ =~= Map::<Seq<u8>, Seq<u8>>::empty());
        }
        r
    }

    /// The number of entries.
    pub fn len(&self) -> (n: usize)
        requires
            self.wf(),
        ensures
            n == self@.len(),
    {
        proof {
            self.lemma_entries_sorted();
            lemma_entries_map_len(self.entries());
        }
        self.len
    }

    /// A list holds finitely many entries.
    pub proof fn lemma_finite(&self)
        requires
            self.wf(),
        ensures
            self@.dom().finite(),
    {
        self.lemma_entries_sorted();
        lemma_entries_map_len(self.entries());
    }

    /// Whether the list holds no entry.
    pub fn is_empty(&self) -> (b: bool)
        requires
            self.wf(),
        ensures
            b == (self@.len() == 0),
    {
        proof {
            self.lemma_entries_sorted();
            lemma_entries_map_len(self.entries());
        }
        self.len == 0
    }

    /// The value stored under `key`, if any.
    pub fn search(&self, key: &[u8]) -> (r: Option<&Value>)
        requires
            self.wf(),
        ensures
            match r {
                Some(v) => self@.contains_key(key@) && self@[key@] == v@,
                None => !self@.contains_key(key@),
            },
    {
        let (candidate, Ghost(p)) = self.lower_bound(key);
        proof {
            self.lemma_lookup(key@, p);
            assert(self.level_wf(0));
        }
        match candidate {
            None => None,
            Some(c) => {
                if key_eq(&self.nodes[c].key, key) {
                    Some(&self.nodes[c].value)
                } else {
                    None
                }
            },
        }
    }

    /// The list that results from linking a new node `idx` holding `(t, v)`
    /// after the nodes `upd` on its lowest `h` levels is well formed, and its
    /// entries gain `(t, v)` at the sorted place.
    proof fn lemma_insert_links(
        before: SkipList,
        after: SkipList,
        t: Seq<u8>,
        v: Seq<u8>,
        h: int,
        pos: Seq<int>,
        upd: Seq<usize>,
    )
        requires
            before.wf(),
            1 <= h <= MAX_HEIGHT,
            pos.len() == MAX_HEIGHT,
            upd.len() == MAX_HEIGHT,
            forall|l: int|
                0 <= l < MAX_HEIGHT ==> {
                    &&& before.is_lower_pos(l, t, #[trigger] pos[l])
                    &&& upd[l] == before.node_before(l, pos[l])
                },
            !before@.contains_key(t),
            before.nodes@.len() < usize::MAX,
            after.head == before.head,
            after.height == if h > before.height {
                h
            } else {
                before.height as int
            },
            after.len == before.len + 1,
            after.nodes@.len() == before.nodes@.len() + 1,
            after.key_at(before.nodes@.len() as int) == t,
            after.value_at(before.nodes@.len() as int) == v,
            after.nodes@[before.nodes@.len() as int].forwards@.len() == h,
            forall|l: int|
                0 <= l < h ==> after.next_at(before.nodes@.len() as int, l) == before.node_at(
                    l,
                    pos[l],
                ),
            forall|n: int|
                #![trigger after.nodes@[n]]
                0 <= n < before.nodes@.len() ==> {
                    &&& after.key_at(n) == before.key_at(n)
                    &&& after.value_at(n) == before.value_at(n)
                    &&& after.nodes@[n].forwards@.len() == before.nodes@[n].forwards@.len()
                },
            forall|n: int, l: int|
                0 <= n < before.nodes@.len() && 0 <= l < before.nodes@[n].forwards@.len()
                    ==> #[trigger] after.next_at(n, l) == if l < h && n == upd[l] {
                    Some(before.nodes@.len() as usize)
                } else {
                    before.next_at(n, l)
                },
            after.levels@ == Seq::new(
                MAX_HEIGHT as nat,
                |l: int|
                    if l < h {
                        before.levels@[l].insert(pos[l], before.nodes@.len() as usize)
                    } else {
                        before.levels@[l]
                    },
            ),
        ensures
            after.wf(),
            after.entries() == before.entries().insert(pos[0], (t, v)),
    {
        broadcast use lemma_lex_irreflexive;

        let idx = before.nodes@.len() as usize;
        assert forall|l: int| 0 <= l < MAX_HEIGHT implies #[trigger] after.level_wf(l) by {
            let c = before.levels@[l];
            assert(before.level_wf(l));
            if l < h {
                let p = pos[l];
                let c2 = after.levels@[l];
                assert(c2 == c.insert(p, idx));
                assert(before.is_lower_pos(l, t, pos[l]));
                assert forall|k: int| 0 <= k < c2.len() implies {
                    &&& 1 <= #[trigger] c2[k] < after.nodes@.len()
                    &&& l < after.nodes@[c2[k] as int].forwards@.len()
                } by {
                    if k < p {
                        assert(c2[k] == c[k]);
                        assert(c[k] == c[k]);
                    } else if k > p {
                        assert(c2[k] == c[k - 1]);
                        assert(c[k - 1] == c[k - 1]);
                    }
                }
                assert forall|q: int| 0 <= q <= c2.len() implies #[trigger] after.next_at(
                    after.node_before(l, q) as int,
                    l,
                ) == after.node_at(l, q) by {
                    if q <= p {
                        assert(after.node_before(l, q) == before.node_before(l, q)) by {
                            if q > 0 {
                                assert(c2[q - 1] == c[q - 1]);
                            }
                        }
                        let n = before.node_before(l, q);
                        assert(before.next_at(n as int, l) == before.node_at(l, q));
                        if q > 0 {
                            assert(c[q - 1] == c[q - 1]);
                        }
                        if q < p {
                            before.lemma_positions_distinct(l, q, p);
                            assert(c2[q] == c[q]);
                        }
                    } else if q == p + 1 {
                        assert(after.node_before(l, q) == idx);
                        if p < c.len() {
                            assert(c2[p + 1] == c[p]);
                        }
                    } else {
                        assert(c2[q - 1] == c[q - 2]);
                        assert(after.node_before(l, q) == before.node_before(l, q - 1));
                        let n = before.node_before(l, q - 1);
                        assert(c[q - 2] == c[q - 2]);
                        assert(before.next_at(n as int, l) == before.node_at(l, q - 1));
                        before.lemma_positions_distinct(l, q - 1, p);
                        if q < c2.len() {
                            assert(c2[q] == c[q - 1]);
                        }
                    }
                }
                assert forall|i: int, j: int| 0 <= i < j < c2.len() implies lex_lt(
                    after.key_at(#[trigger] c2[i] as int),
                    after.key_at(#[trigger] c2[j] as int),
                ) by {
                    let ki = if i < p {
                        c[i]
                    } else if i == p {
                        idx
                    } else {
                        c[i - 1]
                    };
                    let kj = if j < p {
                        c[j]
                    } else if j == p {
                        idx
                    } else {
                        c[j - 1]
                    };
                    assert(c2[i] == ki);
                    assert(c2[j] == kj);
                    if j == p {
                        assert(lex_lt(before.key_at(c[i] as int), t));
                    } else if i == p {
                        before.lemma_above_is_greater(l, t, j - 1);
                    } else if i < p && j > p {
                        before.lemma_above_is_greater(l, t, j - 1);
                        assert(lex_lt(before.key_at(c[i] as int), t));
                        lemma_lex_transitive(before.key_at(c[i] as int), t, before.key_at(c[j - 1] as int));
                    }
                }
            } else {
                assert(after.levels@[l] == c);
                assert forall|q: int| 0 <= q <= c.len() implies #[trigger] after.next_at(
                    after.node_before(l, q) as int,
                    l,
                ) == after.node_at(l, q) by {
                    let n = before.node_before(l, q);
                    assert(before.next_at(n as int, l) == before.node_at(l, q));
                    if q > 0 {
                        assert(c[q - 1] == c[q - 1]);
                    }
                }
                assert forall|i: int, j: int| 0 <= i < j < c.len() implies lex_lt(
                    after.key_at(#[trigger] c[i] as int),
                    after.key_at(#[trigger] c[j] as int),
                ) by {
                    assert(lex_lt(before.key_at(c[i] as int), before.key_at(c[j] as int)));
                }
            }
        }
        assert forall|l: int, x: usize|
            0 < l < MAX_HEIGHT && #[trigger] after.levels@[l].contains(x) implies after.levels@[l
            - 1].contains(x) by {
            let c = before.levels@[l];
            let cb = before.levels@[l - 1];
            let k = choose|k: int| 0 <= k < after.levels@[l].len() && after.levels@[l][k] == x;
            if x == idx && l < h {
                assert(after.levels@[l - 1][pos[l - 1]] == idx);
            } else {
                let kk = if l < h && k > pos[l] {
                    k - 1
                } else {
                    k
                };
                assert(c[kk] == x);
                assert(c.contains(x));
                assert(cb.contains(x));
                let m = choose|m: int| 0 <= m < cb.len() && cb[m] == x;
                if l - 1 < h {
                    let mm = if m >= pos[l - 1] {
                        m + 1
                    } else {
                        m
                    };
                    assert(after.levels@[l - 1][mm] == x);
                } else {
                    assert(after.levels@[l - 1][m] == x);
                }
            }
        }
        assert forall|l: int| after.height <= l < MAX_HEIGHT implies (
        #[trigger] after.levels@[l]).len() == 0 by {
            assert(before.levels@[l].len() == 0);
        }
        let e2 = after.entries();
        let e1 = before.entries().insert(pos[0], (t, v));
        assert(e2.len() == e1.len());
        assert(before.level_wf(0));
        assert forall|j: int| 0 <= j < e2.len() implies e2[j] == e1[j] by {
            let c = before.levels@[0];
            if j < pos[0] {
                assert(after.levels@[0][j] == c[j]);
                assert(c[j] == c[j]);
                assert(after.nodes@[c[j] as int] == after.nodes@[c[j] as int]);
                assert(e1[j] == before.entries()[j]);
            } else if j == pos[0] {
                assert(after.levels@[0][j] == idx);
            } else if j > pos[0] {
                assert(after.levels@[0][j] == c[j - 1]);
                assert(c[j - 1] == c[j - 1]);
                assert(after.nodes@[c[j - 1] as int] == after.nodes@[c[j - 1] as int]);
                assert(e1[j] == before.entries()[j - 1]);
            }
        }
        assert(e2 =~= e1);
    }

    /// A node of a level at or above the position of `t` has a key above `t`
    /// when `t` is not a key of the list.
    proof fn lemma_above_is_greater(&self, l: int, t: Seq<u8>, j: int)
        requires
            self.wf(),
            0 <= l < MAX_HEIGHT,
            !self@.contains_key(t),
            0 <= j < self.levels@[l].len(),
            !lex_lt(self.key_at(self.levels@[l][j] as int), t),
        ensures
            lex_lt(t, self.key_at(self.levels@[l][j] as int)),
    {
        let x = self.levels@[l][j];
        assert(self.levels@[l].contains(x));
        self.lemma_level_subset(0, l, x);
        let c = self.levels@[0];
        let i = choose|i: int| 0 <= i < c.len() && c[i] == x;
        self.lemma_entries_sorted();
        assert(self.entries()[i].0 == self.key_at(x as int));
        lemma_entries_map_index(self.entries(), i);
        lemma_lex_total(t, self.key_at(x as int));
    }

    /// Draws the height of a new node: one level, plus one more for each
    /// coin flip that comes up `true`, up to `MAX_HEIGHT`.
    fn node_height(&self) -> (h: usize)
        ensures
            1 <= h <= MAX_HEIGHT,
    {
        let mut height: usize = 1;
        while height < MAX_HEIGHT
            invariant
                1 <= height <= MAX_HEIGHT,
            decreases MAX_HEIGHT - height,
        {
            if !coin_flip() {
                break ;
            }
            height = height + 1;
        }
        height
    }

    /// Stores `value` under `key`, replacing the value that was there.
    pub fn insert(&mut self, key: Key, value: Value)
        requires
            old(self).wf(),
        ensures
            final(self).wf(),
            final(self)@ == old(self)@.insert(key@, value@),
    {
        let mut update: Vec<usize> = Vec::new();
        let mut i: usize = 0;
        while i < MAX_HEIGHT
            invariant
                i <= MAX_HEIGHT,
                update@.len() == i,
                forall|j: int| 0 <= j < i ==> update@[j] == self.head,
            decreases MAX_HEIGHT - i,
        {
            update.push(self.head);
            i = i + 1;
        }
        let (candidate, Ghost(pos)) = self.find_update_path(&key, &mut update);
        proof {
            self.lemma_lookup(key@, pos[0]);
            self.lemma_entries_sorted();
            assert(self.level_wf(0));
        }
        if let Some(index) = candidate {
            if key_eq(&self.nodes[index].key, &key) {
                let ghost before = *self;
                self.nodes[index].value = value;
                proof {
                    assert forall|l: int| 0 <= l < MAX_HEIGHT implies #[trigger] self.level_wf(l) by {
                        assert(before.level_wf(l));
                        assert forall|p: int|
                            0 <= p <= self.levels@[l].len() implies #[trigger] self.next_at(
                            self.node_before(l, p) as int,
                            l,
                        ) == self.node_at(l, p) by {
                            assert(before.next_at(before.node_before(l, p) as int, l)
                                == before.node_at(l, p));
                            if p > 0 {
                                assert(self.levels@[l][p - 1] == self.levels@[l][p - 1]);
                            }
                        }
                        assert forall|i: int, j: int|
                            0 <= i < j < self.levels@[l].len() implies lex_lt(
                            self.key_at(#[trigger] self.levels@[l][i] as int),
                            self.key_at(#[trigger] self.levels@[l][j] as int),
                        ) by {
                            assert(lex_lt(
                                before.key_at(before.levels@[l][i] as int),
                                before.key_at(before.levels@[l][j] as int),
                            ));
                        }
                    }
                    let p = pos[0];
                    let e = before.entries();
                    assert(e[p].0 == key@);
                    assert(self.entries() =~= e.update(p, (e[p].0, value@))) by {
                        assert forall|j: int| 0 <= j < e.len() implies self.entries()[j] == e.update(
                            p,
                            (e[p].0, value@),
                        )[j] by {
                            let c = self.levels@[0];
                            assert(c[j] == c[j]);
                        }
                    }
                    lemma_entries_map_update(e, p, value@);
                }
                return ;
            }
        }
        let ghost before = *self;
        let node_height = self.node_height();
        if node_height > self.height {
            let mut l = self.height;
            while l < node_height
                invariant
                    before.wf(),
                    self.height == before.height,
                    self.height <= l <= node_height <= MAX_HEIGHT,
                    update@.len() == MAX_HEIGHT,
                    pos.len() == MAX_HEIGHT,
                    forall|j: int| 0 <= j < MAX_HEIGHT ==> before.is_lower_pos(j, key@, #[trigger] pos[j]),
                    forall|j: int| 0 <= j < MAX_HEIGHT ==> update@[j] == before.node_before(j, pos[j]),
                    self.head == before.head,
                decreases node_height - l,
            {
                proof {
                    assert(before.levels@[l as int].len() == 0);
                    assert(before.is_lower_pos(l as int, key@, pos[l as int]));
                }
                update[l] = self.head;
                l = l + 1;
            }
            self.height = node_height;
        }
        let ghost new_height: int = if node_height > before.height {
            node_height as int
        } else {
            before.height as int
        };
        let index = self.nodes.len();
        let mut forwards: Vec<Option<usize>> = Vec::new();
        let mut level: usize = 0;
        while level < node_height
            invariant
                self.nodes == before.nodes,
                self.levels == before.levels,
                self.head == before.head,
                self.len == before.len,
                self.height == new_height,
                pos.len() == MAX_HEIGHT,
                before.wf(),
                node_height <= MAX_HEIGHT,
                level <= node_height,
                update@.len() == MAX_HEIGHT,
                forall|j: int| 0 <= j < MAX_HEIGHT ==> update@[j] == before.node_before(j, pos[j]),
                forall|j: int| 0 <= j < MAX_HEIGHT ==> before.is_lower_pos(j, key@, #[trigger] pos[j]),
                forwards@.len() == level,
                forall|j: int| 0 <= j < level ==> forwards@[j] == before.node_at(j, pos[j]),
            decreases node_height - level,
        {
            proof {
                let l = level as int;
                assert(before.is_lower_pos(l, key@, pos[l]));
                assert(before.level_wf(l));
                assert(before.next_at(before.node_before(l, pos[l]) as int, l) == before.node_at(
                    l,
                    pos[l],
                ));
                if pos[l] > 0 {
                    assert(before.levels@[l][pos[l] - 1] == before.levels@[l][pos[l] - 1]);
                }
            }
            forwards.push(self.nodes[update[level]].forwards[level]);
            level = level + 1;
        }
        let ghost key_view = key@;
        let ghost value_view = value@;
        proof {
            assert forall|j: int| 0 <= j < MAX_HEIGHT implies update@[j] < index by {
                assert(before.is_lower_pos(j, key@, pos[j]));
                assert(before.level_wf(j));
                if pos[j] > 0 {
                    assert(before.levels@[j][pos[j] - 1] == before.levels@[j][pos[j] - 1]);
                }
            }
        }
        let ghost fwd = forwards@;
        self.nodes.push(SkipListNode { key, value, forwards });
        let ghost pushed = self.nodes@;
        level = 0;
        while level < node_height
            invariant
                before.wf(),
                self.len == before.len,
                self.head == before.head,
                self.height == new_height,
                pos.len() == MAX_HEIGHT,
                forall|j: int| 0 <= j < MAX_HEIGHT ==> update@[j] < index,
                pushed[index as int].forwards@ == fwd,
                fwd.len() == node_height,
                forall|j: int| 0 <= j < node_height ==> fwd[j] == before.node_at(j, pos[j]),
                node_height <= MAX_HEIGHT,
                level <= node_height,
                index == before.nodes@.len(),
                pushed.len() == index + 1,
                forall|n: int| 0 <= n < index ==> #[trigger] pushed[n] == before.nodes@[n],
                pushed[index as int].forwards@.len() == node_height,
                update@.len() == MAX_HEIGHT,
                forall|j: int| 0 <= j < MAX_HEIGHT ==> update@[j] == before.node_before(j, pos[j]),
                forall|j: int| 0 <= j < MAX_HEIGHT ==> before.is_lower_pos(j, key@, #[trigger] pos[j]),
                self.nodes@.len() == pushed.len(),
                forall|n: int|
                    #![trigger self.nodes@[n]]
                    0 <= n < pushed.len() ==> {
                        &&& self.nodes@[n].key == pushed[n].key
                        &&& self.nodes@[n].value == pushed[n].value
                        &&& self.nodes@[n].forwards@.len() == pushed[n].forwards@.len()
                    },
                forall|n: int, l: int|
                    0 <= n < pushed.len() && 0 <= l < pushed[n].forwards@.len()
                        ==> #[trigger] self.nodes@[n].forwards@[l] == if l < level && n
                        == update@[l] {
                        Some(index)
                    } else {
                        pushed[n].forwards@[l]
                    },
            decreases node_height - level,
        {
            let previous = update[level];
            proof {
                let l = level as int;
                assert(before.is_lower_pos(l, key@, pos[l]));
                assert(before.level_wf(l));
                if pos[l] > 0 {
                    assert(before.levels@[l][pos[l] - 1] == before.levels@[l][pos[l] - 1]);
                }
                assert(pushed[previous as int] == before.nodes@[previous as int]);
            }
            self.nodes[previous].forwards[level] = Some(index);
            level = level + 1;
        }
        proof {
            assert(self.nodes@.len() == self.nodes.len());
        }
        self.len = self.len + 1;
        let ghost new_levels = Seq::new(
            MAX_HEIGHT as nat,
            |l: int|
                if l < node_height {
                    before.levels@[l].insert(pos[l], index)
                } else {
                    before.levels@[l]
                },
        );
        self.levels = Ghost(new_levels);
        proof {
            assert forall|n: int|
                #![trigger self.nodes@[n]]
                0 <= n < before.nodes@.len() implies {
                &&& self.key_at(n) == before.key_at(n)
                &&& self.value_at(n) == before.value_at(n)
                &&& self.nodes@[n].forwards@.len() == before.nodes@[n].forwards@.len()
            } by {
                assert(pushed[n] == before.nodes@[n]);
            }
            assert forall|n: int, l: int|
                0 <= n < before.nodes@.len() && 0 <= l < before.nodes@[n].forwards@.len()
                    implies #[trigger] self.next_at(n, l) == if l < node_height && n == update@[l] {
                Some(before.nodes@.len() as usize)
            } else {
                before.next_at(n, l)
            } by {
                assert(pushed[n] == before.nodes@[n]);
                assert(self.nodes@[n].forwards@[l] == self.nodes@[n].forwards@[l]);
            }
            assert forall|l: int| 0 <= l < node_height implies self.next_at(
                before.nodes@.len() as int,
                l,
            ) == before.node_at(l, pos[l]) by {
                assert(self.nodes@[index as int].forwards@[l] == self.nodes@[index as int].forwards@[l]);
            }
            assert(self.nodes@[index as int] == self.nodes@[index as int]);
            Self::lemma_insert_links(
                before,
                *self,
                key_view,
                value_view,
                node_height as int,
                pos,
                update@,
            );
            self.lemma_entries_sorted();
            lemma_entries_map_insert(before.entries(), pos[0], key_view, value_view);
        }
    }

    /// The shape of a level depends on the nodes, the levels and the head only.
    proof fn lemma_level_wf_same(a: SkipList, b: SkipList, l: int)
        requires
            a.level_wf(l),
            a.nodes == b.nodes,
            a.levels == b.levels,
            a.head == b.head,
        ensures
            b.level_wf(l),
    {
        let c = a.levels@[l];
        assert forall|k: int| 0 <= k < c.len() implies {
            &&& 1 <= #[trigger] c[k] < b.nodes@.len()
            &&& l < b.nodes@[c[k] as int].forwards@.len()
        } by {
            assert(a.levels@[l][k] == c[k]);
        }
        assert forall|p: int| 0 <= p <= c.len() implies #[trigger] b.next_at(
            b.node_before(l, p) as int,
            l,
        ) == b.node_at(l, p) by {
            assert(a.next_at(a.node_before(l, p) as int, l) == a.node_at(l, p));
        }
        assert forall|i: int, j: int| 0 <= i < j < c.len() implies lex_lt(
            b.key_at(#[trigger] c[i] as int),
            b.key_at(#[trigger] c[j] as int),
        ) by {
            assert(lex_lt(a.key_at(a.levels@[l][i] as int), a.key_at(a.levels@[l][j] as int)));
        }
    }

    /// A node of a level whose key is `t` stands at the position of `t`.
    proof fn lemma_key_position(&self, l: int, t: Seq<u8>, p: int, i: int)
        requires
            self.wf(),
            0 <= l < MAX_HEIGHT,
            self.is_lower_pos(l, t, p),
            0 <= i < self.levels@[l].len(),
            self.key_at(self.levels@[l][i] as int) == t,
        ensures
            i == p,
    {
        broadcast use lemma_lex_irreflexive;

        assert(self.level_wf(l));
        let c = self.levels@[l];
        if i < p {
            assert(lex_lt(self.key_at(c[i] as int), t));
        } else if i > p {
            assert(c[p] == c[p]);
            assert(c[i] == c[i]);
            assert(lex_lt(self.key_at(c[p] as int), self.key_at(c[i] as int)));
            assert(!lex_lt(self.key_at(c[p] as int), t));
        }
    }

    /// The list that results from unlinking node `cand`, the node of key
    /// `t`, from every level where it stands is well formed, and its entries
    /// lose the entry of `t`.
    proof fn lemma_delete_links(
        before: SkipList,
        after: SkipList,
        t: Seq<u8>,
        pos: Seq<int>,
        upd: Seq<usize>,
        cand: usize,
    )
        requires
            before.wf(),
            pos.len() == MAX_HEIGHT,
            upd.len() == MAX_HEIGHT,
            forall|l: int|
                0 <= l < MAX_HEIGHT ==> {
                    &&& before.is_lower_pos(l, t, #[trigger] pos[l])
                    &&& upd[l] == before.node_before(l, pos[l])
                },
            pos[0] < before.levels@[0].len(),
            before.levels@[0][pos[0]] == cand,
            before.key_at(cand as int) == t,
            after.head == before.head,
            after.height == before.height,
            after.len == before.len - 1,
            after.nodes@.len() == before.nodes@.len(),
            forall|n: int|
                #![trigger after.nodes@[n]]
                0 <= n < before.nodes@.len() ==> {
                    &&& after.key_at(n) == before.key_at(n)
                    &&& after.value_at(n) == before.value_at(n)
                    &&& after.nodes@[n].forwards@.len() == before.nodes@[n].forwards@.len()
                },
            forall|n: int, l: int|
                0 <= n < before.nodes@.len() && 0 <= l < before.nodes@[n].forwards@.len()
                    ==> #[trigger] after.next_at(n, l) == if l < MAX_HEIGHT && n == upd[l]
                    && before.node_at(
                    l,
                    pos[l],
                ) == Some(cand) {
                    before.next_at(cand as int, l)
                } else {
                    before.next_at(n, l)
                },
            after.levels@ == Seq::new(
                MAX_HEIGHT as nat,
                |l: int|
                    if before.node_at(l, pos[l]) == Some(cand) {
                        before.levels@[l].remove(pos[l])
                    } else {
                        before.levels@[l]
                    },
            ),
        ensures
            after.wf(),
            after.entries() == before.entries().remove(pos[0]),
    {
        broadcast use lemma_lex_irreflexive;

        assert forall|l: int| 0 <= l < MAX_HEIGHT implies #[trigger] after.level_wf(l) by {
            let c = before.levels@[l];
            let p = pos[l];
            assert(before.level_wf(l));
            assert(before.is_lower_pos(l, t, pos[l]));
            if before.node_at(l, p) == Some(cand) {
                let c2 = after.levels@[l];
                assert(c2 == c.remove(p));
                assert(c[p] == cand);
                assert forall|k: int| 0 <= k < c2.len() implies {
                    &&& 1 <= #[trigger] c2[k] < after.nodes@.len()
                    &&& l < after.nodes@[c2[k] as int].forwards@.len()
                } by {
                    let kk = if k < p {
                        k
                    } else {
                        k + 1
                    };
                    assert(c2[k] == c[kk]);
                    assert(c[kk] == c[kk]);
                }
                assert forall|q: int| 0 <= q <= c2.len() implies #[trigger] after.next_at(
                    after.node_before(l, q) as int,
                    l,
                ) == after.node_at(l, q) by {
                    if q < p {
                        assert(after.node_before(l, q) == before.node_before(l, q)) by {
                            if q > 0 {
                                assert(c2[q - 1] == c[q - 1]);
                            }
                        }
                        let n = before.node_before(l, q);
                        assert(before.next_at(n as int, l) == before.node_at(l, q));
                        if q > 0 {
                            assert(c[q - 1] == c[q - 1]);
                        }
                        before.lemma_positions_distinct(l, q, p);
                        assert(c2[q] == c[q]);
                    } else if q == p {
                        assert(after.node_before(l, q) == before.node_before(l, q)) by {
                            if q > 0 {
                                assert(c2[q - 1] == c[q - 1]);
                            }
                        }
                        let n = before.node_before(l, q);
                        if q > 0 {
                            assert(c[q - 1] == c[q - 1]);
                        }
                        assert(before.node_before(l, p + 1) == cand);
                        assert(c[p] == c[p]);
                        assert(before.next_at(cand as int, l) == before.node_at(l, p + 1));
                        if p + 1 < c.len() {
                            assert(c2[p] == c[p + 1]);
                        }
                    } else {
                        assert(c2[q - 1] == c[q]);
                        assert(after.node_before(l, q) == before.node_before(l, q + 1));
                        let n = before.node_before(l, q + 1);
                        assert(c[q] == c[q]);
                        assert(before.next_at(n as int, l) == before.node_at(l, q + 1));
                        before.lemma_positions_distinct(l, q + 1, p);
                        if q < c2.len() {
                            assert(c2[q] == c[q + 1]);
                        }
                    }
                }
                assert forall|i: int, j: int| 0 <= i < j < c2.len() implies lex_lt(
                    after.key_at(#[trigger] c2[i] as int),
                    after.key_at(#[trigger] c2[j] as int),
                ) by {
                    let ii = if i < p {
                        i
                    } else {
                        i + 1
                    };
                    let jj = if j < p {
                        j
                    } else {
                        j + 1
                    };
                    assert(c2[i] == c[ii]);
                    assert(c2[j] == c[jj]);
                    assert(lex_lt(before.key_at(c[ii] as int), before.key_at(c[jj] as int)));
                }
            } else {
                assert(after.levels@[l] == c);
                assert forall|q: int| 0 <= q <= c.len() implies #[trigger] after.next_at(
                    after.node_before(l, q) as int,
                    l,
                ) == after.node_at(l, q) by {
                    let n = before.node_before(l, q);
                    assert(before.next_at(n as int, l) == before.node_at(l, q));
                    if q > 0 {
                        assert(c[q - 1] == c[q - 1]);
                    }
                }
                assert forall|i: int, j: int| 0 <= i < j < c.len() implies lex_lt(
                    after.key_at(#[trigger] c[i] as int),
                    after.key_at(#[trigger] c[j] as int),
                ) by {
                    assert(lex_lt(before.key_at(c[i] as int), before.key_at(c[j] as int)));
                }
                assert forall|k: int| 0 <= k < c.len() implies {
                    &&& 1 <= #[trigger] c[k] < after.nodes@.len()
                    &&& l < after.nodes@[c[k] as int].forwards@.len()
                } by {
                    assert(c[k] == c[k]);
                }
            }
        }
        assert forall|l: int, x: usize|
            0 < l < MAX_HEIGHT && #[trigger] after.levels@[l].contains(x) implies after.levels@[l
            - 1].contains(x) by {
            let c = before.levels@[l];
            let cb = before.levels@[l - 1];
            let k = choose|k: int| 0 <= k < after.levels@[l].len() && after.levels@[l][k] == x;
            let moved = before.node_at(l, pos[l]) == Some(cand);
            let kk = if moved && k >= pos[l] {
                k + 1
            } else {
                k
            };
            assert(c[kk] == x);
            assert(c.contains(x));
            assert(cb.contains(x));
            if x == cand {
                before.lemma_key_position(l, t, pos[l], kk);
                assert(before.is_lower_pos(l, t, pos[l]));
                assert(false);
            }
            let m = choose|m: int| 0 <= m < cb.len() && cb[m] == x;
            if before.node_at(l - 1, pos[l - 1]) == Some(cand) {
                assert(m != pos[l - 1]);
                let mm = if m > pos[l - 1] {
                    m - 1
                } else {
                    m
                };
                assert(after.levels@[l - 1][mm] == x);
            } else {
                assert(after.levels@[l - 1][m] == x);
            }
        }
        assert forall|l: int| after.height <= l < MAX_HEIGHT implies (
        #[trigger] after.levels@[l]).len() == 0 by {
            assert(before.levels@[l].len() == 0);
        }
        assert(before.node_at(0, pos[0]) == Some(cand));
        assert(before.level_wf(0));
        let e2 = after.entries();
        let e1 = before.entries().remove(pos[0]);
        assert(e2.len() == e1.len());
        assert forall|j: int| 0 <= j < e2.len() implies e2[j] == e1[j] by {
            let c = before.levels@[0];
            let jj = if j < pos[0] {
                j
            } else {
                j + 1
            };
            assert(after.levels@[0][j] == c[jj]);
            assert(c[jj] == c[jj]);
            assert(after.nodes@[c[jj] as int] == after.nodes@[c[jj] as int]);
            assert(e1[j] == before.entries()[jj]);
        }
        assert(e2 =~= e1);
    }

    /// Removes the entry of `key`; returns its value, if there was one.
    pub fn delete(&mut self, key: &[u8]) -> (r: Option<Value>)
        requires
            old(self).wf(),
        ensures
            final(self).wf(),
            final(self)@ == old(self)@.remove(key@),
            match r {
                Some(v) => old(self)@.contains_key(key@) && v@ == old(self)@[key@],
                None => !old(self)@.contains_key(key@),
            },
    {
        let mut update: Vec<usize> = Vec::new();
        let mut i: usize = 0;
        while i < MAX_HEIGHT
            invariant
                i <= MAX_HEIGHT,
                update@.len() == i,
                forall|j: int| 0 <= j < i ==> update@[j] == self.head,
            decreases MAX_HEIGHT - i,
        {
            update.push(self.head);
            i = i + 1;
        }
        let (found, Ghost(pos)) = self.find_update_path(key, &mut update);
        proof {
            self.lemma_lookup(key@, pos[0]);
            assert(self.level_wf(0));
        }
        let candidate = match found {
            None => {
                proof {
                    assert(self@.remove(key@) =~= self@);
                }
                return None;
            },
            Some(c) => c,
        };
        if !key_eq(&self.nodes[candidate].key, key) {
            proof {
                assert(self@.remove(key@) =~= self@);
            }
            return None;
        }
        let ghost before = *self;
        let mut level: usize = 0;
        while level < self.height
            invariant
                before.wf(),
                self.head == before.head,
                self.height == before.height,
                self.len == before.len,
                self.levels == before.levels,
                level <= self.height,
                pos.len() == MAX_HEIGHT,
                update@.len() == MAX_HEIGHT,
                forall|j: int|
                    0 <= j < MAX_HEIGHT ==> {
                        &&& before.is_lower_pos(j, key@, #[trigger] pos[j])
                        &&& update@[j] == before.node_before(j, pos[j])
                    },
                pos[0] < before.levels@[0].len(),
                before.levels@[0][pos[0]] == candidate,
                before.key_at(candidate as int) == key@,
                self.nodes@.len() == before.nodes@.len(),
                forall|n: int|
                    #![trigger self.nodes@[n]]
                    0 <= n < before.nodes@.len() ==> {
                        &&& self.nodes@[n].key == before.nodes@[n].key
                        &&& self.nodes@[n].value == before.nodes@[n].value
                        &&& self.nodes@[n].forwards@.len() == before.nodes@[n].forwards@.len()
                    },
                forall|n: int, l: int|
                    0 <= n < before.nodes@.len() && 0 <= l < before.nodes@[n].forwards@.len()
                        ==> #[trigger] self.nodes@[n].forwards@[l] == if l < level && n
                        == update@[l] && before.node_at(l, pos[l]) == Some(candidate) {
                        before.next_at(candidate as int, l)
                    } else {
                        before.next_at(n, l)
                    },
            decreases self.height - level,
        {
            let previous = update[level];
            proof {
                let l = level as int;
                assert(before.level_wf(l));
                assert(before.is_lower_pos(l, key@, pos[l]));
                assert(before.next_at(before.node_before(l, pos[l]) as int, l) == before.node_at(
                    l,
                    pos[l],
                ));
                if pos[l] > 0 {
                    assert(before.levels@[l][pos[l] - 1] == before.levels@[l][pos[l] - 1]);
                }
                assert(self.nodes@[previous as int] == self.nodes@[previous as int]);
                assert(self.nodes@[previous as int].forwards@[l] == before.next_at(
                    previous as int,
                    l,
                ));
                if pos[l] < before.levels@[l].len() {
                    assert(before.levels@[l][pos[l]] == before.levels@[l][pos[l]]);
                }
                assert(self.nodes@[candidate as int] == self.nodes@[candidate as int]);
            }
            if self.nodes[previous].forwards[level] == Some(candidate) {
                let next = if level < self.nodes[candidate].forwards.len() {
                    self.nodes[candidate].forwards[level]
                } else {
                    None
                };
                proof {
                    let l = level as int;
                    assert(before.levels@[l][pos[l]] == candidate);
                    assert(self.nodes@[candidate as int].forwards@[l] == before.next_at(
                        candidate as int,
                        l,
                    ));
                }
                self.nodes[previous].forwards[level] = next;
            }
            level = level + 1;
        }
        self.len = self.len - 1;
        let ghost new_levels = Seq::new(
            MAX_HEIGHT as nat,
            |l: int|
                if before.node_at(l, pos[l]) == Some(candidate) {
                    before.levels@[l].remove(pos[l])
                } else {
                    before.levels@[l]
                },
        );
        self.levels = Ghost(new_levels);
        proof {
            assert forall|n: int, l: int|
                0 <= n < before.nodes@.len() && 0 <= l < before.nodes@[n].forwards@.len()
                    implies #[trigger] self.next_at(n, l) == if l < MAX_HEIGHT && n == update@[l]
                && before.node_at(
                l,
                pos[l],
            ) == Some(candidate) {
                before.next_at(candidate as int, l)
            } else {
                before.next_at(n, l)
            } by {
                assert(self.nodes@[n].forwards@[l] == self.nodes@[n].forwards@[l]);
                if before.height <= l < MAX_HEIGHT {
                    assert(before.levels@[l].len() == 0);
                }
            }
            Self::lemma_delete_links(before, *self, key@, pos, update@, candidate);
        }
        let ghost unlinked = self.nodes;
        proof {
            assert(self.nodes@[candidate as int] == self.nodes@[candidate as int]);
        }
        while self.height > 1 && self.nodes[self.head].forwards[self.height - 1].is_none()
            invariant
                self.wf(),
                self.nodes == unlinked,
                candidate < unlinked@.len(),
                unlinked@[candidate as int].value == before.nodes@[candidate as int].value,
                self.entries() == before.entries().remove(pos[0]),
            decreases self.height,
        {
            let ghost prev = *self;
            proof {
                let l = self.height - 1;
                assert(self.level_wf(l));
                assert(self.next_at(self.node_before(l, 0) as int, l) == self.node_at(l, 0));
            }
            self.height = self.height - 1;
            proof {
                assert forall|l: int| 0 <= l < MAX_HEIGHT implies #[trigger] self.level_wf(l) by {
                    Self::lemma_level_wf_same(prev, *self, l);
                }
            }
        }
        proof {
            before.lemma_entries_sorted();
            lemma_entries_map_remove(before.entries(), pos[0]);
            assert(before.entries()[pos[0]].0 == key@);
        }
        Some(copy_bytes(&self.nodes[candidate].value))
    }

    /// The entries whose keys lie in `range`, in key order.
    pub fn scan(&self, range: KeyRange) -> (r: Vec<KeyValue>)
        requires
            self.wf(),
        ensures
            is_ordered_scan(pairs_view(r@), self@, range.start_view(), range.end_view()),
    {
        let (mut index, Ghost(p0)) = match &range.start {
            Some(start) => self.lower_bound(start.as_slice()),
            None => (self.nodes[self.head].forwards[0], Ghost(0int)),
        };
        proof {
            assert(self.level_wf(0));
            assert(self.next_at(self.node_before(0, 0) as int, 0) == self.node_at(0, 0));
            self.lemma_entries_sorted();
        }
        let ghost e = self.entries();
        let ghost end_view = range.end_view();
        let mut results: Vec<KeyValue> = Vec::new();
        let ghost mut p = p0;
        loop
            invariant
                self.wf(),
                e == self.entries(),
                e.len() == self.levels@[0].len(),
                end_view == range.end_view(),
                0 <= p0 <= p <= e.len(),
                index == self.node_at(0, p),
                pairs_view(results@) == e.subrange(p0, p),
                forall|j: int|
                    p0 <= j < p ==> match end_view {
                        Some(x) => lex_lt(#[trigger] e[j].0, x),
                        None => true,
                    },
            ensures
                0 <= p0 <= p <= e.len(),
                pairs_view(results@) == e.subrange(p0, p),
                forall|j: int|
                    p0 <= j < p ==> match end_view {
                        Some(x) => lex_lt(#[trigger] e[j].0, x),
                        None => true,
                    },
                p < e.len() ==> match end_view {
                    Some(x) => !lex_lt(e[p].0, x),
                    None => false,
                },
            decreases e.len() - p,
        {
            proof {
                assert(self.level_wf(0));
            }
            match index {
                None => {
                    break ;
                },
                Some(current) => {
                    proof {
                        assert(current == self.levels@[0][p]);
                        assert(e[p] == (self.key_at(current as int), self.value_at(current as int)));
                    }
                    if let Some(end) = &range.end {
                        if !key_lt(&self.nodes[current].key, end.as_slice()) {
                            break ;
                        }
                    }
                    let kv = KeyValue {
                        key: copy_bytes(&self.nodes[current].key),
                        value: copy_bytes(&self.nodes[current].value),
                    };
                    let ghost prev = results@;
                    let ghost kvv = (kv.key@, kv.value@);
                    results.push(kv);
                    proof {
                        assert(kvv == e[p]);
                        assert(pairs_view(prev).len() == prev.len());
                        assert(prev.len() == p - p0);
                        assert(results@.len() == prev.len() + 1);
                        assert(results@[prev.len() as int].key@ == kvv.0);
                        assert(results@[prev.len() as int].value@ == kvv.1);
                        assert forall|i: int| 0 <= i < results@.len() implies pairs_view(results@)[i]
                            == e.subrange(p0, p + 1)[i] by {
                            if i < prev.len() {
                                assert(results@[i] == prev[i]);
                                assert(pairs_view(prev)[i] == e.subrange(p0, p)[i]);
                            }
                        }
                        assert(self.next_at(self.node_before(0, p + 1) as int, 0) == self.node_at(
                            0,
                            p + 1,
                        ));
                        assert(self.levels@[0][p] == current);
                        assert(pairs_view(results@) =~= e.subrange(p0, p + 1));
                    }
                    index = self.nodes[current].forwards[0];
                    proof {
                        p = p + 1;
                    }
                },
            }
        }
        proof {
            let start_view = range.start_view();
            assert forall|j: int| 0 <= j < p0 implies match start_view {
                Some(s) => lex_lt(#[trigger] e[j].0, s),
                None => false,
            } by {
                assert(self.levels@[0][j] == self.levels@[0][j]);
            }
            assert forall|j: int| p0 <= j < e.len() implies match start_view {
                Some(s) => !lex_lt(#[trigger] e[j].0, s),
                None => true,
            } by {
                assert(self.levels@[0][j] == self.levels@[0][j]);
            }
            lemma_sorted_run_is_scan(e, p0, p, start_view, end_view);
        }
        results
    }
}

impl View for SkipList {
    type V = Map<Seq<u8>, Seq<u8>>;

    /// The map from key to value that the list holds.
    closed spec fn view(&self) -> Map<Seq<u8>, Seq<u8>> {
        entries_map(self.entries())
    }
}

impl Default for SkipList {
    /// An empty list.
    fn default() -> (r: Self)
        ensures
            r.wf(),
            r@ == Map::<Seq<u8>, Seq<u8>>::empty(),
    {
        Self::new()
    }
}

/// The active in-memory table of the engine.
pub struct MemTable {
    skiplist: SkipList,
}

impl View for MemTable {
    type V = Map<Seq<u8>, Seq<u8>>;

    /// The map from key to value that the table holds.
    closed spec fn view(&self) -> Map<Seq<u8>, Seq<u8>> {
        self.skiplist@
    }
}

impl MemTable {
    /// The well-formedness of the table.
    pub closed spec fn wf(&self) -> bool {
        self.skiplist.wf()
    }

    /// An empty table.
    pub fn new() -> (r: Self)
        ensures
            r.wf(),
            r@ == Map::<Seq<u8>, Seq<u8>>::empty(),
    {
        MemTable { skiplist: SkipList::new() }
    }

    /// Stores `value` under `key`, replacing the value that was there.
    pub fn put(&mut self, key: Key, value: Value)
        requires
            old(self).wf(),
        ensures
            final(self).wf(),
            final(self)@ == old(self)@.insert(key@, value@),
    {
        self.skiplist.insert(key, value);
    }

    /// The value stored under `key`, if any.
    pub fn get(&self, key: &[u8]) -> (r: Option<&Value>)
        requires
            self.wf(),
        ensures
            match r {
                Some(v) => self@.contains_key(key@) && self@[key@] == v@,
                None => !self@.contains_key(key@),
            },
    {
        self.skiplist.search(key)
    }

    /// Removes the entry of `key`; returns its value, if there was one.
    pub fn delete(&mut self, key: &[u8]) -> (r: Option<Value>)
        requires
            old(self).wf(),
        ensures
            final(self).wf(),
            final(self)@ == old(self)@.remove(key@),
            match r {
                Some(v) => old(self)@.contains_key(key@) && v@ == old(self)@[key@],
                None => !old(self)@.contains_key(key@),
            },
    {
        self.skiplist.delete(key)
    }

    /// The entries whose keys lie in `range`, in key order.
    pub fn scan(&self, range: KeyRange) -> (r: Vec<KeyValue>)
        requires
            self.wf(),
        ensures
            is_ordered_scan(pairs_view(r@), self@, range.start_view(), range.end_view()),
    {
        self.skiplist.scan(range)
    }

    /// The number of entries.
    pub fn len(&self) -> (n: usize)
        requires
            self.wf(),
        ensures
            n == self@.len(),
    {
        self.skiplist.len()
    }

    /// A table holds finitely many entries.
    pub proof fn lemma_finite(&self)
        requires
            self.wf(),
        ensures
            self@.dom().finite(),
    {
        self.skiplist.lemma_finite();
    }

    /// Whether the table holds no entry.
    pub fn is_empty(&self) -> (b: bool)
        requires
            self.wf(),
        ensures
            b == (self@.len() == 0),
    {
        self.skiplist.is_empty()
    }
}

impl Default for MemTable {
    /// An empty table.
    fn default() -> (r: Self)
        ensures
            r.wf(),
            r@ == Map::<Seq<u8>, Seq<u8>>::empty(),
    {
        Self::new()
    }
}

/// A read after a write: once `put(k, v)` has run on a table holding `m`,
/// `get(k)` finds `v`, and every other key reads as before.
pub proof fn law_get_after_put(m: Map<Seq<u8>, Seq<u8>>, k: Seq<u8>, v: Seq<u8>, other: Seq<u8>)
    ensures
        m.insert(k, v).contains_key(k),
        m.insert(k, v)[k] == v,
        other != k ==> m.insert(k, v).contains_key(other) == m.contains_key(other),
        other != k && m.contains_key(other) ==> m.insert(k, v)[other] == m[other],
{
}

/// A read after a delete: once `delete(k)` has run on a table holding `m`,
/// `get(k)` finds nothing, and every other key reads as before.
pub proof fn law_get_after_delete(m: Map<Seq<u8>, Seq<u8>>, k: Seq<u8>, other: Seq<u8>)
    ensures
        !m.remove(k).contains_key(k),
        other != k ==> m.remove(k).contains_key(other) == m.contains_key(other),
        other != k && m.contains_key(other) ==> m.remove(k)[other] == m[other],
{
}

/// A second `put` under the same key replaces the first: the table holds
/// what the second `put` alone would leave.
pub proof fn law_put_overwrites(m: Map<Seq<u8>, Seq<u8>>, k: Seq<u8>, v1: Seq<u8>, v2: Seq<u8>)
    ensures
        m.insert(k, v1).insert(k, v2) == m.insert(k, v2),
{
    assert(m.insert(k, v1).insert(k, v2) =~= m.insert(k, v2));
}

/// A `delete` undoes a `put` of a key the table did not hold.
pub proof fn law_delete_undoes_put(m: Map<Seq<u8>, Seq<u8>>, k: Seq<u8>, v: Seq<u8>)
    requires
        !m.contains_key(k),
    ensures
        m.insert(k, v).remove(k) == m,
{
    assert(m.insert(k, v).remove(k) =~= m);
}

/// The number of entries grows by one when a `put` adds a new key and stays
/// the same when it replaces a value; a `delete` of a held key removes one.
pub proof fn law_len_after_put_and_delete(m: Map<Seq<u8>, Seq<u8>>, k: Seq<u8>, v: Seq<u8>)
    requires
        m.dom().finite(),
    ensures
        m.insert(k, v).len() == if m.contains_key(k) {
            m.len()
        } else {
            m.len() + 1
        },
        m.remove(k).len() == if m.contains_key(k) {
            m.len() - 1
        } else {
            m.len() as int
        },
{
    if m.contains_key(k) {
        assert(m.insert(k, v).dom() =~= m.dom());
    } else {
        assert(m.remove(k).dom() =~= m.dom());
    }
}

} // verus!
