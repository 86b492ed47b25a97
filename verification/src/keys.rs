//! Byte-string keys: their lexicographic order, the key ranges used by
//! scans, and the map that a strictly sorted sequence of entries denotes.
use vstd::prelude::*;

verus! {

/// Lexicographic "less than" on byte strings, looking at positions from `i` on.
/// A proper prefix is smaller than the longer string; otherwise the first
/// differing byte decides.
pub open spec fn lex_lt_from(a: Seq<u8>, b: Seq<u8>, i: int) -> bool
    decreases a.len() - i,
{
    if i >= a.len() {
        i < b.len()
    } else if i >= b.len() {
        false
    } else if a[i] < b[i] {
        true
    } else if a[i] > b[i] {
        false
    } else {
        lex_lt_from(a, b, i + 1)
    }
}

/// Lexicographic order on byte strings, the order of `[u8]`'s `Ord`.
pub open spec fn lex_lt(a: Seq<u8>, b: Seq<u8>) -> bool {
    lex_lt_from(a, b, 0)
}

proof fn lemma_lex_irreflexive_from(a: Seq<u8>, i: int)
    requires
        0 <= i,
    ensures
        !lex_lt_from(a, a, i),
    decreases a.len() - i,
{
    if i < a.len() {
        lemma_lex_irreflexive_from(a, i + 1);
    }
}

proof fn lemma_lex_transitive_from(a: Seq<u8>, b: Seq<u8>, c: Seq<u8>, i: int)
    requires
        0 <= i,
        lex_lt_from(a, b, i),
        lex_lt_from(b, c, i),
    ensures
        lex_lt_from(a, c, i),
    decreases a.len() - i,
{
    if i < a.len() && i < b.len() && i < c.len() && a[i] == b[i] && b[i] == c[i] {
        lemma_lex_transitive_from(a, b, c, i + 1);
    }
}

proof fn lemma_lex_total_from(a: Seq<u8>, b: Seq<u8>, i: int)
    requires
        0 <= i <= a.len(),
        i <= b.len(),
        forall|j: int| 0 <= j < i ==> a[j] == b[j],
        !lex_lt_from(a, b, i),
        !lex_lt_from(b, a, i),
    ensures
        a == b,
    decreases a.len() - i,
{
    if i < a.len() {
        lemma_lex_total_from(a, b, i + 1);
    } else {
        assert(a =~= b);
    }
}

/// No byte string is below itself.
pub broadcast proof fn lemma_lex_irreflexive(a: Seq<u8>)
    ensures
        !(#[trigger] lex_lt(a, a)),
{
    lemma_lex_irreflexive_from(a, 0);
}

/// The lexicographic order is transitive.
pub proof fn lemma_lex_transitive(a: Seq<u8>, b: Seq<u8>, c: Seq<u8>)
    requires
        lex_lt(a, b),
        lex_lt(b, c),
    ensures
        lex_lt(a, c),
{
    lemma_lex_transitive_from(a, b, c, 0);
}

/// Two distinct byte strings are ordered one way or the other.
pub proof fn lemma_lex_total(a: Seq<u8>, b: Seq<u8>)
    ensures
        a == b || lex_lt(a, b) || lex_lt(b, a),
{
    if !lex_lt(a, b) && !lex_lt(b, a) {
        lemma_lex_total_from(a, b, 0);
    }
}

/// The lexicographic order is asymmetric.
pub proof fn lemma_lex_asymmetric(a: Seq<u8>, b: Seq<u8>)
    requires
        lex_lt(a, b),
    ensures
        !lex_lt(b, a),
{
    if lex_lt(b, a) {
        lemma_lex_transitive(a, b, a);
        lemma_lex_irreflexive(a);
    }
}

/// `a` is a proper prefix of `b`.
pub open spec fn is_proper_prefix(a: Seq<u8>, b: Seq<u8>) -> bool {
    a.len() < b.len() && forall|j: int| 0 <= j < a.len() ==> a[j] == b[j]
}

/// `a` and `b` agree before position `k`, and there `a` holds the smaller
/// byte.
pub open spec fn first_difference_below(a: Seq<u8>, b: Seq<u8>, k: int) -> bool {
    &&& 0 <= k < a.len()
    &&& k < b.len()
    &&& forall|j: int| 0 <= j < k ==> a[j] == b[j]
    &&& a[k] < b[k]
}

proof fn lemma_lex_from_is_lexicographic(a: Seq<u8>, b: Seq<u8>, i: int)
    requires
        0 <= i <= a.len(),
        i <= b.len(),
        forall|j: int| 0 <= j < i ==> a[j] == b[j],
    ensures
        lex_lt_from(a, b, i) <==> (is_proper_prefix(a, b) || exists|k: int|
            #[trigger] first_difference_below(a, b, k)),
    decreases a.len() - i,
{
    if i >= a.len() {
        assert forall|k: int| !#[trigger] first_difference_below(a, b, k) by {
            if 0 <= k < a.len() {
                assert(a[k] == b[k]);
            }
        }
    } else if i >= b.len() {
        assert forall|k: int| !#[trigger] first_difference_below(a, b, k) by {
            if 0 <= k < b.len() {
                assert(a[k] == b[k]);
            }
        }
    } else if a[i] < b[i] {
        assert(first_difference_below(a, b, i));
    } else if a[i] > b[i] {
        assert forall|k: int| !#[trigger] first_difference_below(a, b, k) by {
            if 0 <= k < i {
                assert(a[k] == b[k]);
            } else if k > i && first_difference_below(a, b, k) {
                assert(a[i] == b[i]);
            }
        }
        assert(!is_proper_prefix(a, b)) by {
            if is_proper_prefix(a, b) {
                assert(a[i] == b[i]);
            }
        }
    } else {
        lemma_lex_from_is_lexicographic(a, b, i + 1);
    }
}

/// The key order is the lexicographic order of byte strings, that of
/// `[u8]`'s `Ord`: `a` is below `b` exactly when `a` is a proper prefix of
/// `b`, or when at the first position where they differ `a` holds the
/// smaller byte, whatever their lengths.
pub proof fn law_key_order_is_lexicographic(a: Seq<u8>, b: Seq<u8>)
    ensures
        lex_lt(a, b) <==> (is_proper_prefix(a, b) || exists|k: int|
            #[trigger] first_difference_below(a, b, k)),
{
    lemma_lex_from_is_lexicographic(a, b, 0);
}

/// How two keys compare.
#[derive(Clone, Copy, Debug, PartialEq, Eq)]
pub enum KeyOrder {
    Less,
    Equal,
    Greater,
}

/// Compares two byte strings lexicographically.
pub fn order_keys(a: &[u8], b: &[u8]) -> (r: KeyOrder)
    ensures
        r == KeyOrder::Less <==> lex_lt(a@, b@),
        r == KeyOrder::Equal <==> a@ == b@,
        r == KeyOrder::Greater <==> lex_lt(b@, a@),
{
    broadcast use lemma_lex_irreflexive;

    let mut i: usize = 0;
    while i < a.len() && i < b.len() && a[i] == b[i]
        invariant
            i <= a.len(),
            i <= b.len(),
            forall|j: int| 0 <= j < i ==> a@[j] == b@[j],
            lex_lt(a@, b@) == lex_lt_from(a@, b@, i as int),
            lex_lt(b@, a@) == lex_lt_from(b@, a@, i as int),
        decreases a.len() - i,
    {
        i = i + 1;
    }
    if i == a.len() && i == b.len() {
        assert(a@ =~= b@);
        KeyOrder::Equal
    } else if i == a.len() || (i < b.len() && a[i] < b[i]) {
        proof {
            lemma_lex_asymmetric(a@, b@);
        }
        KeyOrder::Less
    } else {
        proof {
            lemma_lex_asymmetric(b@, a@);
        }
        KeyOrder::Greater
    }
}

/// Whether `a` is strictly below `b` in the key order.
pub fn key_lt(a: &[u8], b: &[u8]) -> (r: bool)
    ensures
        r == lex_lt(a@, b@),
{
    match order_keys(a, b) {
        KeyOrder::Less => true,
        _ => false,
    }
}

/// Whether two keys are the same byte string.
pub fn key_eq(a: &[u8], b: &[u8]) -> (r: bool)
    ensures
        r == (a@ == b@),
{
    match order_keys(a, b) {
        KeyOrder::Equal => true,
        _ => false,
    }
}

/// Whether `k` lies in the range from `start` (inclusive, when present)
/// to `end` (exclusive, when present).
pub open spec fn in_key_range(start: Option<Seq<u8>>, end: Option<Seq<u8>>, k: Seq<u8>) -> bool {
    &&& match start {
        Some(s) => !lex_lt(k, s),
        None => true,
    }
    &&& match end {
        Some(e) => lex_lt(k, e),
        None => true,
    }
}

/// The entries are strictly increasing by key.
pub open spec fn sorted_by_key(e: Seq<(Seq<u8>, Seq<u8>)>) -> bool {
    forall|i: int, j: int| 0 <= i < j < e.len() ==> lex_lt(#[trigger] e[i].0, #[trigger] e[j].0)
}

/// Whether `k` is the key of one of the entries.
pub open spec fn has_key(e: Seq<(Seq<u8>, Seq<u8>)>, k: Seq<u8>) -> bool {
    exists|j: int| 0 <= j < e.len() && #[trigger] e[j].0 == k
}

/// The map from key to value that a sequence of entries denotes.
pub open spec fn entries_map(e: Seq<(Seq<u8>, Seq<u8>)>) -> Map<Seq<u8>, Seq<u8>> {
    Map::new(
        |k: Seq<u8>| has_key(e, k),
        |k: Seq<u8>| e[choose|j: int| 0 <= j < e.len() && #[trigger] e[j].0 == k].1,
    )
}

/// In strictly sorted entries, each entry's key maps to its value.
pub proof fn lemma_entries_map_index(e: Seq<(Seq<u8>, Seq<u8>)>, j: int)
    requires
        sorted_by_key(e),
        0 <= j < e.len(),
    ensures
        entries_map(e).contains_key(e[j].0),
        entries_map(e)[e[j].0] == e[j].1,
{
    broadcast use lemma_lex_irreflexive;

    let k = e[j].0;
    assert(has_key(e, k));
    let c = choose|i: int| 0 <= i < e.len() && #[trigger] e[i].0 == k;
    if c < j {
        assert(lex_lt(e[c].0, e[j].0));
    } else if c > j {
        assert(lex_lt(e[j].0, e[c].0));
    }
}

/// The entries' keys, in order.
pub open spec fn entry_keys(e: Seq<(Seq<u8>, Seq<u8>)>) -> Seq<Seq<u8>> {
    e.map_values(|x: (Seq<u8>, Seq<u8>)| x.0)
}

/// A strictly sorted sequence of entries denotes a finite map with one key
/// per entry.
pub proof fn lemma_entries_map_len(e: Seq<(Seq<u8>, Seq<u8>)>)
    requires
        sorted_by_key(e),
    ensures
        entries_map(e).dom().finite(),
        entries_map(e).dom().len() == e.len(),
{
    broadcast use lemma_lex_irreflexive;

    let ks = entry_keys(e);
    assert(ks.no_duplicates()) by {
        assert forall|i: int, j: int| 0 <= i < ks.len() && 0 <= j < ks.len() && i != j implies ks[i]
            != ks[j] by {
            if i < j {
                assert(lex_lt(e[i].0, e[j].0));
            } else {
                assert(lex_lt(e[j].0, e[i].0));
            }
        }
    }
    assert(entries_map(e).dom() =~= ks.to_set()) by {
        assert forall|k: Seq<u8>| entries_map(e).dom().contains(k) implies ks.to_set().contains(k) by {
            let j = choose|j: int| 0 <= j < e.len() && #[trigger] e[j].0 == k;
            assert(ks[j] == k);
        }
        assert forall|k: Seq<u8>| ks.to_set().contains(k) implies entries_map(e).dom().contains(k) by {
            let j = choose|j: int| 0 <= j < ks.len() && ks[j] == k;
            assert(e[j].0 == k);
        }
    }
    ks.unique_seq_to_set();
}

/// Inserting a new key at its sorted place adds it to the map.
pub proof fn lemma_entries_map_insert(e: Seq<(Seq<u8>, Seq<u8>)>, p: int, k: Seq<u8>, v: Seq<u8>)
    requires
        0 <= p <= e.len(),
        sorted_by_key(e),
        sorted_by_key(e.insert(p, (k, v))),
    ensures
        entries_map(e.insert(p, (k, v))) == entries_map(e).insert(k, v),
{
    broadcast use lemma_lex_irreflexive;

    let e2 = e.insert(p, (k, v));
    let m = entries_map(e);
    let m2 = entries_map(e2);
    assert forall|x: Seq<u8>| m2.contains_key(x) implies m.insert(k, v).contains_key(x) && m2[x]
        == m.insert(k, v)[x] by {
        let j = choose|j: int| 0 <= j < e2.len() && #[trigger] e2[j].0 == x;
        lemma_entries_map_index(e2, j);
        assert(e2[p].0 == k);
        if j < p {
            assert(e2[j] == e[j]);
            assert(lex_lt(e2[j].0, e2[p].0));
            lemma_entries_map_index(e, j);
        } else if j > p {
            assert(e2[j] == e[j - 1]);
            assert(lex_lt(e2[p].0, e2[j].0));
            lemma_entries_map_index(e, j - 1);
        }
    }
    assert forall|x: Seq<u8>| m.insert(k, v).contains_key(x) implies m2.contains_key(x) by {
        if x == k {
            assert(e2[p].0 == k);
            lemma_entries_map_index(e2, p);
        } else {
            let j = choose|j: int| 0 <= j < e.len() && #[trigger] e[j].0 == x;
            if j < p {
                assert(e2[j] == e[j]);
                lemma_entries_map_index(e2, j);
            } else {
                assert(e2[j + 1] == e[j]);
                lemma_entries_map_index(e2, j + 1);
            }
        }
    }
    assert(m2 =~= m.insert(k, v));
}

/// Removing the entry at `p` removes its key from the map.
pub proof fn lemma_entries_map_remove(e: Seq<(Seq<u8>, Seq<u8>)>, p: int)
    requires
        sorted_by_key(e),
        0 <= p < e.len(),
    ensures
        entries_map(e.remove(p)) == entries_map(e).remove(e[p].0),
{
    broadcast use lemma_lex_irreflexive;

    let e2 = e.remove(p);
    let k = e[p].0;
    let m = entries_map(e);
    let m2 = entries_map(e2);
    assert(sorted_by_key(e2)) by {
        assert forall|i: int, j: int| 0 <= i < j < e2.len() implies lex_lt(
            #[trigger] e2[i].0,
            #[trigger] e2[j].0,
        ) by {
            let ii = if i < p { i } else { i + 1 };
            let jj = if j < p { j } else { j + 1 };
            assert(e2[i] == e[ii]);
            assert(e2[j] == e[jj]);
        }
    }
    assert forall|x: Seq<u8>| m2.contains_key(x) implies m.remove(k).contains_key(x) && m2[x]
        == m.remove(k)[x] by {
        let j = choose|j: int| 0 <= j < e2.len() && #[trigger] e2[j].0 == x;
        lemma_entries_map_index(e2, j);
        let jj = if j < p { j } else { j + 1 };
        assert(e2[j] == e[jj]);
        lemma_entries_map_index(e, jj);
        if jj < p {
            assert(lex_lt(e[jj].0, e[p].0));
        } else {
            assert(lex_lt(e[p].0, e[jj].0));
        }
    }
    assert forall|x: Seq<u8>| m.remove(k).contains_key(x) implies m2.contains_key(x) by {
        let j = choose|j: int| 0 <= j < e.len() && #[trigger] e[j].0 == x;
        assert(j != p);
        if j < p {
            assert(e2[j] == e[j]);
            lemma_entries_map_index(e2, j);
        } else {
            assert(e2[j - 1] == e[j]);
            lemma_entries_map_index(e2, j - 1);
        }
    }
    assert(m2 =~= m.remove(k));
}

/// Replacing the value of the entry at `p` maps its key to the new value.
pub proof fn lemma_entries_map_update(e: Seq<(Seq<u8>, Seq<u8>)>, p: int, v: Seq<u8>)
    requires
        sorted_by_key(e),
        0 <= p < e.len(),
    ensures
        entries_map(e.update(p, (e[p].0, v))) == entries_map(e).insert(e[p].0, v),
{
    broadcast use lemma_lex_irreflexive;

    let k = e[p].0;
    let e2 = e.update(p, (k, v));
    let m = entries_map(e);
    let m2 = entries_map(e2);
    assert(sorted_by_key(e2)) by {
        assert forall|i: int, j: int| 0 <= i < j < e2.len() implies lex_lt(
            #[trigger] e2[i].0,
            #[trigger] e2[j].0,
        ) by {
            assert(e2[i].0 == e[i].0);
            assert(e2[j].0 == e[j].0);
        }
    }
    assert forall|x: Seq<u8>| m2.contains_key(x) implies m.insert(k, v).contains_key(x) && m2[x]
        == m.insert(k, v)[x] by {
        let j = choose|j: int| 0 <= j < e2.len() && #[trigger] e2[j].0 == x;
        lemma_entries_map_index(e2, j);
        if j < p {
            assert(e2[j] == e[j]);
            assert(lex_lt(e[j].0, e[p].0));
            lemma_entries_map_index(e, j);
        } else if j > p {
            assert(e2[j] == e[j]);
            assert(lex_lt(e[p].0, e[j].0));
            lemma_entries_map_index(e, j);
        }
    }
    assert forall|x: Seq<u8>| m.insert(k, v).contains_key(x) implies m2.contains_key(x) by {
        if x == k {
            lemma_entries_map_index(e2, p);
        } else {
            let j = choose|j: int| 0 <= j < e.len() && #[trigger] e[j].0 == x;
            assert(e2[j] == e[j]);
            lemma_entries_map_index(e2, j);
        }
    }
    assert(m2 =~= m.insert(k, v));
}

/// `out` lists, in strictly increasing key order, exactly the entries of `m`
/// whose keys lie in the range from `start` to `end`.
pub open spec fn is_ordered_scan(
    out: Seq<(Seq<u8>, Seq<u8>)>,
    m: Map<Seq<u8>, Seq<u8>>,
    start: Option<Seq<u8>>,
    end: Option<Seq<u8>>,
) -> bool {
    &&& sorted_by_key(out)
    &&& forall|i: int|
        0 <= i < out.len() ==> {
            &&& in_key_range(start, end, #[trigger] out[i].0)
            &&& m.contains_key(out[i].0)
            &&& m[out[i].0] == out[i].1
        }
    &&& forall|k: Seq<u8>| m.contains_key(k) && in_key_range(start, end, k) ==> has_key(out, k)
}

/// A run of strictly sorted entries that starts at the first key not below
/// `start` and stops at the first key not below `end` is an ordered scan of
/// the map that the entries denote.
pub proof fn lemma_sorted_run_is_scan(
    e: Seq<(Seq<u8>, Seq<u8>)>,
    p0: int,
    p1: int,
    start: Option<Seq<u8>>,
    end: Option<Seq<u8>>,
)
    requires
        sorted_by_key(e),
        0 <= p0 <= p1 <= e.len(),
        forall|j: int|
            0 <= j < p0 ==> match start {
                Some(s) => lex_lt(#[trigger] e[j].0, s),
                None => false,
            },
        forall|j: int|
            p0 <= j < e.len() ==> match start {
                Some(s) => !lex_lt(#[trigger] e[j].0, s),
                None => true,
            },
        forall|j: int|
            p0 <= j < p1 ==> match end {
                Some(x) => lex_lt(#[trigger] e[j].0, x),
                None => true,
            },
        p1 < e.len() ==> match end {
            Some(x) => !lex_lt(e[p1].0, x),
            None => false,
        },
    ensures
        is_ordered_scan(e.subrange(p0, p1), entries_map(e), start, end),
{
    let out = e.subrange(p0, p1);
    let m = entries_map(e);
    assert(sorted_by_key(out)) by {
        assert forall|i: int, j: int| 0 <= i < j < out.len() implies lex_lt(
            #[trigger] out[i].0,
            #[trigger] out[j].0,
        ) by {
            assert(out[i] == e[p0 + i]);
            assert(out[j] == e[p0 + j]);
        }
    }
    assert forall|i: int| 0 <= i < out.len() implies {
        &&& in_key_range(start, end, #[trigger] out[i].0)
        &&& m.contains_key(out[i].0)
        &&& m[out[i].0] == out[i].1
    } by {
        assert(out[i] == e[p0 + i]);
        lemma_entries_map_index(e, p0 + i);
    }
    assert forall|k: Seq<u8>| m.contains_key(k) && in_key_range(start, end, k) implies has_key(
        out,
        k,
    ) by {
        let j = choose|j: int| 0 <= j < e.len() && #[trigger] e[j].0 == k;
        if j < p0 {
            assert(match start {
                Some(s) => lex_lt(e[j].0, s),
                None => false,
            });
        }
        if j > p1 {
            match end {
                Some(x) => {
                    assert(lex_lt(e[p1].0, e[j].0));
                    lemma_lex_transitive(e[p1].0, e[j].0, x);
                },
                None => {},
            }
        }
        assert(p0 <= j < p1);
        assert(out[j - p0].0 == k);
    }
}

/// An ordered scan is determined by the map and the range: two sequences
/// that both list, in strictly increasing key order, exactly the entries of
/// `m` in the range are the same sequence.
pub proof fn law_ordered_scan_is_unique(
    a: Seq<(Seq<u8>, Seq<u8>)>,
    b: Seq<(Seq<u8>, Seq<u8>)>,
    m: Map<Seq<u8>, Seq<u8>>,
    start: Option<Seq<u8>>,
    end: Option<Seq<u8>>,
)
    requires
        is_ordered_scan(a, m, start, end),
        is_ordered_scan(b, m, start, end),
    ensures
        a == b,
    decreases a.len() + b.len(),
{
    broadcast use lemma_lex_irreflexive;

    if a.len() == 0 && b.len() == 0 {
        assert(a =~= b);
    } else if a.len() == 0 {
        assert(in_key_range(start, end, b[0].0));
        assert(has_key(a, b[0].0));
    } else if b.len() == 0 {
        assert(in_key_range(start, end, a[0].0));
        assert(has_key(b, a[0].0));
    } else {
        let ka = a[0].0;
        let kb = b[0].0;
        assert(in_key_range(start, end, a[0].0));
        assert(in_key_range(start, end, b[0].0));
        assert(has_key(b, ka));
        assert(has_key(a, kb));
        let j = choose|j: int| 0 <= j < b.len() && #[trigger] b[j].0 == ka;
        let i = choose|i: int| 0 <= i < a.len() && #[trigger] a[i].0 == kb;
        if i > 0 && j > 0 {
            assert(lex_lt(a[0].0, a[i].0));
            assert(lex_lt(b[0].0, b[j].0));
            lemma_lex_asymmetric(ka, kb);
        } else if i > 0 {
            assert(lex_lt(a[0].0, a[i].0));
        } else if j > 0 {
            assert(lex_lt(b[0].0, b[j].0));
        }
        assert(ka == kb);
        let k = ka;
        assert(a[0] == b[0]);
        let m2 = m.remove(k);
        let a2 = a.drop_first();
        let b2 = b.drop_first();
        assert forall|x: Seq<(Seq<u8>, Seq<u8>)>| x == a2 || x == b2 implies is_ordered_scan(
            x,
            m2,
            start,
            end,
        ) by {
            let y = if x == a2 {
                a
            } else {
                b
            };
            assert(x =~= y.drop_first());
            assert forall|p: int, q: int| 0 <= p < q < x.len() implies lex_lt(
                #[trigger] x[p].0,
                #[trigger] x[q].0,
            ) by {
                assert(x[p] == y[p + 1]);
                assert(x[q] == y[q + 1]);
            }
            assert forall|p: int| 0 <= p < x.len() implies {
                &&& in_key_range(start, end, #[trigger] x[p].0)
                &&& m2.contains_key(x[p].0)
                &&& m2[x[p].0] == x[p].1
            } by {
                assert(x[p] == y[p + 1]);
                assert(lex_lt(y[0].0, y[p + 1].0));
                assert(in_key_range(start, end, y[p + 1].0));
            }
            assert forall|kk: Seq<u8>| m2.contains_key(kk) && in_key_range(
                start,
                end,
                kk,
            ) implies has_key(x, kk) by {
                assert(m.contains_key(kk));
                assert(has_key(y, kk));
                let p = choose|p: int| 0 <= p < y.len() && #[trigger] y[p].0 == kk;
                assert(p != 0);
                assert(x[p - 1] == y[p]);
            }
        }
        law_ordered_scan_is_unique(a2, b2, m2, start, end);
        assert(a2.len() == b2.len());
        assert(a.len() == b.len());
        assert(a =~= b) by {
            assert forall|p: int| 0 <= p < a.len() implies a[p] == b[p] by {
                if p > 0 {
                    assert(a[p] == a2[p - 1]);
                    assert(b[p] == b2[p - 1]);
                }
            }
        }
    }
}

} // verus!
