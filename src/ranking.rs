//! Ranking of counted keys: by count, highest first, ties by key in ascending
//! lexicographic order.
use vstd::prelude::*;
use vstd::set_lib::*;

verus! {

/// Lexicographic order on character sequences, by code point: the order in
/// which `str` compares.
pub open spec fn key_lt(a: Seq<char>, b: Seq<char>) -> bool
    decreases a.len(),
{
    if a.len() == 0 {
        b.len() > 0
    } else if b.len() == 0 {
        false
    } else if a[0] != b[0] {
        a[0] < b[0]
    } else {
        key_lt(a.drop_first(), b.drop_first())
    }
}

/// The key `k1` counted `c1` times ranks before the key `k2` counted `c2`
/// times.
pub open spec fn ranks_before(c1: int, k1: Seq<char>, c2: int, k2: Seq<char>) -> bool {
    c1 > c2 || (c1 == c2 && key_lt(k1, k2))
}

pub proof fn lemma_key_lt_irreflexive(a: Seq<char>)
    ensures
        !key_lt(a, a),
    decreases a.len(),
{
    if a.len() > 0 {
        lemma_key_lt_irreflexive(a.drop_first());
    }
}

pub proof fn lemma_key_lt_transitive(a: Seq<char>, b: Seq<char>, c: Seq<char>)
    requires
        key_lt(a, b),
        key_lt(b, c),
    ensures
        key_lt(a, c),
    decreases a.len(),
{
    if a.len() > 0 && b.len() > 0 && c.len() > 0 && a[0] == b[0] && b[0] == c[0] {
        lemma_key_lt_transitive(a.drop_first(), b.drop_first(), c.drop_first());
    }
}

pub proof fn lemma_key_lt_total(a: Seq<char>, b: Seq<char>)
    requires
        a != b,
    ensures
        key_lt(a, b) || key_lt(b, a),
    decreases a.len(),
{
    if a.len() > 0 && b.len() > 0 {
        if a[0] == b[0] {
            assert(a == seq![a[0]] + a.drop_first());
            assert(b == seq![b[0]] + b.drop_first());
            lemma_key_lt_total(a.drop_first(), b.drop_first());
        }
    } else if a.len() == 0 && b.len() == 0 {
        assert(a == b);
    }
}

/// `ranks_before` is a strict total order on pairs with distinct keys.
pub proof fn lemma_ranks_before_order(c1: int, k1: Seq<char>, c2: int, k2: Seq<char>, c3: int, k3: Seq<char>)
    ensures
        !ranks_before(c1, k1, c1, k1),
        ranks_before(c1, k1, c2, k2) && ranks_before(c2, k2, c3, k3) ==> ranks_before(c1, k1, c3, k3),
        k1 != k2 ==> ranks_before(c1, k1, c2, k2) || ranks_before(c2, k2, c1, k1),
        ranks_before(c1, k1, c2, k2) ==> !ranks_before(c2, k2, c1, k1),
{
    lemma_key_lt_irreflexive(k1);
    if ranks_before(c1, k1, c2, k2) && ranks_before(c2, k2, c3, k3) && c1 == c2 && c2 == c3 {
        lemma_key_lt_transitive(k1, k2, k3);
    }
    if k1 != k2 {
        lemma_key_lt_total(k1, k2);
    }
    if ranks_before(c1, k1, c2, k2) && c1 == c2 && key_lt(k2, k1) {
        lemma_key_lt_transitive(k1, k2, k1);
    }
}

pub open spec fn pair_before(x: (int, Seq<char>), y: (int, Seq<char>)) -> bool {
    ranks_before(x.0, x.1, y.0, y.1)
}

/// Strictly ordered by `ranks_before`.
pub open spec fn pairs_in_order(a: Seq<(int, Seq<char>)>) -> bool {
    forall|i: int, j: int| 0 <= i < j < a.len() ==> pair_before(a[i], a[j])
}

/// Each pair of `a` is in `b`, or ranks after all of `b`.
pub open spec fn kept_or_after(a: Seq<(int, Seq<char>)>, b: Seq<(int, Seq<char>)>) -> bool {
    forall|i: int|
        0 <= i < a.len() ==> b.contains(a[i]) || forall|j: int|
            0 <= j < b.len() ==> pair_before(b[j], #[trigger] a[i])
}

proof fn lemma_pair_order(x: (int, Seq<char>), y: (int, Seq<char>))
    ensures
        !pair_before(x, x),
        x.1 != y.1 ==> pair_before(x, y) || pair_before(y, x),
        pair_before(x, y) ==> !pair_before(y, x),
{
    lemma_ranks_before_order(x.0, x.1, y.0, y.1, x.0, x.1);
}

/// Two rankings in strict order, each of whose pairs is in the other or
/// ranks after all of it, and in which a key fixes its count, agree on their
/// first `k` places.
pub proof fn lemma_rankings_agree(a: Seq<(int, Seq<char>)>, b: Seq<(int, Seq<char>)>, k: int)
    requires
        0 <= k <= a.len(),
        k <= b.len(),
        pairs_in_order(a),
        pairs_in_order(b),
        kept_or_after(a, b),
        kept_or_after(b, a),
        forall|i: int, j: int| 0 <= i < a.len() && 0 <= j < b.len() && a[i].1 == b[j].1 ==> a[i] == b[j],
    ensures
        forall|i: int| 0 <= i < k ==> a[i] == b[i],
    decreases k,
{
    if k > 0 {
        lemma_rankings_agree(a, b, k - 1);
        let i = k - 1;
        let x = a[i];
        let y = b[i];
        lemma_pair_order(x, y);
        lemma_pair_order(y, x);
        if x != y {
            assert(x.1 != y.1);
            if pair_before(x, y) {
                if b.contains(x) {
                    let p = choose|p: int| 0 <= p < b.len() && b[p] == x;
                    if p < i {
                        assert(a[p] == b[p]);
                    } else if p > i {
                        assert(pair_before(y, x));
                    }
                } else {
                    assert(pair_before(b[i], a[i]));
                }
            } else {
                if a.contains(y) {
                    let p = choose|p: int| 0 <= p < a.len() && a[p] == y;
                    if p < i {
                        assert(a[p] == b[p]);
                    } else if p > i {
                        assert(pair_before(x, y));
                    }
                } else {
                    assert(pair_before(a[i], b[i]));
                }
            }
        }
    }
}

/// Whether `a` comes before `b` in lexicographic order.
pub fn key_less(a: &Vec<char>, b: &Vec<char>) -> (r: bool)
    ensures
        r == key_lt(a@, b@),
{
    let mut i: usize = 0;
    assert(a@.skip(0) == a@);
    assert(b@.skip(0) == b@);
    while i < a.len() && i < b.len() && a[i] == b[i]
        invariant
            i <= a.len(),
            i <= b.len(),
            key_lt(a@, b@) == key_lt(a@.skip(i as int), b@.skip(i as int)),
        decreases a.len() - i,
    {
        assert(a@.skip(i as int).drop_first() == a@.skip(i + 1));
        assert(b@.skip(i as int).drop_first() == b@.skip(i + 1));
        i = i + 1;
    }
    if i == a.len() {
        i < b.len()
    } else if i == b.len() {
        false
    } else {
        a[i] < b[i]
    }
}

/// A counted key, with its characters at hand for comparisons.
pub struct Candidate {
    pub key: String,
    pub chars: Vec<char>,
    pub count: usize,
}

pub open spec fn before(x: Candidate, y: Candidate) -> bool {
    ranks_before(x.count as int, x.chars@, y.count as int, y.chars@)
}

fn ahead(x: &Candidate, y: &Candidate) -> (r: bool)
    ensures
        r == before(*x, *y),
{
    x.count > y.count || (x.count == y.count && key_less(&x.chars, &y.chars))
}

/// No two candidates of the pool share a key.
pub open spec fn distinct_keys(pool: Seq<Candidate>) -> bool {
    forall|p: int, q: int|
        0 <= p < pool.len() && 0 <= q < pool.len() && p != q ==> pool[p].chars@ != pool[q].chars@
}

/// Counting a list of distinct indices below `len`.
pub proof fn lemma_index_count(r: Seq<usize>, len: nat)
    requires
        len <= usize::MAX,
        r.no_duplicates(),
        forall|i: int| 0 <= i < r.len() ==> r[i] < len,
    ensures
        r.len() <= len,
        r.len() == len ==> forall|p: usize| p < len ==> r.contains(p),
        (forall|p: usize| p < len ==> r.contains(p)) ==> r.len() == len,
{
    let ri = r.map_values(|x: usize| x as int);
    assert forall|i: int, j: int| 0 <= i < ri.len() && 0 <= j < ri.len() && i != j implies ri[i]
        != ri[j] by {
        assert(r[i] != r[j]);
    }
    ri.unique_seq_to_set();
    let range = set_int_range(0, len as int);
    lemma_int_range(0, len as int);
    assert forall|x: int| ri.to_set().contains(x) implies range.contains(x) by {
        let i = choose|i: int| 0 <= i < ri.len() && ri[i] == x;
        assert(r[i] < len);
    }
    lemma_len_subset(ri.to_set(), range);
    if r.len() == len {
        lemma_subset_equality(ri.to_set(), range);
        assert forall|p: usize| p < len implies r.contains(p) by {
            assert(range.contains(p as int));
            assert(ri.to_set().contains(p as int));
            let i = choose|i: int| 0 <= i < ri.len() && ri[i] == p as int;
            assert(r[i] == p);
        }
    }
    if forall|p: usize| p < len ==> r.contains(p) {
        assert forall|x: int| range.contains(x) implies ri.to_set().contains(x) by {
            assert(0 <= x < len);
            assert(r.contains(x as usize));
            let i = choose|i: int| 0 <= i < r.len() && r[i] == x as usize;
            assert(ri[i] == x);
        }
        lemma_len_subset(range, ri.to_set());
    }
}

proof fn lemma_before(x: Candidate, y: Candidate, z: Candidate)
    ensures
        !before(x, x),
        before(x, y) && before(y, z) ==> before(x, z),
        x.chars@ != y.chars@ ==> before(x, y) || before(y, x),
        before(x, y) ==> !before(y, x),
{
    lemma_ranks_before_order(x.count as int, x.chars@, y.count as int, y.chars@, z.count as int, z.chars@);
}

/// Candidate `q` ranks after every candidate chosen so far.
pub open spec fn behind_chosen(pool: Seq<Candidate>, out: Seq<usize>, q: int) -> bool {
    forall|i: int| 0 <= i < out.len() ==> before(pool[out[i] as int], pool[q])
}

/// The chosen positions are in strict ranking order.
pub open spec fn chosen_in_order(pool: Seq<Candidate>, out: Seq<usize>) -> bool {
    &&& forall|i: int| 0 <= i < out.len() ==> out[i] < pool.len()
    &&& forall|i: int, j: int|
        0 <= i < j < out.len() ==> before(pool[out[i] as int], pool[out[j] as int])
}

/// Candidate `q` ranks after the last one chosen.
pub open spec fn after_last(pool: Seq<Candidate>, out: Seq<usize>, q: int) -> bool {
    out.len() == 0 || before(pool[out.last() as int], pool[q])
}

pub proof fn lemma_chosen_distinct(pool: Seq<Candidate>, out: Seq<usize>)
    requires
        pool.len() <= usize::MAX,
        chosen_in_order(pool, out),
    ensures
        out.no_duplicates(),
        forall|q: int|
            0 <= q < pool.len() && after_last(pool, out, q) ==> !out.contains(q as usize),
{
    assert forall|i: int, j: int| 0 <= i < out.len() && 0 <= j < out.len() && i != j implies out[i]
        != out[j] by {
        let (a, b) = if i < j { (i, j) } else { (j, i) };
        lemma_before(pool[out[a] as int], pool[out[a] as int], pool[out[a] as int]);
    }
    assert forall|q: int| 0 <= q < pool.len() && after_last(pool, out, q) implies !out.contains(
        q as usize,
    ) by {
        if out.contains(q as usize) {
            let i = choose|i: int| 0 <= i < out.len() && out[i] == q as usize;
            let l = out.last() as int;
            assert(out[i] as int == q);
            lemma_before(pool[l], pool[q], pool[l]);
            if i < out.len() - 1 {
                assert(before(pool[q], pool[l]));
            }
        }
    }
}

/// The positions in `pool` of its first `n` candidates in ranking order: as
/// many as `n`, or all where the pool is smaller; in strict ranking order;
/// and every candidate left out ranks after every one chosen.
pub fn rank(pool: &Vec<Candidate>, n: usize) -> (r: Vec<usize>)
    requires
        distinct_keys(pool@),
    ensures
        r.len() == if n < pool.len() {
            n as int
        } else {
            pool.len() as int
        },
        chosen_in_order(pool@, r@),
        forall|p: int|
            0 <= p < pool.len() && !r@.contains(p as usize) ==> behind_chosen(pool@, r@, p),
{
    let mut out: Vec<usize> = Vec::new();
    while out.len() < n
        invariant
            distinct_keys(pool@),
            out.len() <= n,
            out.len() <= pool.len(),
            chosen_in_order(pool@, out@),
            forall|p: int|
                0 <= p < pool.len() && !out@.contains(p as usize) ==> behind_chosen(pool@, out@, p),
        ensures
            out.len() == if n < pool.len() {
                n as int
            } else {
                pool.len() as int
            },
        decreases n - out.len(),
    {
        let mut best: Option<usize> = None;
        let mut p: usize = 0;
        while p < pool.len()
            invariant
                distinct_keys(pool@),
                chosen_in_order(pool@, out@),
                p <= pool.len(),
                match best {
                    Some(b) => b < p && after_last(pool@, out@, b as int) && forall|q: int|
                        0 <= q < p && after_last(pool@, out@, q) ==> q == b || before(
                            pool@[b as int],
                            pool@[q],
                        ),
                    None => forall|q: int| 0 <= q < p ==> !after_last(pool@, out@, q),
                },
            decreases pool.len() - p,
        {
            let eligible = out.len() == 0 || ahead(&pool[out[out.len() - 1]], &pool[p]);
            if eligible {
                match best {
                    None => {
                        best = Some(p);
                    },
                    Some(b) => {
                        if ahead(&pool[p], &pool[b]) {
                            proof {
                                assert forall|q: int|
                                    0 <= q < p + 1 && after_last(pool@, out@, q) implies q == p
                                    || before(pool@[p as int], pool@[q]) by {
                                    lemma_before(pool@[p as int], pool@[b as int], pool@[q]);
                                }
                            }
                            best = Some(p);
                        } else {
                            proof {
                                lemma_before(pool@[b as int], pool@[p as int], pool@[b as int]);
                            }
                        }
                    },
                }
            }
            p = p + 1;
        }
        proof {
            lemma_chosen_distinct(pool@, out@);
        }
        match best {
            None => {
                proof {
                    assert forall|q: usize| q < pool.len() implies out@.contains(q) by {
                        if !out@.contains(q) {
                            assert(behind_chosen(pool@, out@, q as int));
                            assert(after_last(pool@, out@, q as int));
                        }
                    }
                    lemma_index_count(out@, pool.len() as nat);
                }
                break;
            },
            Some(b) => {
                let ghost old_out = out@;
                out.push(b);
                proof {
                    assert(!old_out.contains(b));
                    assert forall|i: int, j: int| 0 <= i < j < out.len() implies before(
                        pool@[out@[i] as int],
                        pool@[out@[j] as int],
                    ) by {
                        if j == out.len() - 1 && i < j - 1 {
                            lemma_before(
                                pool@[out@[i] as int],
                                pool@[old_out.last() as int],
                                pool@[b as int],
                            );
                        }
                    }
                    assert forall|q: int|
                        0 <= q < pool.len() && !out@.contains(q as usize) implies behind_chosen(
                        pool@,
                        out@,
                        q,
                    ) by {
                        if old_out.contains(q as usize) {
                            let i = choose|i: int| 0 <= i < old_out.len() && old_out[i] == q as usize;
                            assert(out@[i] == q as usize);
                        }
                        assert(out@.last() == b);
                        assert(behind_chosen(pool@, old_out, q));
                        if old_out.len() > 0 {
                            assert(before(pool@[old_out[old_out.len() - 1] as int], pool@[q]));
                        }
                        assert(q != b);
                        assert(after_last(pool@, old_out, q));
                        assert(before(pool@[b as int], pool@[q]));
                        assert forall|i: int| 0 <= i < out.len() implies before(
                            pool@[out@[i] as int],
                            pool@[q],
                        ) by {
                            if i < old_out.len() {
                                assert(out@[i] == old_out[i]);
                            }
                        }
                    }
                    assert(chosen_in_order(pool@, out@));
                    lemma_chosen_distinct(pool@, out@);
                    lemma_index_count(out@, pool.len() as nat);
                }
            },
        }
    }
    out
}

} // verus!
