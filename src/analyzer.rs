//! Aggregation of parsed entries into a statistics snapshot.
use crate::parser::{LogEntry, LogLevel};
use crate::ranking::{
    before, behind_chosen, chosen_in_order, distinct_keys, lemma_chosen_distinct, lemma_index_count,
    rank, ranks_before, Candidate,
};
use crate::text::chars_of;
use vstd::prelude::*;

verus! {

/// A share `part` out of `whole`. As a percentage it reads
/// `part / whole × 100`, and 0 where `whole` is 0.
#[derive(Debug, Clone, Copy, PartialEq, Eq, Structural)]
pub struct Percent {
    pub part: usize,
    pub whole: usize,
}

impl Percent {
    /// The percentage lies in `[0, 100]`.
    pub open spec fn in_range(self) -> bool {
        self.part <= self.whole
    }

    /// The percentage is exactly 0.
    pub open spec fn is_zero(self) -> bool {
        self.whole == 0 || self.part == 0
    }
}

/// A count, with its share of all entries.
#[derive(Debug, Clone, Copy)]
pub struct LevelCount {
    pub count: usize,
    pub percentage: Percent,
}

/// The count of each level.
#[derive(Debug, Clone, Copy)]
pub struct LevelCounts {
    pub info: LevelCount,
    pub warn: LevelCount,
    pub error: LevelCount,
}

/// A ranked IP or endpoint with its request count and its share of all
/// entries.
#[derive(Debug, Clone)]
pub struct RankedItem {
    pub value: String,
    pub count: usize,
    pub percentage: Percent,
}

/// An IP whose error count exceeds the threshold.
#[derive(Debug, Clone)]
pub struct FlaggedIp {
    pub ip: String,
    pub error_count: usize,
    pub total_requests: usize,
    pub error_rate: Percent,
}

/// How often a status code occurs.
#[derive(Debug, Clone, Copy)]
pub struct StatusCount {
    pub code: u16,
    pub count: usize,
}

/// The complete analysis output.
#[derive(Debug)]
pub struct AnalysisStats {
    pub total_entries: usize,
    /// Lines that never became entries; set by the caller that read them.
    pub malformed_entries: usize,
    pub level_counts: LevelCounts,
    pub top_ips: Vec<RankedItem>,
    pub top_endpoints: Vec<RankedItem>,
    pub flagged_ips: Vec<FlaggedIp>,
    /// In ascending order of status code.
    pub status_code_distribution: Vec<StatusCount>,
    pub error_threshold: usize,
    pub top_n: usize,
}

/// What a per-key counter counts.
pub enum Counter {
    /// Requests from each IP.
    IpRequests,
    /// Error entries from each IP.
    IpErrors,
    /// Requests for each endpoint.
    EndpointRequests,
}

/// The key that entry `e` adds one to, if any.
pub open spec fn counted_key(e: LogEntry, c: Counter) -> Option<Seq<char>> {
    match c {
        Counter::IpRequests => Some(e.ip@),
        Counter::IpErrors => if e.level == LogLevel::Error {
            Some(e.ip@)
        } else {
            None
        },
        Counter::EndpointRequests => Some(e.endpoint@),
    }
}

/// How many entries of `s` add one to key `k` of counter `c`.
pub open spec fn hits(s: Seq<LogEntry>, c: Counter, k: Seq<char>) -> nat
    decreases s.len(),
{
    if s.len() == 0 {
        0
    } else {
        hits(s.drop_last(), c, k) + if counted_key(s.last(), c) == Some(k) {
            1nat
        } else {
            0nat
        }
    }
}

/// The keys that counter `c` has counted at least once.
pub open spec fn keys_seen(s: Seq<LogEntry>, c: Counter) -> Set<Seq<char>> {
    Set::new(|k: Seq<char>| hits(s, c, k) > 0)
}

proof fn lemma_hits_some_entry(s: Seq<LogEntry>, k: Seq<char>)
    ensures
        hits(s, Counter::IpRequests, k) > 0 <==> exists|i: int| 0 <= i < s.len() && s[i].ip@ == k,
    decreases s.len(),
{
    if s.len() > 0 {
        let p = s.drop_last();
        lemma_hits_some_entry(p, k);
        if exists|i: int| 0 <= i < p.len() && p[i].ip@ == k {
            let i = choose|i: int| 0 <= i < p.len() && p[i].ip@ == k;
            assert(s[i].ip@ == k);
        }
        if exists|i: int| 0 <= i < s.len() && s[i].ip@ == k {
            let i = choose|i: int| 0 <= i < s.len() && s[i].ip@ == k;
            if i < p.len() {
                assert(p[i].ip@ == k);
            }
        }
    }
}

/// The IPs that `Counter::IpRequests` has counted are exactly the distinct
/// IPs of the entries.
pub proof fn lemma_ips_seen(s: Seq<LogEntry>)
    ensures
        keys_seen(s, Counter::IpRequests) == s.map_values(|e: LogEntry| e.ip@).to_set(),
{
    let ips = s.map_values(|e: LogEntry| e.ip@);
    assert forall|k: Seq<char>| keys_seen(s, Counter::IpRequests).contains(k) <==> ips.to_set().contains(k) by {
        lemma_hits_some_entry(s, k);
        if ips.contains(k) {
            let i = choose|i: int| 0 <= i < ips.len() && ips[i] == k;
            assert(s[i].ip@ == k);
        }
        if exists|i: int| 0 <= i < s.len() && s[i].ip@ == k {
            let i = choose|i: int| 0 <= i < s.len() && s[i].ip@ == k;
            assert(ips[i] == k);
        }
    }
    assert(keys_seen(s, Counter::IpRequests) == ips.to_set());
}

/// How many entries of `s` have level `l`.
pub open spec fn level_hits(s: Seq<LogEntry>, l: LogLevel) -> nat
    decreases s.len(),
{
    if s.len() == 0 {
        0
    } else {
        level_hits(s.drop_last(), l) + if s.last().level == l {
            1nat
        } else {
            0nat
        }
    }
}

/// How many entries of `s` have status code `code`.
pub open spec fn status_hits(s: Seq<LogEntry>, code: u16) -> nat
    decreases s.len(),
{
    if s.len() == 0 {
        0
    } else {
        status_hits(s.drop_last(), code) + if s.last().status_code == code {
            1nat
        } else {
            0nat
        }
    }
}

/// The share `part` out of `whole`.
pub open spec fn share(part: int, whole: int) -> Percent {
    Percent { part: part as usize, whole: whole as usize }
}

pub proof fn lemma_hits_push(s: Seq<LogEntry>, e: LogEntry, c: Counter, k: Seq<char>)
    ensures
        hits(s.push(e), c, k) == hits(s, c, k) + if counted_key(e, c) == Some(k) {
            1nat
        } else {
            0nat
        },
{
    assert(s.push(e).drop_last() == s);
}

pub proof fn lemma_hits_bound(s: Seq<LogEntry>, c: Counter, k: Seq<char>)
    ensures
        hits(s, c, k) <= s.len(),
    decreases s.len(),
{
    if s.len() > 0 {
        lemma_hits_bound(s.drop_last(), c, k);
    }
}

pub proof fn lemma_status_hits_bound(s: Seq<LogEntry>, code: u16)
    ensures
        status_hits(s, code) <= s.len(),
    decreases s.len(),
{
    if s.len() > 0 {
        lemma_status_hits_bound(s.drop_last(), code);
    }
}

/// One counted key.
struct Tally {
    key: String,
    count: usize,
}

spec fn tally_has(t: Seq<Tally>, k: Seq<char>) -> bool {
    exists|i: int| 0 <= i < t.len() && t[i].key@ == k
}

/// `t` holds, once each, every key that counter `c` counted in `s`, with its
/// count.
spec fn tally_ok(t: Seq<Tally>, s: Seq<LogEntry>, c: Counter) -> bool {
    &&& forall|i: int, j: int| 0 <= i < j < t.len() ==> t[i].key@ != t[j].key@
    &&& forall|i: int|
        0 <= i < t.len() ==> t[i].count == hits(s, c, t[i].key@) && t[i].count > 0
    &&& forall|k: Seq<char>| #[trigger] hits(s, c, k) > 0 ==> tally_has(t, k)
}

proof fn lemma_tally_skip(t: Seq<Tally>, s: Seq<LogEntry>, e: LogEntry, c: Counter)
    requires
        tally_ok(t, s, c),
        counted_key(e, c) is None,
    ensures
        tally_ok(t, s.push(e), c),
{
    assert forall|k: Seq<char>| #[trigger] hits(s.push(e), c, k) == hits(s, c, k) by {
        lemma_hits_push(s, e, c, k);
    }
}

/// Counts `e` under `key`.
fn record(t: &mut Vec<Tally>, key: &String, Ghost(s): Ghost<Seq<LogEntry>>, Ghost(e): Ghost<LogEntry>, Ghost(c): Ghost<Counter>)
    requires
        tally_ok(old(t)@, s, c),
        counted_key(e, c) == Some(key@),
        s.len() < usize::MAX,
    ensures
        tally_ok(final(t)@, s.push(e), c),
{
    proof {
        assert forall|k: Seq<char>| #[trigger] hits(s.push(e), c, k) == hits(s, c, k) + if k == key@ {
            1nat
        } else {
            0nat
        } by {
            lemma_hits_push(s, e, c, k);
        }
    }
    let mut i: usize = 0;
    while i < t.len()
        invariant
            i <= t.len(),
            t@ == old(t)@,
            tally_ok(old(t)@, s, c),
            s.len() < usize::MAX,
            forall|k: Seq<char>| #[trigger] hits(s.push(e), c, k) == hits(s, c, k) + if k == key@ {
                1nat
            } else {
                0nat
            },
            forall|j: int| 0 <= j < i ==> t@[j].key@ != key@,
        decreases t.len() - i,
    {
        if t[i].key == *key {
            proof {
                lemma_hits_bound(s, c, key@);
                assert(t@[i as int].key@ == key@);
                assert(t@[i as int].count == hits(s, c, key@));
            }
            let count = t[i].count + 1;
            let k = t[i].key.clone();
            t.set(i, Tally { key: k, count });
            proof {
                assert forall|k2: Seq<char>| hits(s.push(e), c, k2) > 0 implies tally_has(t@, k2) by {
                    if hits(s, c, k2) > 0 {
                        assert(tally_has(old(t)@, k2));
                        let j = choose|j: int| 0 <= j < old(t)@.len() && old(t)@[j].key@ == k2;
                        assert(t@[j].key@ == k2);
                    } else {
                        assert(t@[i as int].key@ == k2);
                    }
                }
            }
            return;
        }
        i = i + 1;
    }
    t.push(Tally { key: key.clone(), count: 1 });
    proof {
        if hits(s, c, key@) > 0 {
            assert(tally_has(old(t)@, key@));
        }
        assert forall|k2: Seq<char>| hits(s.push(e), c, k2) > 0 implies tally_has(t@, k2) by {
            if hits(s, c, k2) > 0 {
                assert(tally_has(old(t)@, k2));
                let j = choose|j: int| 0 <= j < old(t)@.len() && old(t)@[j].key@ == k2;
                assert(t@[j].key@ == k2);
            } else {
                assert(t@[t.len() - 1].key@ == k2);
            }
        }
    }
}

/// `d` lists, in ascending order of code, every status code of `s` with how
/// often it occurs.
pub open spec fn is_status_list(d: Seq<StatusCount>, s: Seq<LogEntry>) -> bool {
    &&& forall|i: int, j: int| 0 <= i < j < d.len() ==> d[i].code < d[j].code
    &&& forall|i: int|
        0 <= i < d.len() ==> d[i].count == status_hits(s, d[i].code) && d[i].count > 0
    &&& forall|code: u16|
        #[trigger] status_hits(s, code) > 0 ==> exists|i: int| 0 <= i < d.len() && d[i].code == code
}

proof fn lemma_status_hits_push(s: Seq<LogEntry>, e: LogEntry)
    ensures
        forall|code: u16| #[trigger]
            status_hits(s.push(e), code) == status_hits(s, code) + if e.status_code == code {
                1nat
            } else {
                0nat
            },
{
    assert(s.push(e).drop_last() == s);
}

/// Counts `e` under its status code.
fn record_status(d: &mut Vec<StatusCount>, Ghost(s): Ghost<Seq<LogEntry>>, e: &LogEntry)
    requires
        is_status_list(old(d)@, s),
        s.len() < usize::MAX,
    ensures
        is_status_list(final(d)@, s.push(*e)),
{
    let code = e.status_code;
    proof {
        lemma_status_hits_push(s, *e);
    }
    let mut i: usize = 0;
    while i < d.len() && d[i].code < code
        invariant
            i <= d.len(),
            d@ == old(d)@,
            forall|j: int| 0 <= j < i ==> d@[j].code < code,
        decreases d.len() - i,
    {
        i = i + 1;
    }
    if i < d.len() && d[i].code == code {
        proof {
            lemma_status_hits_bound(s, code);
        }
        let count = d[i].count + 1;
        d.set(i, StatusCount { code, count });
        proof {
            assert forall|c2: u16| #[trigger] status_hits(s.push(*e), c2) > 0 implies exists|j: int|
                0 <= j < d.len() && d@[j].code == c2 by {
                if status_hits(s, c2) > 0 {
                    let j = choose|j: int| 0 <= j < old(d)@.len() && old(d)@[j].code == c2;
                    assert(d@[j].code == c2);
                } else {
                    assert(d@[i as int].code == c2);
                }
            }
        }
    } else {
        proof {
            if status_hits(s, code) > 0 {
                let j = choose|j: int| 0 <= j < old(d)@.len() && old(d)@[j].code == code;
                if j >= i {
                    assert(d@[i as int].code <= d@[j].code);
                }
            }
        }
        d.insert(i, StatusCount { code, count: 1 });
        proof {
            assert forall|a: int, b: int| 0 <= a < b < d.len() implies d@[a].code < d@[b].code by {
                if a < i && b > i {
                    assert(d@[a] == old(d)@[a]);
                    assert(d@[b] == old(d)@[b - 1]);
                    if b - 1 > i {
                        assert(old(d)@[i as int].code < old(d)@[b - 1].code);
                    }
                }
                if a == i && b > i {
                    assert(d@[b] == old(d)@[b - 1]);
                    if b - 1 > i {
                        assert(old(d)@[i as int].code < old(d)@[b - 1].code);
                    }
                }
            }
            assert forall|c2: u16| #[trigger] status_hits(s.push(*e), c2) > 0 implies exists|j: int|
                0 <= j < d.len() && d@[j].code == c2 by {
                if status_hits(s, c2) > 0 {
                    let j = choose|j: int| 0 <= j < old(d)@.len() && old(d)@[j].code == c2;
                    if j < i {
                        assert(d@[j].code == c2);
                    } else {
                        assert(d@[j + 1].code == c2);
                    }
                } else {
                    assert(d@[i as int].code == c2);
                }
            }
        }
    }
}

/// The smaller of `a` and `b`.
pub open spec fn smaller(a: int, b: int) -> int {
    if a < b {
        a
    } else {
        b
    }
}

/// Some item of `r` has the value `k`.
pub open spec fn lists_value(r: Seq<RankedItem>, k: Seq<char>) -> bool {
    exists|i: int| 0 <= i < r.len() && r[i].value@ == k
}

/// `r` is the top-`n` ranking of the keys that counter `c` counted in `s`:
/// as long as `n` or as the number of distinct keys, whichever is smaller;
/// by count, highest first, ties by key in ascending order; each item with
/// its count and its share of all entries; and every key left out ranks after
/// every key listed.
pub open spec fn is_top_list(r: Seq<RankedItem>, s: Seq<LogEntry>, c: Counter, n: int) -> bool {
    &&& r.len() == smaller(n, keys_seen(s, c).len() as int)
    &&& forall|i: int, j: int|
        0 <= i < j < r.len() ==> ranks_before(
            r[i].count as int,
            r[i].value@,
            r[j].count as int,
            r[j].value@,
        )
    &&& forall|i: int|
        0 <= i < r.len() ==> r[i].count == hits(s, c, r[i].value@) && r[i].count > 0
            && r[i].percentage == share(r[i].count as int, s.len() as int)
    &&& forall|k: Seq<char>|
        #[trigger] hits(s, c, k) > 0 && !lists_value(r, k) ==> forall|i: int|
            0 <= i < r.len() ==> ranks_before(r[i].count as int, r[i].value@, hits(s, c, k) as int, k)
}

proof fn lemma_tally_card(t: Seq<Tally>, s: Seq<LogEntry>, c: Counter)
    requires
        tally_ok(t, s, c),
    ensures
        t.len() == keys_seen(s, c).len(),
{
    let keys = t.map_values(|x: Tally| x.key@);
    assert forall|i: int, j: int| 0 <= i < keys.len() && 0 <= j < keys.len() && i != j implies keys[i]
        != keys[j] by {
        if i < j {
            assert(t[i].key@ != t[j].key@);
        } else {
            assert(t[j].key@ != t[i].key@);
        }
    }
    keys.unique_seq_to_set();
    assert forall|k: Seq<char>| keys.to_set().contains(k) <==> keys_seen(s, c).contains(k) by {
        if hits(s, c, k) > 0 {
            assert(tally_has(t, k));
            let i = choose|i: int| 0 <= i < t.len() && t[i].key@ == k;
            assert(keys[i] == k);
        }
        if keys.to_set().contains(k) {
            let i = choose|i: int| 0 <= i < keys.len() && keys[i] == k;
            assert(t[i].count > 0);
        }
    }
    assert(keys.to_set() == keys_seen(s, c));
}

/// The candidates of a tally, in the same order.
fn candidates(t: &Vec<Tally>) -> (pool: Vec<Candidate>)
    ensures
        pool.len() == t.len(),
        forall|i: int|
            0 <= i < t.len() ==> pool@[i].key@ == t@[i].key@ && pool@[i].chars@ == t@[i].key@
                && pool@[i].count == t@[i].count,
{
    let mut pool: Vec<Candidate> = Vec::new();
    let mut i: usize = 0;
    while i < t.len()
        invariant
            i <= t.len(),
            pool.len() == i,
            forall|j: int|
                0 <= j < i ==> pool@[j].key@ == t@[j].key@ && pool@[j].chars@ == t@[j].key@
                    && pool@[j].count == t@[j].count,
        decreases t.len() - i,
    {
        let key = t[i].key.clone();
        let chars = chars_of(key.as_str());
        pool.push(Candidate { key, chars, count: t[i].count });
        i = i + 1;
    }
    pool
}

/// The top-`n` ranking of a tally.
fn top_list(t: &Vec<Tally>, n: usize, total: usize, Ghost(s): Ghost<Seq<LogEntry>>, Ghost(c): Ghost<Counter>) -> (r: Vec<RankedItem>)
    requires
        tally_ok(t@, s, c),
        total == s.len(),
    ensures
        is_top_list(r@, s, c, n as int),
{
    let pool = candidates(t);
    let idx = rank(&pool, n);
    let mut out: Vec<RankedItem> = Vec::new();
    let mut i: usize = 0;
    while i < idx.len()
        invariant
            i <= idx.len(),
            out.len() == i,
            chosen_in_order(pool@, idx@),
            pool.len() == t.len(),
            forall|j: int|
                0 <= j < i ==> out@[j].value@ == pool@[idx@[j] as int].key@ && out@[j].count
                    == pool@[idx@[j] as int].count && out@[j].percentage == share(
                    out@[j].count as int,
                    total as int,
                ),
        decreases idx.len() - i,
    {
        let x = &pool[idx[i]];
        out.push(
            RankedItem {
                value: x.key.clone(),
                count: x.count,
                percentage: Percent { part: x.count, whole: total },
            },
        );
        i = i + 1;
    }
    proof {
        lemma_tally_card(t@, s, c);
        assert forall|k: Seq<char>| #[trigger] hits(s, c, k) > 0 && !lists_value(out@, k) implies forall|
            i: int,
        | 0 <= i < out.len() ==> ranks_before(
            out@[i].count as int,
            out@[i].value@,
            hits(s, c, k) as int,
            k,
        ) by {
            assert(tally_has(t@, k));
            let p = choose|p: int| 0 <= p < t.len() && t@[p].key@ == k;
            if idx@.contains(p as usize) {
                let j = choose|j: int| 0 <= j < idx.len() && idx@[j] == p as usize;
                assert(out@[j].value@ == k);
            }
            assert(behind_chosen(pool@, idx@, p));
            assert forall|i: int| 0 <= i < out.len() implies ranks_before(
                out@[i].count as int,
                out@[i].value@,
                hits(s, c, k) as int,
                k,
            ) by {
                assert(before(pool@[idx@[i] as int], pool@[p]));
            }
        }
        assert forall|i: int, j: int| 0 <= i < j < out.len() implies ranks_before(
            out@[i].count as int,
            out@[i].value@,
            out@[j].count as int,
            out@[j].value@,
        ) by {
            assert(before(pool@[idx@[i] as int], pool@[idx@[j] as int]));
        }
    }
    out
}

/// `f` lists every IP whose error count exceeds `threshold`, no other, by
/// error count, highest first, ties by IP in ascending order; each with its
/// error count, its request count and the share of its requests that were
/// errors.
pub open spec fn is_flag_list(f: Seq<FlaggedIp>, s: Seq<LogEntry>, threshold: int) -> bool {
    &&& forall|i: int, j: int|
        0 <= i < j < f.len() ==> ranks_before(
            f[i].error_count as int,
            f[i].ip@,
            f[j].error_count as int,
            f[j].ip@,
        )
    &&& forall|i: int|
        0 <= i < f.len() ==> {
            &&& f[i].error_count == hits(s, Counter::IpErrors, f[i].ip@)
            &&& f[i].error_count > threshold
            &&& f[i].total_requests == hits(s, Counter::IpRequests, f[i].ip@)
            &&& f[i].error_rate == share(f[i].error_count as int, f[i].total_requests as int)
        }
    &&& forall|k: Seq<char>|
        #[trigger] hits(s, Counter::IpErrors, k) > threshold ==> exists|i: int|
            0 <= i < f.len() && f[i].ip@ == k
}

/// The count of `key` in a tally: 0 where it is absent.
fn lookup(t: &Vec<Tally>, key: &String, Ghost(s): Ghost<Seq<LogEntry>>, Ghost(c): Ghost<Counter>) -> (r: usize)
    requires
        tally_ok(t@, s, c),
    ensures
        r == hits(s, c, key@),
{
    let mut i: usize = 0;
    while i < t.len()
        invariant
            i <= t.len(),
            tally_ok(t@, s, c),
            forall|j: int| 0 <= j < i ==> t@[j].key@ != key@,
        decreases t.len() - i,
    {
        if t[i].key == *key {
            return t[i].count;
        }
        i = i + 1;
    }
    proof {
        if hits(s, c, key@) > 0 {
            assert(tally_has(t@, key@));
        }
    }
    0
}

pub proof fn lemma_error_le_requests(s: Seq<LogEntry>, k: Seq<char>)
    ensures
        hits(s, Counter::IpErrors, k) <= hits(s, Counter::IpRequests, k),
    decreases s.len(),
{
    if s.len() > 0 {
        lemma_error_le_requests(s.drop_last(), k);
    }
}

/// The IPs of the error tally `errors` whose count exceeds `threshold`.
fn flagged(errors: &Vec<Tally>, requests: &Vec<Tally>, threshold: usize, Ghost(s): Ghost<Seq<LogEntry>>) -> (r: Vec<FlaggedIp>)
    requires
        tally_ok(errors@, s, Counter::IpErrors),
        tally_ok(requests@, s, Counter::IpRequests),
    ensures
        is_flag_list(r@, s, threshold as int),
{
    let mut pool: Vec<Candidate> = Vec::new();
    let mut i: usize = 0;
    while i < errors.len()
        invariant
            i <= errors.len(),
            tally_ok(errors@, s, Counter::IpErrors),
            forall|p: int|
                0 <= p < pool.len() ==> pool@[p].chars@ == pool@[p].key@ && pool@[p].count
                    == hits(s, Counter::IpErrors, pool@[p].key@) && pool@[p].count > threshold,
            forall|p: int|
                0 <= p < pool.len() ==> exists|j: int|
                    0 <= j < i && errors@[j].key@ == #[trigger] pool@[p].key@,
            forall|j: int|
                0 <= j < i && errors@[j].count > threshold ==> exists|p: int|
                    0 <= p < pool.len() && pool@[p].key@ == errors@[j].key@,
            distinct_keys(pool@),
        decreases errors.len() - i,
    {
        if errors[i].count > threshold {
            let key = errors[i].key.clone();
            let chars = chars_of(key.as_str());
            let ghost before_pool = pool@;
            pool.push(Candidate { key, chars, count: errors[i].count });
            proof {
                assert forall|p: int| 0 <= p < before_pool.len() implies pool@[p].chars@ != errors@[i as int].key@ by {
                    let j = choose|j: int| 0 <= j < i && errors@[j].key@ == before_pool[p].key@;
                    assert(errors@[j].key@ != errors@[i as int].key@);
                }
                assert forall|p: int| 0 <= p < pool.len() implies exists|j: int|
                    0 <= j < i + 1 && errors@[j].key@ == #[trigger] pool@[p].key@ by {
                    if p < before_pool.len() {
                        let j = choose|j: int| 0 <= j < i && errors@[j].key@ == before_pool[p].key@;
                        assert(errors@[j].key@ == pool@[p].key@);
                    } else {
                        assert(errors@[i as int].key@ == pool@[p].key@);
                    }
                }
                assert forall|j: int| 0 <= j < i + 1 && errors@[j].count > threshold implies exists|p: int|
                    0 <= p < pool.len() && pool@[p].key@ == errors@[j].key@ by {
                    if j < i {
                        let p = choose|p: int| 0 <= p < before_pool.len() && before_pool[p].key@ == errors@[j].key@;
                        assert(pool@[p].key@ == errors@[j].key@);
                    } else {
                        assert(pool@[pool.len() - 1].key@ == errors@[j].key@);
                    }
                }
            }
        }
        i = i + 1;
    }
    let idx = rank(&pool, pool.len());
    proof {
        lemma_chosen_distinct(pool@, idx@);
        lemma_index_count(idx@, pool.len() as nat);
    }
    let mut out: Vec<FlaggedIp> = Vec::new();
    let mut i: usize = 0;
    while i < idx.len()
        invariant
            i <= idx.len(),
            out.len() == i,
            chosen_in_order(pool@, idx@),
            tally_ok(requests@, s, Counter::IpRequests),
            forall|p: int|
                0 <= p < pool.len() ==> pool@[p].chars@ == pool@[p].key@ && pool@[p].count
                    == hits(s, Counter::IpErrors, pool@[p].key@) && pool@[p].count > threshold,
            forall|j: int|
                0 <= j < i ==> {
                    &&& out@[j].ip@ == pool@[idx@[j] as int].key@
                    &&& out@[j].error_count == pool@[idx@[j] as int].count
                    &&& out@[j].total_requests == hits(s, Counter::IpRequests, out@[j].ip@)
                    &&& out@[j].error_rate == share(
                        out@[j].error_count as int,
                        out@[j].total_requests as int,
                    )
                },
        decreases idx.len() - i,
    {
        let x = &pool[idx[i]];
        let total = lookup(requests, &x.key, Ghost(s), Ghost(Counter::IpRequests));
        out.push(
            FlaggedIp {
                ip: x.key.clone(),
                error_count: x.count,
                total_requests: total,
                error_rate: Percent { part: x.count, whole: total },
            },
        );
        i = i + 1;
    }
    proof {
        assert forall|i: int, j: int| 0 <= i < j < out.len() implies ranks_before(
            out@[i].error_count as int,
            out@[i].ip@,
            out@[j].error_count as int,
            out@[j].ip@,
        ) by {
            assert(before(pool@[idx@[i] as int], pool@[idx@[j] as int]));
        }
        assert forall|k: Seq<char>| #[trigger] hits(s, Counter::IpErrors, k) > threshold implies exists|i: int|
            0 <= i < out.len() && out@[i].ip@ == k by {
            assert(tally_has(errors@, k));
            let j = choose|j: int| 0 <= j < errors.len() && errors@[j].key@ == k;
            let p = choose|p: int| 0 <= p < pool.len() && pool@[p].key@ == errors@[j].key@;
            assert(idx@.contains(p as usize));
            let q = choose|q: int| 0 <= q < idx.len() && idx@[q] == p as usize;
            assert(out@[q].ip@ == k);
        }
    }
    out
}

/// `lc` is the count of level `l` in `s`, with its share of all entries.
pub open spec fn is_level_count(lc: LevelCount, s: Seq<LogEntry>, l: LogLevel) -> bool {
    lc.count == level_hits(s, l) && lc.percentage == share(lc.count as int, s.len() as int)
}

/// `st` is the snapshot of the entries `s`, for ranking size `top_n` and
/// error threshold `error_threshold`.
pub open spec fn is_analysis(s: Seq<LogEntry>, top_n: int, error_threshold: int, st: AnalysisStats) -> bool {
    &&& st.total_entries == s.len()
    &&& st.malformed_entries == 0
    &&& st.top_n == top_n
    &&& st.error_threshold == error_threshold
    &&& is_level_count(st.level_counts.info, s, LogLevel::Info)
    &&& is_level_count(st.level_counts.warn, s, LogLevel::Warn)
    &&& is_level_count(st.level_counts.error, s, LogLevel::Error)
    &&& is_top_list(st.top_ips@, s, Counter::IpRequests, top_n)
    &&& is_top_list(st.top_endpoints@, s, Counter::EndpointRequests, top_n)
    &&& is_flag_list(st.flagged_ips@, s, error_threshold)
    &&& is_status_list(st.status_code_distribution@, s)
}

proof fn lemma_level_hits_push(s: Seq<LogEntry>, e: LogEntry)
    ensures
        forall|l: LogLevel| #[trigger]
            level_hits(s.push(e), l) == level_hits(s, l) + if e.level == l {
                1nat
            } else {
                0nat
            },
{
    assert(s.push(e).drop_last() == s);
}

/// Aggregates `entries` in one pass: level counts, the `top_n` IPs and
/// endpoints by request count, the IPs with more than `error_threshold`
/// errors, and the status-code distribution. The count of malformed lines is
/// left at 0 for the caller to fill in.
pub fn analyze(entries: &[LogEntry], top_n: usize, error_threshold: usize) -> (r: AnalysisStats)
    ensures
        is_analysis(entries@, top_n as int, error_threshold as int, r),
{
    let total = entries.len();
    let mut info_count: usize = 0;
    let mut warn_count: usize = 0;
    let mut error_count: usize = 0;
    let mut ip_totals: Vec<Tally> = Vec::new();
    let mut ip_errors: Vec<Tally> = Vec::new();
    let mut endpoint_counts: Vec<Tally> = Vec::new();
    let mut status_counts: Vec<StatusCount> = Vec::new();
    let mut i: usize = 0;
    while i < total
        invariant
            total == entries.len(),
            i <= total,
            info_count == level_hits(entries@.subrange(0, i as int), LogLevel::Info),
            warn_count == level_hits(entries@.subrange(0, i as int), LogLevel::Warn),
            error_count == level_hits(entries@.subrange(0, i as int), LogLevel::Error),
            info_count + warn_count + error_count == i,
            tally_ok(ip_totals@, entries@.subrange(0, i as int), Counter::IpRequests),
            tally_ok(ip_errors@, entries@.subrange(0, i as int), Counter::IpErrors),
            tally_ok(endpoint_counts@, entries@.subrange(0, i as int), Counter::EndpointRequests),
            is_status_list(status_counts@, entries@.subrange(0, i as int)),
        decreases total - i,
    {
        let e = &entries[i];
        let ghost pre = entries@.subrange(0, i as int);
        proof {
            assert(entries@.subrange(0, i + 1) == pre.push(*e));
            lemma_level_hits_push(pre, *e);
        }
        match e.level {
            LogLevel::Info => {
                info_count = info_count + 1;
            },
            LogLevel::Warn => {
                warn_count = warn_count + 1;
            },
            LogLevel::Error => {
                error_count = error_count + 1;
                record(&mut ip_errors, &e.ip, Ghost(pre), Ghost(*e), Ghost(Counter::IpErrors));
            },
        }
        proof {
            if e.level != LogLevel::Error {
                lemma_tally_skip(ip_errors@, pre, *e, Counter::IpErrors);
            }
        }
        record(&mut ip_totals, &e.ip, Ghost(pre), Ghost(*e), Ghost(Counter::IpRequests));
        record(&mut endpoint_counts, &e.endpoint, Ghost(pre), Ghost(*e), Ghost(Counter::EndpointRequests));
        record_status(&mut status_counts, Ghost(pre), e);
        i = i + 1;
    }
    let ghost s = entries@;
    proof {
        assert(entries@.subrange(0, total as int) == s);
    }
    let level_counts = LevelCounts {
        info: LevelCount { count: info_count, percentage: Percent { part: info_count, whole: total } },
        warn: LevelCount { count: warn_count, percentage: Percent { part: warn_count, whole: total } },
        error: LevelCount {
            count: error_count,
            percentage: Percent { part: error_count, whole: total },
        },
    };
    let top_ips = top_list(&ip_totals, top_n, total, Ghost(s), Ghost(Counter::IpRequests));
    let top_endpoints = top_list(&endpoint_counts, top_n, total, Ghost(s), Ghost(Counter::EndpointRequests));
    let flagged_ips = flagged(&ip_errors, &ip_totals, error_threshold, Ghost(s));
    AnalysisStats {
        total_entries: total,
        malformed_entries: 0,
        level_counts,
        top_ips,
        top_endpoints,
        flagged_ips,
        status_code_distribution: status_counts,
        error_threshold,
        top_n,
    }
}

} // verus!
