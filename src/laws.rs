//! Laws that hold of every snapshot `analyze` can return.
use crate::analyzer::{
    hits, is_analysis, is_flag_list, is_status_list, is_top_list, keys_seen, lemma_error_le_requests,
    lemma_hits_bound, level_hits, lists_value, status_hits, AnalysisStats, Counter, FlaggedIp,
    RankedItem, StatusCount,
};
use crate::parser::{LogEntry, LogLevel};
use crate::ranking::{lemma_ranks_before_order, lemma_rankings_agree, pair_before};
use vstd::prelude::*;

verus! {

proof fn lemma_level_hits_total(s: Seq<LogEntry>)
    ensures
        level_hits(s, LogLevel::Info) + level_hits(s, LogLevel::Warn) + level_hits(s, LogLevel::Error)
            == s.len(),
        level_hits(s, LogLevel::Info) <= s.len(),
        level_hits(s, LogLevel::Warn) <= s.len(),
        level_hits(s, LogLevel::Error) <= s.len(),
    decreases s.len(),
{
    if s.len() > 0 {
        lemma_level_hits_total(s.drop_last());
    }
}

/// The three level counts of a snapshot add up to its number of entries.
pub proof fn lemma_level_counts_sum(s: Seq<LogEntry>, top_n: int, error_threshold: int, st: AnalysisStats)
    requires
        is_analysis(s, top_n, error_threshold, st),
    ensures
        st.level_counts.info.count + st.level_counts.warn.count + st.level_counts.error.count
            == st.total_entries,
{
    lemma_level_hits_total(s);
}

/// Every percentage of a snapshot lies in `[0, 100]`; where there are no
/// entries, every one is 0 and the ranked and flagged lists are empty.
pub proof fn lemma_percentages_in_range(s: Seq<LogEntry>, top_n: int, error_threshold: int, st: AnalysisStats)
    requires
        top_n >= 0,
        error_threshold >= 0,
        is_analysis(s, top_n, error_threshold, st),
    ensures
        st.level_counts.info.percentage.in_range(),
        st.level_counts.warn.percentage.in_range(),
        st.level_counts.error.percentage.in_range(),
        forall|i: int| 0 <= i < st.top_ips.len() ==> (#[trigger] st.top_ips@[i]).percentage.in_range(),
        forall|i: int|
            0 <= i < st.top_endpoints.len() ==> (#[trigger] st.top_endpoints@[i]).percentage.in_range(),
        forall|i: int|
            0 <= i < st.flagged_ips.len() ==> (#[trigger] st.flagged_ips@[i]).error_rate.in_range(),
        s.len() == 0 ==> {
            &&& st.level_counts.info.percentage.is_zero()
            &&& st.level_counts.warn.percentage.is_zero()
            &&& st.level_counts.error.percentage.is_zero()
            &&& st.top_ips.len() == 0
            &&& st.top_endpoints.len() == 0
            &&& st.flagged_ips.len() == 0
        },
{
    lemma_level_hits_total(s);
    assert forall|i: int| 0 <= i < st.top_ips.len() implies (#[trigger] st.top_ips@[i]).percentage.in_range() by {
        lemma_hits_bound(s, Counter::IpRequests, st.top_ips@[i].value@);
    }
    assert forall|i: int| 0 <= i < st.top_endpoints.len() implies (#[trigger] st.top_endpoints@[i]).percentage.in_range() by {
        lemma_hits_bound(s, Counter::EndpointRequests, st.top_endpoints@[i].value@);
    }
    assert forall|i: int| 0 <= i < st.flagged_ips.len() implies (#[trigger] st.flagged_ips@[i]).error_rate.in_range() by {
        lemma_error_le_requests(s, st.flagged_ips@[i].ip@);
        lemma_hits_bound(s, Counter::IpRequests, st.flagged_ips@[i].ip@);
    }
    if s.len() == 0 {
        assert(keys_seen(s, Counter::IpRequests) == Set::<Seq<char>>::empty());
        assert(keys_seen(s, Counter::EndpointRequests) == Set::<Seq<char>>::empty());
        if st.flagged_ips.len() > 0 {
            assert(st.flagged_ips@[0].error_count > error_threshold);
        }
    }
}

/// Two ranked lists hold the same items: same text, count and share, place by
/// place.
pub open spec fn same_ranked(a: Seq<RankedItem>, b: Seq<RankedItem>) -> bool {
    &&& a.len() == b.len()
    &&& forall|i: int|
        0 <= i < a.len() ==> a[i].value@ == b[i].value@ && a[i].count == b[i].count
            && a[i].percentage == b[i].percentage
}

/// Two flagged lists hold the same records, place by place.
pub open spec fn same_flagged(a: Seq<FlaggedIp>, b: Seq<FlaggedIp>) -> bool {
    &&& a.len() == b.len()
    &&& forall|i: int|
        0 <= i < a.len() ==> a[i].ip@ == b[i].ip@ && a[i].error_count == b[i].error_count
            && a[i].total_requests == b[i].total_requests && a[i].error_rate == b[i].error_rate
}

/// Two snapshots hold the same values in the same order.
pub open spec fn same_snapshot(a: AnalysisStats, b: AnalysisStats) -> bool {
    &&& a.total_entries == b.total_entries
    &&& a.malformed_entries == b.malformed_entries
    &&& a.top_n == b.top_n
    &&& a.error_threshold == b.error_threshold
    &&& a.level_counts == b.level_counts
    &&& same_ranked(a.top_ips@, b.top_ips@)
    &&& same_ranked(a.top_endpoints@, b.top_endpoints@)
    &&& same_flagged(a.flagged_ips@, b.flagged_ips@)
    &&& a.status_code_distribution@ == b.status_code_distribution@
}

spec fn ranked_pairs(r: Seq<RankedItem>) -> Seq<(int, Seq<char>)> {
    r.map_values(|x: RankedItem| (x.count as int, x.value@))
}

spec fn flagged_pairs(f: Seq<FlaggedIp>) -> Seq<(int, Seq<char>)> {
    f.map_values(|x: FlaggedIp| (x.error_count as int, x.ip@))
}

proof fn lemma_top_lists_agree(a: Seq<RankedItem>, b: Seq<RankedItem>, s: Seq<LogEntry>, c: Counter, n: int)
    requires
        is_top_list(a, s, c, n),
        is_top_list(b, s, c, n),
    ensures
        same_ranked(a, b),
{
    let pa = ranked_pairs(a);
    let pb = ranked_pairs(b);
    assert forall|i: int|
        0 <= i < pa.len() implies pb.contains(pa[i]) || forall|j: int|
            0 <= j < pb.len() ==> pair_before(pb[j], #[trigger] pa[i]) by {
        let k = a[i].value@;
        assert(hits(s, c, k) > 0);
        if lists_value(b, k) {
            let j = choose|j: int| 0 <= j < b.len() && b[j].value@ == k;
            assert(pb[j] == pa[i]);
        }
    }
    assert forall|i: int|
        0 <= i < pb.len() implies pa.contains(pb[i]) || forall|j: int|
            0 <= j < pa.len() ==> pair_before(pa[j], #[trigger] pb[i]) by {
        let k = b[i].value@;
        assert(hits(s, c, k) > 0);
        if lists_value(a, k) {
            let j = choose|j: int| 0 <= j < a.len() && a[j].value@ == k;
            assert(pa[j] == pb[i]);
        }
    }
    lemma_rankings_agree(pa, pb, pa.len() as int);
    assert forall|i: int| 0 <= i < a.len() implies a[i].value@ == b[i].value@ && a[i].count
        == b[i].count && a[i].percentage == b[i].percentage by {
        assert(pa[i] == pb[i]);
    }
}

proof fn lemma_flag_lists_agree(a: Seq<FlaggedIp>, b: Seq<FlaggedIp>, s: Seq<LogEntry>, t: int)
    requires
        is_flag_list(a, s, t),
        is_flag_list(b, s, t),
    ensures
        same_flagged(a, b),
{
    let pa = flagged_pairs(a);
    let pb = flagged_pairs(b);
    assert forall|i: int| 0 <= i < pa.len() implies pb.contains(pa[i]) by {
        let k = a[i].ip@;
        assert(hits(s, Counter::IpErrors, k) > t);
        let j = choose|j: int| 0 <= j < b.len() && b[j].ip@ == k;
        assert(pb[j] == pa[i]);
    }
    assert forall|i: int| 0 <= i < pb.len() implies pa.contains(pb[i]) by {
        let k = b[i].ip@;
        assert(hits(s, Counter::IpErrors, k) > t);
        let j = choose|j: int| 0 <= j < a.len() && a[j].ip@ == k;
        assert(pa[j] == pb[i]);
    }
    let m = if pa.len() < pb.len() {
        pa.len()
    } else {
        pb.len()
    };
    lemma_rankings_agree(pa, pb, m as int);
    if pa.len() < pb.len() {
        let p = choose|p: int| 0 <= p < pa.len() && pa[p] == pb[m as int];
        assert(pa[p] == pb[p]);
        assert(pair_before(pb[p], pb[m as int]));
        lemma_ranks_before_order(pb[p].0, pb[p].1, pb[p].0, pb[p].1, pb[p].0, pb[p].1);
    }
    if pb.len() < pa.len() {
        let p = choose|p: int| 0 <= p < pb.len() && pb[p] == pa[m as int];
        assert(pa[p] == pb[p]);
        assert(pair_before(pa[p], pa[m as int]));
        lemma_ranks_before_order(pa[p].0, pa[p].1, pa[p].0, pa[p].1, pa[p].0, pa[p].1);
    }
    assert forall|i: int| 0 <= i < a.len() implies a[i].ip@ == b[i].ip@ && a[i].error_count
        == b[i].error_count && a[i].total_requests == b[i].total_requests && a[i].error_rate
        == b[i].error_rate by {
        assert(pa[i] == pb[i]);
    }
}

proof fn lemma_status_lists_agree(a: Seq<StatusCount>, b: Seq<StatusCount>, s: Seq<LogEntry>, k: int)
    requires
        is_status_list(a, s),
        is_status_list(b, s),
        0 <= k <= a.len(),
        k <= b.len(),
    ensures
        forall|i: int| 0 <= i < k ==> a[i] == b[i],
    decreases k,
{
    if k > 0 {
        lemma_status_lists_agree(a, b, s, k - 1);
        let i = k - 1;
        let x = a[i].code;
        let y = b[i].code;
        assert(status_hits(s, x) > 0);
        assert(status_hits(s, y) > 0);
        if x < y {
            let p = choose|p: int| 0 <= p < b.len() && b[p].code == x;
            if p < i {
                assert(a[p] == b[p]);
            }
        } else if y < x {
            let p = choose|p: int| 0 <= p < a.len() && a[p].code == y;
            if p < i {
                assert(a[p] == b[p]);
            }
        }
    }
}

/// Aggregation is deterministic: two snapshots of the same entries, for the
/// same ranking size and threshold, hold the same values in the same order.
pub proof fn lemma_analysis_deterministic(s: Seq<LogEntry>, top_n: int, error_threshold: int, a: AnalysisStats, b: AnalysisStats)
    requires
        is_analysis(s, top_n, error_threshold, a),
        is_analysis(s, top_n, error_threshold, b),
    ensures
        same_snapshot(a, b),
{
    lemma_top_lists_agree(a.top_ips@, b.top_ips@, s, Counter::IpRequests, top_n);
    lemma_top_lists_agree(a.top_endpoints@, b.top_endpoints@, s, Counter::EndpointRequests, top_n);
    lemma_flag_lists_agree(a.flagged_ips@, b.flagged_ips@, s, error_threshold);
    let da = a.status_code_distribution@;
    let db = b.status_code_distribution@;
    let m = if da.len() < db.len() {
        da.len()
    } else {
        db.len()
    };
    lemma_status_lists_agree(da, db, s, m as int);
    if da.len() < db.len() {
        assert(status_hits(s, db[m as int].code) > 0);
        let p = choose|p: int| 0 <= p < da.len() && da[p].code == db[m as int].code;
        assert(da[p] == db[p]);
    }
    if db.len() < da.len() {
        assert(status_hits(s, da[m as int].code) > 0);
        let p = choose|p: int| 0 <= p < db.len() && db[p].code == da[m as int].code;
        assert(da[p] == db[p]);
    }
    assert(da == db);
}

} // verus!
