use vstd::prelude::*;

use crate::scheduler::{
    fire_insert, fire_order, spec_cancel, spec_consume, spec_keep, spec_next_rel,
    spec_to_duration, spec_to_time_point, tasks_of, tokens_of, lemma_fire_insert_multiset,
    lemma_fire_order_multiset, lemma_tp_vs_edge, BucketSeq, Schedule,
};
use crate::task::Task;
use vstd::std_specs::cmp::PartialEqSpec;

verus! {

/// Quantization is a floor: the bucket's lower edge never exceeds the
/// elapsed time, and the next bucket's edge strictly exceeds it. So
/// `to_duration` recovers exactly the lower edge of `to_time_point`.
pub proof fn lemma_quantization_floor(d: int, w: int)
    requires
        0 <= d,
        0 < w,
    ensures
        spec_to_duration(spec_to_time_point(d, w), w) <= d,
        d < spec_to_duration(spec_to_time_point(d, w) + 1, w),
{
    vstd::arithmetic::div_mod::lemma_fundamental_div_mod(d, w);
    assert((d / w) * w <= d < (d / w + 1) * w) by (nonlinear_arith)
        requires
            0 < w,
            0 <= d,
            d == w * (d / w) + d % w,
            0 <= d % w < w,
    ;
}

/// A pending task is reported, not consumed: while the clock reads below
/// a due time `t` that sits on a bucket edge, a poll answers `NextIn(t -
/// now)` and changes nothing, so polling again gives the same answer
/// until the clock reaches `t`.
pub proof fn lemma_pending_poll_reports_gap<Token: Copy>(
    bs: BucketSeq<Token>,
    w: int,
    t: int,
    now: int,
    r: Option<Schedule<Token>>,
    bs2: BucketSeq<Token>,
)
    requires
        0 < w,
        bs.len() > 0,
        bs[0].0 == spec_to_time_point(t, w),
        t == spec_to_duration(bs[0].0, w),
        0 <= now < t,
        spec_next_rel(bs, w, now, r, bs2),
    ensures
        bs2 == bs,
        r matches Some(Schedule::NextIn(d)) && d@ == t - now,
{
    lemma_tp_vs_edge(now, spec_to_time_point(t, w), w);
    assert(spec_to_time_point(now, w) < spec_to_time_point(t, w));
}

/// A due time exactly in the current bucket is reported as due now:
/// never as still pending, never as missed.
pub proof fn lemma_boundary_is_current<Token: Copy>(
    bs: BucketSeq<Token>,
    w: int,
    now: int,
    r: Option<Schedule<Token>>,
    bs2: BucketSeq<Token>,
)
    requires
        0 < w,
        bs.len() > 0,
        bs[0].0 == spec_to_time_point(now, w),
        spec_next_rel(bs, w, now, r, bs2),
    ensures
        r matches Some(Schedule::Current(toks)) && (toks@, bs2) == spec_consume(bs, 1, w),
{
}

/// Stable insertion keeps a batch ordered by arm offset.
pub proof fn lemma_fire_insert_sorted<Token: Copy>(s: Seq<Task<Token>>, t: Task<Token>)
    requires
        forall|a: int, b: int|
            #![trigger s[a], s[b]]
            0 <= a <= b < s.len() ==> s[a].run_offset@ <= s[b].run_offset@,
    ensures
        forall|a: int, b: int|
            #![trigger fire_insert(s, t)[a], fire_insert(s, t)[b]]
            0 <= a <= b < fire_insert(s, t).len() ==> fire_insert(s, t)[a].run_offset@
                <= fire_insert(s, t)[b].run_offset@,
    decreases s.len(),
{
    broadcast use vstd::seq_lib::group_to_multiset_ensures;

    if s.len() == 0 {
    } else if s.last().run_offset@ <= t.run_offset@ {
        assert forall|a: int, b: int|
            #![trigger fire_insert(s, t)[a], fire_insert(s, t)[b]]
            0 <= a <= b < fire_insert(s, t).len() implies fire_insert(s, t)[a].run_offset@
            <= fire_insert(s, t)[b].run_offset@ by {
            if b < s.len() {
                assert(fire_insert(s, t)[a] == s[a]);
                assert(fire_insert(s, t)[b] == s[b]);
            } else if a < s.len() {
                assert(fire_insert(s, t)[a] == s[a]);
                assert(s[a].run_offset@ <= s[s.len() - 1].run_offset@);
            }
        }
    } else {
        assert forall|a: int, b: int|
            #![trigger s.drop_last()[a], s.drop_last()[b]]
            0 <= a <= b < s.drop_last().len() implies s.drop_last()[a].run_offset@
            <= s.drop_last()[b].run_offset@ by {
            assert(s.drop_last()[a] == s[a]);
            assert(s.drop_last()[b] == s[b]);
        }
        lemma_fire_insert_sorted(s.drop_last(), t);
        lemma_fire_insert_multiset(s.drop_last(), t);
        let inner = fire_insert(s.drop_last(), t);
        assert forall|a: int| 0 <= a < inner.len() implies (#[trigger] inner[a]).run_offset@
            <= s.last().run_offset@ by {
            assert(inner.contains(inner[a]));
            assert(inner.to_multiset().count(inner[a]) > 0);
            if inner[a] == t {
            } else {
                assert(s.drop_last().to_multiset().count(inner[a]) > 0);
                assert(s.drop_last().contains(inner[a]));
                let q = choose|q: int| 0 <= q < s.drop_last().len() && s.drop_last()[q] == inner[a];
                assert(s[q].run_offset@ <= s[s.len() - 1].run_offset@);
            }
        }
        assert forall|a: int, b: int|
            #![trigger fire_insert(s, t)[a], fire_insert(s, t)[b]]
            0 <= a <= b < fire_insert(s, t).len() implies fire_insert(s, t)[a].run_offset@
            <= fire_insert(s, t)[b].run_offset@ by {
            if b < inner.len() {
                assert(fire_insert(s, t)[a] == inner[a]);
                assert(fire_insert(s, t)[b] == inner[b]);
            } else if a < inner.len() {
                assert(fire_insert(s, t)[a] == inner[a]);
                assert(fire_insert(s, t)[b] == s.last());
            }
        }
    }
}

/// Tasks that fire together fire in arm-offset order, whatever order
/// they were registered in.
pub proof fn lemma_fire_order_sorted<Token: Copy>(s: Seq<Task<Token>>)
    ensures
        forall|a: int, b: int|
            #![trigger fire_order(s)[a], fire_order(s)[b]]
            0 <= a <= b < fire_order(s).len() ==> fire_order(s)[a].run_offset@ <= fire_order(
                s,
            )[b].run_offset@,
    decreases s.len(),
{
    if s.len() > 0 {
        lemma_fire_order_sorted(s.drop_last());
        lemma_fire_insert_sorted(fire_order(s.drop_last()), s.last());
    }
}

/// What one consumption reports: the tokens of the drained buckets'
/// tasks, each task exactly once, in ascending arm-offset order.
pub proof fn lemma_consume_fire_order<Token: Copy>(bs: BucketSeq<Token>, k: int, w: int)
    ensures
        spec_consume(bs, k, w).0 == tokens_of(fire_order(tasks_of(bs, k))),
        fire_order(tasks_of(bs, k)).to_multiset() == tasks_of(bs, k).to_multiset(),
        forall|a: int, b: int|
            #![trigger fire_order(tasks_of(bs, k))[a], fire_order(tasks_of(bs, k))[b]]
            0 <= a <= b < fire_order(tasks_of(bs, k)).len() ==> fire_order(
                tasks_of(bs, k),
            )[a].run_offset@ <= fire_order(tasks_of(bs, k))[b].run_offset@,
{
    lemma_fire_order_multiset(tasks_of(bs, k));
    lemma_fire_order_sorted(tasks_of(bs, k));
}

/// A batch whose every token matches is cancelled whole.
pub proof fn lemma_keep_none<Token: Copy + PartialEq>(ts: Seq<Task<Token>>, tok: Token)
    requires
        forall|q: int| 0 <= q < ts.len() ==> (#[trigger] ts[q]).token.eq_spec(&tok),
    ensures
        spec_keep(ts, tok).len() == 0,
    decreases ts.len(),
{
    if ts.len() > 0 {
        assert forall|q: int| 0 <= q < ts.drop_last().len() implies (#[trigger] ts.drop_last()[q]).token.eq_spec(
            &tok,
        ) by {
            assert(ts.drop_last()[q] == ts[q]);
        }
        lemma_keep_none(ts.drop_last(), tok);
    }
}

/// Cancelling everything a bucket holds removes the bucket itself: the
/// remaining buckets are exactly the cancellation of the rest.
pub proof fn lemma_cancel_removes_emptied_bucket<Token: Copy + PartialEq>(
    bs: BucketSeq<Token>,
    tok: Token,
)
    requires
        bs.len() > 0,
        forall|q: int| 0 <= q < bs[0].1.len() ==> (#[trigger] bs[0].1[q]).token.eq_spec(&tok),
    ensures
        spec_cancel(bs, tok) == spec_cancel(bs.drop_first(), tok),
{
    lemma_keep_none(bs[0].1, tok);
}

/// Cancellation never leaves an empty bucket behind: a later poll skips
/// straight to the next populated bucket, or finds none.
pub proof fn lemma_cancel_no_empty_bucket<Token: Copy + PartialEq>(bs: BucketSeq<Token>, tok: Token)
    ensures
        forall|m: int|
            0 <= m < spec_cancel(bs, tok).len() ==> (#[trigger] spec_cancel(bs, tok)[m]).1.len()
                > 0,
    decreases bs.len(),
{
    if bs.len() > 0 {
        lemma_cancel_no_empty_bucket(bs.drop_first(), tok);
        let kept = spec_keep(bs[0].1, tok);
        let rest = spec_cancel(bs.drop_first(), tok);
        if kept.len() > 0 {
            assert forall|m: int| 0 <= m < spec_cancel(bs, tok).len() implies (
            #[trigger] spec_cancel(bs, tok)[m]).1.len() > 0 by {
                if m > 0 {
                    assert(spec_cancel(bs, tok)[m] == rest[m - 1]);
                }
            }
        }
    }
}

} // verus!
