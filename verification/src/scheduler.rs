use vstd::prelude::*;
use vstd::multiset::Multiset;
use vstd::std_specs::cmp::PartialEqSpec;

use crate::duration::{dur, Duration};
use crate::task::{Task, TaskBond};
use crate::time_source::{FastForward, SteadyTimeSource, TimeSource, Wait};

verus! {

/// A discrete bucket index: elapsed time divided by the bucket width.
pub type TimePoint = u64;

/// What a poll reports: time until the next firing, tokens of buckets
/// whose due time had already passed, or tokens due exactly now.
#[derive(Debug, PartialEq)]
pub enum Schedule<Token> {
    NextIn(Duration),
    Overrun(Vec<Token>),
    Current(Vec<Token>),
}

/// Why a blocking wait could not return tokens: nothing is registered, or
/// the earliest pending buckets were already missed.
#[derive(Debug, PartialEq)]
pub enum WaitError<Token> {
    Empty,
    Overrun(Vec<Token>),
}

/// The mathematical model of the scheduler's pending tasks: buckets in
/// strictly ascending key order, each holding the tasks due in it.
pub type BucketSeq<Token> = Seq<(int, Seq<Task<Token>>)>;

/// The bucket index of an elapsed time `d` under bucket width `w`.
pub open spec fn spec_to_time_point(d: int, w: int) -> int {
    d / w
}

/// The lower edge of bucket `tp` under bucket width `w`.
pub open spec fn spec_to_duration(tp: int, w: int) -> int {
    tp * w
}

/// A well-formed bucket: non-empty, and every task in it is due in it.
pub open spec fn bucket_ok<Token: Copy>(key: int, ts: Seq<Task<Token>>, w: int) -> bool {
    &&& ts.len() > 0
    &&& forall|k: int|
        0 <= k < ts.len() ==> (#[trigger] ts[k]).wf() && key == spec_to_time_point(
            ts[k].spec_schedule(),
            w,
        )
}

/// Bucket keys strictly ascending, every bucket well formed.
pub open spec fn buckets_wf<Token: Copy>(bs: BucketSeq<Token>, w: int) -> bool {
    &&& forall|i: int, j: int|
        #![trigger bs[i], bs[j]]
        0 <= i < j < bs.len() ==> bs[i].0 < bs[j].0
    &&& forall|i: int| 0 <= i < bs.len() ==> bucket_ok((#[trigger] bs[i]).0, bs[i].1, w)
}

/// How many leading buckets have a key below `key`; in a sorted sequence
/// this is also the position at which `key` belongs.
pub open spec fn insert_pos<Token: Copy>(bs: BucketSeq<Token>, key: int) -> int
    decreases bs.len(),
{
    if bs.len() == 0 || bs[0].0 >= key {
        0
    } else {
        1 + insert_pos(bs.drop_first(), key)
    }
}

/// The bucket sequence with `t` added to the bucket `key`, which is
/// created at its sorted position if it does not exist yet.
pub open spec fn bucket_insert<Token: Copy>(bs: BucketSeq<Token>, key: int, t: Task<Token>) -> BucketSeq<Token> {
    let pos = insert_pos(bs, key);
    if pos < bs.len() && bs[pos].0 == key {
        bs.update(pos, (key, bs[pos].1.push(t)))
    } else {
        bs.insert(pos, (key, seq![t]))
    }
}

/// In a sorted bucket sequence, `insert_pos` is the unique boundary: all
/// keys before it are below `key`, all keys at or after it are not.
pub proof fn lemma_insert_pos_bounds<Token: Copy>(bs: BucketSeq<Token>, key: int, w: int)
    requires
        buckets_wf(bs, w),
    ensures
        0 <= insert_pos(bs, key) <= bs.len(),
        forall|j: int| 0 <= j < insert_pos(bs, key) ==> (#[trigger] bs[j]).0 < key,
        forall|j: int| insert_pos(bs, key) <= j < bs.len() ==> (#[trigger] bs[j]).0 >= key,
    decreases bs.len(),
{
    if bs.len() == 0 || bs[0].0 >= key {
    } else {
        assert(buckets_wf(bs.drop_first(), w)) by {
            assert forall|i: int, j: int|
                #![trigger bs.drop_first()[i], bs.drop_first()[j]]
                0 <= i < j < bs.drop_first().len() implies bs.drop_first()[i].0 < bs.drop_first()[j].0 by {
                assert(bs.drop_first()[i] == bs[i + 1]);
                assert(bs.drop_first()[j] == bs[j + 1]);
            }
            assert forall|i: int| 0 <= i < bs.drop_first().len() implies bucket_ok(
                (#[trigger] bs.drop_first()[i]).0,
                bs.drop_first()[i].1,
                w,
            ) by {
                assert(bs.drop_first()[i] == bs[i + 1]);
            }
        }
        lemma_insert_pos_bounds(bs.drop_first(), key, w);
        assert forall|j: int| 0 <= j < insert_pos(bs, key) implies (#[trigger] bs[j]).0 < key by {
            if j > 0 {
                assert(bs.drop_first()[j - 1] == bs[j]);
            }
        }
        assert forall|j: int| insert_pos(bs, key) <= j < bs.len() implies (#[trigger] bs[j]).0
            >= key by {
            assert(bs.drop_first()[j - 1] == bs[j]);
        }
    }
}

/// The scheduler: pending tasks grouped into buckets by quantized due
/// time, in ascending bucket order, together with the bucket width and
/// the owned time source.
pub struct Scheduler<Token, TS> {
    pub time_point_interval: Duration,
    pub buckets: Vec<(TimePoint, Vec<Task<Token>>)>,
    pub time_source: TS,
}

/// The abstract view of a vector of buckets.
pub open spec fn view_buckets<Token: Copy>(v: Seq<(TimePoint, Vec<Task<Token>>)>) -> BucketSeq<Token> {
    v.map(|i: int, b: (TimePoint, Vec<Task<Token>>)| (b.0 as int, b.1@))
}

impl<Token: Copy, TS: TimeSource> Scheduler<Token, TS> {
    /// The abstract bucket sequence this scheduler holds.
    pub open spec fn model(self) -> BucketSeq<Token> {
        view_buckets(self.buckets@)
    }

    /// The invariant every operation preserves: positive bucket width and
    /// a well-formed bucket sequence.
    pub open spec fn wf(self) -> bool {
        &&& 0 < self.time_point_interval@
        &&& buckets_wf(self.model(), self.time_point_interval@)
    }

    /// The bucket width must be strictly positive: a zero or negative
    /// width cannot quantize time.
    pub fn with_time_source(time_point_interval: Duration, time_source: TS) -> (s: Scheduler<
        Token,
        TS,
    >)
        requires
            0 < time_point_interval@,
        ensures
            s.wf(),
            s.time_point_interval == time_point_interval,
            s.time_source == time_source,
            s.model() == Seq::<(int, Seq<Task<Token>>)>::empty(),
            no_zero_repeat(s.model()),
    {
        let s = Scheduler { time_point_interval, buckets: Vec::new(), time_source };
        proof {
            assert(s.model() =~= Seq::<(int, Seq<Task<Token>>)>::empty());
            assert forall|x: Task<Token>| #[trigger] has_task(s.model(), x) implies (x.bond
                == TaskBond::Perpetual ==> 0 < x.interval@) by {
                let (i, k): (int, int) = choose|i: int, k: int|
                    #![trigger s.model()[i].1[k]]
                    0 <= i < s.model().len() && 0 <= k < s.model()[i].1.len() && s.model()[i].1[k]
                        == x;
            }
        }
        s
    }

    /// Quantization: the bucket index of elapsed time `duration`, a floor
    /// division by the bucket width. Negative elapsed time has no bucket.
    pub fn to_time_point(&self, duration: Duration) -> (tp: TimePoint)
        requires
            0 < self.time_point_interval@,
            0 <= duration@,
        ensures
            tp == spec_to_time_point(duration@, self.time_point_interval@),
    {
        (duration.num_nanoseconds() as u64) / (self.time_point_interval.num_nanoseconds() as u64)
    }

    /// The lower edge of bucket `time_point`: the exact inverse of
    /// quantization on bucket boundaries.
    pub fn to_duration(&self, time_point: TimePoint) -> (d: Duration)
        requires
            0 < self.time_point_interval@,
            time_point * self.time_point_interval@ <= i64::MAX,
        ensures
            d@ == spec_to_duration(time_point as int, self.time_point_interval@),
    {
        proof {
            assert(time_point * 1 <= time_point * self.time_point_interval@ && 0 <= time_point
                * self.time_point_interval@) by (nonlinear_arith)
                requires
                    1 <= self.time_point_interval@,
                    0 <= time_point as int,
            ;
        }
        Duration::nanoseconds((time_point as i64) * self.time_point_interval.num_nanoseconds())
    }

    /// Files `task` under the bucket of its due time, keeping the bucket
    /// order and creating the bucket if needed.
    fn schedule(&mut self, task: Task<Token>)
        requires
            old(self).wf(),
            task.wf(),
        ensures
            final(self).wf(),
            final(self).time_point_interval == old(self).time_point_interval,
            final(self).time_source == old(self).time_source,
            final(self).model() == bucket_insert(
                old(self).model(),
                spec_to_time_point(task.spec_schedule(), old(self).time_point_interval@),
                task,
            ),
    {
        let ghost bs0 = self.model();
        let ghost w = self.time_point_interval@;
        let key = self.to_time_point(task.schedule());
        proof {
            lemma_insert_pos_bounds(bs0, key as int, w);
        }
        let mut i: usize = 0;
        while i < self.buckets.len() && self.buckets[i].0 < key
            invariant
                *self == *old(self),
                i <= self.buckets.len(),
                forall|j: int| 0 <= j < i ==> (#[trigger] bs0[j]).0 < key as int,
                bs0 == self.model(),
            decreases self.buckets.len() - i,
        {
            i = i + 1;
        }
        proof {
            assert(i as int == insert_pos(bs0, key as int)) by {
                if (i as int) < bs0.len() {
                    assert(bs0[i as int].0 == self.buckets@[i as int].0 as int);
                }
                if insert_pos(bs0, key as int) < i {
                    assert(bs0[insert_pos(bs0, key as int)].0 < key as int);
                }
                if i < insert_pos(bs0, key as int) {
                    assert(bs0[i as int].0 >= key as int);
                }
            }
        }
        if i < self.buckets.len() && self.buckets[i].0 == key {
            let (k, mut ts) = self.buckets.remove(i);
            ts.push(task);
            self.buckets.insert(i, (k, ts));
            proof {
                assert(self.model() =~~= bucket_insert(bs0, key as int, task));
            }
        } else {
            let mut ts: Vec<Task<Token>> = Vec::new();
            ts.push(task);
            self.buckets.insert(i, (key, ts));
            proof {
                assert(ts@ =~= seq![task]);
                assert(self.model() =~~= bucket_insert(bs0, key as int, task));
            }
        }
        proof {
            lemma_bucket_insert_wf(bs0, key as int, task, w);
        }
    }

    /// Fires the first `count` buckets: removes them, flattens their tasks
    /// into stable arm-offset order, reports the tokens in that order, and
    /// re-files repeating tasks under their next due bucket.
    fn consume(&mut self, count: usize) -> (tokens: Vec<Token>)
        requires
            old(self).wf(),
            count <= old(self).buckets@.len(),
        ensures
            final(self).wf(),
            final(self).time_point_interval == old(self).time_point_interval,
            final(self).time_source == old(self).time_source,
            (tokens@, final(self).model()) == spec_consume(
                old(self).model(),
                count as int,
                old(self).time_point_interval@,
            ),
    {
        let ghost bs0 = self.model();
        let ghost w = self.time_point_interval@;
        let mut flat: Vec<Task<Token>> = Vec::new();
        let mut i: usize = 0;
        while i < count
            invariant
                i <= count <= bs0.len(),
                self.time_point_interval == old(self).time_point_interval,
                self.time_source == old(self).time_source,
                w == self.time_point_interval@,
                bs0 == old(self).model(),
                self.model() == bs0.skip(i as int),
                flat@ == tasks_of(bs0, i as int),
            decreases count - i,
        {
            proof {
                assert(self.model().len() == self.buckets@.len());
                assert(self.model()[0] == bs0[i as int]);
            }
            let ghost prevm = self.model();
            let ghost prevb = self.buckets@;
            let (k, mut ts) = self.buckets.remove(0);
            flat.append(&mut ts);
            proof {
                assert forall|m: int| 0 <= m < self.model().len() implies self.model()[m] == bs0[(
                i as int) + 1 + m] by {
                    assert(self.buckets@[m] == prevb[m + 1]);
                    assert(self.model()[m] == prevm[m + 1]);
                }
            }
            i = i + 1;
            proof {
                assert(self.model() =~~= bs0.skip(i as int));
                assert(flat@ =~= tasks_of(bs0, i as int));
            }
        }
        proof {
            lemma_buckets_wf_skip(bs0, w, count as int);
            lemma_tasks_of_wf(bs0, count as int, w);
            lemma_fire_order_wf(flat@);
        }
        let ghost flat0 = flat@;
        let mut fired: Vec<Task<Token>> = Vec::new();
        let mut n: usize = 0;
        while n < flat.len()
            invariant
                n <= flat.len(),
                flat@ == flat0,
                fired@ == fire_order(flat0.take(n as int)),
            decreases flat.len() - n,
        {
            let t = flat[n];
            let mut j: usize = fired.len();
            while j > 0 && fired[j - 1].run_offset.num_nanoseconds()
                > t.run_offset.num_nanoseconds()
                invariant
                    j <= fired@.len(),
                    forall|m: int|
                        j <= m < fired@.len() ==> (#[trigger] fired@[m]).run_offset@
                            > t.run_offset@,
                decreases j,
            {
                j = j - 1;
            }
            proof {
                lemma_fire_insert_pos(fired@, t, j as int);
                assert(flat0.take((n + 1) as int).drop_last() =~= flat0.take(n as int));
                assert(flat0.take((n + 1) as int).last() == flat0[n as int]);
            }
            fired.insert(j, t);
            n = n + 1;
        }
        proof {
            assert(flat0.take(flat0.len() as int) =~= flat0);
            assert(fired@ == fire_order(tasks_of(bs0, count as int)));
            lemma_fire_order_wf(tasks_of(bs0, count as int));
        }
        let mut tokens: Vec<Token> = Vec::new();
        let mut q: usize = 0;
        while q < fired.len()
            invariant
                q <= fired.len(),
                fired@ == fire_order(tasks_of(bs0, count as int)),
                tokens@ == tokens_of(fired@.take(q as int)),
            decreases fired.len() - q,
        {
            tokens.push(fired[q].token);
            q = q + 1;
            proof {
                assert(tokens@ =~= tokens_of(fired@.take(q as int)));
            }
        }
        proof {
            assert(fired@.take(fired@.len() as int) =~= fired@);
            assert(tokens@ == tokens_of(fired@));
        }
        let ghost base = self.model();
        let ghost fseq = fired@;
        proof {
            assert(fseq.take(0) =~= Seq::empty());
        }
        let mut p: usize = 0;
        while p < fired.len()
            invariant
                p <= fired.len(),
                self.wf(),
                w == self.time_point_interval@,
                self.time_point_interval == old(self).time_point_interval,
                self.time_source == old(self).time_source,
                fired@ == fseq,
                forall|m: int| 0 <= m < fseq.len() ==> (#[trigger] fseq[m]).wf(),
                self.model() == reinsert(base, fseq.take(p as int), w),
            decreases fired.len() - p,
        {
            let t = fired[p];
            proof {
                assert(fseq[p as int].wf());
                assert(fseq.take((p + 1) as int).drop_last() =~= fseq.take(p as int));
                assert(fseq.take((p + 1) as int).last() == fseq[p as int]);
            }
            match t.bond {
                TaskBond::Perpetual => {
                    let sched = t.schedule();
                    if t.interval.num_nanoseconds() <= i64::MAX - sched.num_nanoseconds() {
                        self.schedule(t.next());
                    }
                },
                TaskBond::OneOff => {},
            }
            p = p + 1;
        }
        proof {
            assert(fseq.take(fseq.len() as int) =~= fseq);
            assert((tokens@, self.model()) == spec_consume(bs0, count as int, w));
        }
        tokens
    }

    /// How many leading buckets lie strictly below the bucket `current`.
    fn overdue_len(&self, current: TimePoint) -> (k: usize)
        requires
            self.wf(),
        ensures
            k as int == insert_pos(self.model(), current as int),
            k <= self.buckets@.len(),
    {
        proof {
            lemma_insert_pos_bounds(self.model(), current as int, self.time_point_interval@);
        }
        let mut k: usize = 0;
        while k < self.buckets.len() && self.buckets[k].0 < current
            invariant
                k <= self.buckets@.len(),
                forall|j: int| 0 <= j < k ==> (#[trigger] self.model()[j]).0 < current as int,
            decreases self.buckets@.len() - k,
        {
            proof {
                assert(self.model()[k as int].0 == self.buckets@[k as int].0 as int);
            }
            k = k + 1;
        }
        proof {
            let pos = insert_pos(self.model(), current as int);
            if (k as int) < self.model().len() {
                assert(self.model()[k as int].0 == self.buckets@[k as int].0 as int);
            }
            if pos < k {
                assert(self.model()[pos].0 < current as int);
            }
            if k < pos {
                assert(self.model()[k as int].0 < current as int);
            }
        }
        k
    }

    /// One poll: reads the clock once and reports, without blocking,
    /// nothing pending, the time left until the earliest bucket, the
    /// accumulated overrun of every missed bucket, or the tokens due
    /// right now — consuming whatever fires.
    pub fn next(&mut self) -> (r: Option<Schedule<Token>>)
        requires
            old(self).wf(),
            no_zero_repeat(old(self).model()),
        ensures
            final(self).wf(),
            no_zero_repeat(final(self).model()),
            final(self).time_point_interval == old(self).time_point_interval,
            final(self).time_source == old(self).time_source,
            exists|now: int|
                {
                    &&& 0 <= now <= i64::MAX
                    &&& (TS::obeys_time_spec() ==> now == old(self).time_source.spec_now())
                    &&& #[trigger] spec_next_rel(
                        old(self).model(),
                        old(self).time_point_interval@,
                        now,
                        r,
                        final(self).model(),
                    )
                },
    {
        let ghost bs0 = self.model();
        let ghost w = self.time_point_interval@;
        let now = self.time_source.now();
        let cur = self.to_time_point(now);
        let ghost curg = cur as int;
        proof {
            vstd::arithmetic::div_mod::lemma_fundamental_div_mod(now@, w);
            assert(curg * w <= now@ && (curg + 1) * w > now@) by (nonlinear_arith)
                requires
                    0 < w,
                    0 <= now@,
                    curg == now@ / w,
                    now@ == w * (now@ / w) + now@ % w,
                    0 <= now@ % w < w,
            ;
        }
        if self.buckets.len() == 0 {
            proof {
                assert(bs0.len() == 0);
                let r: Option<Schedule<Token>> = None;
                assert(spec_next_rel(bs0, w, now@, r, self.model()));
            }
            return None;
        }
        proof {
            assert(self.model()[0] == bs0[0]);
            lemma_key_edge_fits(bs0, w, 0);
        }
        let first = self.buckets[0].0;
        if first > cur {
            proof {
                assert(bs0[0].1[0].spec_schedule() <= i64::MAX);
                assert((curg + 1) * w <= first as int * w) by (nonlinear_arith)
                    requires
                        0 < w,
                        curg + 1 <= first as int,
                ;
            }
            let edge = self.to_duration(first);
            let d = Duration::nanoseconds(edge.num_nanoseconds() - now.num_nanoseconds());
            proof {
                let r = Some(Schedule::NextIn(d));
                assert(spec_next_rel(bs0, w, now@, r, self.model()));
            }
            return Some(Schedule::NextIn(d));
        }
        if first == cur {
            let tokens = self.consume(1);
            proof {
                lemma_consume_nzr(bs0, 1, w);
                let r = Some(Schedule::Current(tokens));
                assert(spec_next_rel(bs0, w, now@, r, self.model()));
            }
            return Some(Schedule::Current(tokens));
        }
        let mut overrun: Vec<Token> = Vec::new();
        let ghost mut rounds: nat = 0;
        proof {
            lemma_insert_pos_bounds(bs0, curg, w);
            if insert_pos(bs0, curg) == 0 {
                assert(bs0[0].0 >= curg);
            }
            lemma_measure_pos(bs0, curg, w);
            assert forall|f: nat| #[trigger] drain_complete(self.model(), curg, w, f) implies {
                &&& drain_complete(bs0, curg, w, f + rounds)
                &&& spec_drain_toks(bs0, curg, w, f + rounds) == overrun@ + spec_drain_toks(
                    self.model(),
                    curg,
                    w,
                    f,
                )
                &&& spec_drain_rest(bs0, curg, w, f + rounds) == spec_drain_rest(
                    self.model(),
                    curg,
                    w,
                    f,
                )
            } by {
                assert(f + rounds == f);
                assert(overrun@ + spec_drain_toks(self.model(), curg, w, f) =~= spec_drain_toks(
                    self.model(),
                    curg,
                    w,
                    f,
                ));
            }
        }
        loop
            invariant
                self.wf(),
                no_zero_repeat(self.model()),
                self.time_point_interval == old(self).time_point_interval,
                self.time_source == old(self).time_source,
                w == self.time_point_interval@,
                0 < w,
                curg == cur as int,
                curg * w <= i64::MAX,
                forall|f: nat|
                    #[trigger] drain_complete(self.model(), curg, w, f) ==> {
                        &&& drain_complete(bs0, curg, w, f + rounds)
                        &&& spec_drain_toks(bs0, curg, w, f + rounds) == overrun@
                            + spec_drain_toks(self.model(), curg, w, f)
                        &&& spec_drain_rest(bs0, curg, w, f + rounds) == spec_drain_rest(
                            self.model(),
                            curg,
                            w,
                            f,
                        )
                    },
            ensures
                insert_pos(self.model(), curg) == 0,
            decreases drain_work(self.model(), curg, w),
        {
            let k = self.overdue_len(cur);
            if k == 0 {
                break ;
            }
            let ghost prev = self.model();
            let ghost overrun0 = overrun@;
            let ghost rounds0 = rounds;
            let mut toks = self.consume(k);
            proof {
                assert(toks@ == spec_consume(prev, k as int, w).0);
            }
            overrun.append(&mut toks);
            proof {
                rounds = rounds0 + 1;
                lemma_round_measure::<Token>(prev, curg, w);
                let round = spec_consume(prev, insert_pos(prev, curg), w);
                assert forall|f: nat| #[trigger] drain_complete(self.model(), curg, w, f) implies {
                    &&& drain_complete(bs0, curg, w, f + rounds)
                    &&& spec_drain_toks(bs0, curg, w, f + rounds) == overrun@ + spec_drain_toks(
                        self.model(),
                        curg,
                        w,
                        f,
                    )
                    &&& spec_drain_rest(bs0, curg, w, f + rounds) == spec_drain_rest(
                        self.model(),
                        curg,
                        w,
                        f,
                    )
                } by {
                    assert(drain_complete(prev, curg, w, (f + 1) as nat));
                    assert(spec_drain_toks(prev, curg, w, (f + 1) as nat) == round.0
                        + spec_drain_toks(self.model(), curg, w, f));
                    assert(spec_drain_rest(prev, curg, w, (f + 1) as nat) == spec_drain_rest(
                        self.model(),
                        curg,
                        w,
                        f,
                    ));
                    assert((f + 1) as nat + rounds0 == f + rounds);
                    assert(overrun0 + (round.0 + spec_drain_toks(self.model(), curg, w, f)) =~= (
                    overrun0 + round.0) + spec_drain_toks(self.model(), curg, w, f));
                }
                lemma_insert_pos_bounds(self.model(), curg, w);
                assert(drain_work(self.model(), curg, w) < drain_work(prev, curg, w));
                assert(0 <= drain_work(self.model(), curg, w));
            }
        }
        proof {
            assert(insert_pos(self.model(), curg) == 0);
            assert(drain_complete(self.model(), curg, w, 0));
            assert(spec_drain_toks(bs0, curg, w, rounds) == overrun@ + spec_drain_toks(
                self.model(),
                curg,
                w,
                0,
            ));
            assert(overrun@ + Seq::<Token>::empty() =~= overrun@);
            assert(drain_complete(bs0, curg, w, rounds));
            assert(spec_drained(bs0, curg, w, overrun@, self.model()));
            let r = Some(Schedule::Overrun(overrun));
            assert(bs0[0].0 < curg);
            assert(spec_next_rel(bs0, w, now@, r, self.model()));
        }
        Some(Schedule::Overrun(overrun))
    }

    /// Removes every task whose token equals `token`, pruning any bucket
    /// left empty; everything else keeps its place and order. For a token
    /// type whose equality obeys its specification this is exactly
    /// `spec_cancel`; under any equality the scheduler stays well formed
    /// and holds only tasks it already held.
    pub fn cancel(&mut self, token: &Token) where Token: PartialEq
        requires
            old(self).wf(),
        ensures
            final(self).wf(),
            final(self).time_point_interval == old(self).time_point_interval,
            final(self).time_source == old(self).time_source,
            Token::obeys_eq_spec() ==> final(self).model() == spec_cancel(
                old(self).model(),
                *token,
            ),
            forall|x: Task<Token>|
                #[trigger] has_task(final(self).model(), x) ==> has_task(old(self).model(), x),
            no_zero_repeat(old(self).model()) ==> no_zero_repeat(final(self).model()),
    {
        let ghost bs0 = self.model();
        let ghost w = self.time_point_interval@;
        let mut out: Vec<(TimePoint, Vec<Task<Token>>)> = Vec::new();
        let ghost mut idx: Seq<int> = Seq::empty();
        proof {
            assert(bs0.skip(0) =~= bs0);
            assert(view_buckets(out@) =~= Seq::<(int, Seq<Task<Token>>)>::empty());
        }
        let mut i: usize = 0;
        while i < self.buckets.len()
            invariant
                self == old(self),
                i <= self.buckets@.len(),
                bs0 == self.model(),
                w == self.time_point_interval@,
                old(self).wf(),
                idx.len() == view_buckets(out@).len(),
                forall|m: int| 0 <= m < idx.len() ==> 0 <= #[trigger] idx[m] < i,
                forall|a: int, b: int|
                    #![trigger idx[a], idx[b]]
                    0 <= a < b < idx.len() ==> idx[a] < idx[b],
                forall|m: int|
                    0 <= m < idx.len() ==> (#[trigger] view_buckets(out@)[m]).0 == bs0[idx[m]].0
                        && view_buckets(out@)[m].1.len() > 0,
                forall|m: int, q: int|
                    #![trigger view_buckets(out@)[m].1[q]]
                    0 <= m < idx.len() && 0 <= q < view_buckets(out@)[m].1.len()
                        ==> bs0[idx[m]].1.contains(view_buckets(out@)[m].1[q]),
                Token::obeys_eq_spec() ==> spec_cancel(bs0, *token) == view_buckets(out@)
                    + spec_cancel(bs0.skip(i as int), *token),
            decreases self.buckets@.len() - i,
        {
            let ghost ts0 = bs0[i as int].1;
            proof {
                assert(self.model()[i as int].1 == self.buckets@[i as int].1@);
            }
            let mut kept: Vec<Task<Token>> = Vec::new();
            let mut j: usize = 0;
            while j < self.buckets[i].1.len()
                invariant
                    self == old(self),
                    i < self.buckets@.len(),
                    bs0 == self.model(),
                    ts0 == bs0[i as int].1,
                    ts0 == self.buckets@[i as int].1@,
                    j <= ts0.len(),
                    forall|q: int| 0 <= q < kept@.len() ==> ts0.contains(#[trigger] kept@[q]),
                    Token::obeys_eq_spec() ==> kept@ == spec_keep(ts0.take(j as int), *token),
                decreases ts0.len() - j,
            {
                let t = self.buckets[i].1[j];
                proof {
                    assert(ts0.take(j as int + 1).drop_last() =~= ts0.take(j as int));
                    assert(ts0.take(j as int + 1).last() == ts0[j as int]);
                    assert(ts0.contains(ts0[j as int]));
                }
                if !(t.token == *token) {
                    kept.push(t);
                }
                j = j + 1;
            }
            proof {
                assert(ts0.take(ts0.len() as int) =~= ts0);
                assert(bs0.skip(i as int)[0] == bs0[i as int]);
                assert(bs0.skip(i as int).drop_first() =~= bs0.skip(i as int + 1));
            }
            if kept.len() > 0 {
                let key = self.buckets[i].0;
                let ghost out_before = view_buckets(out@);
                out.push((key, kept));
                proof {
                    assert(view_buckets(out@) =~~= out_before + seq![(key as int, kept@)]);
                    assert(key as int == bs0[i as int].0);
                    idx = idx.push(i as int);
                    if Token::obeys_eq_spec() {
                        assert(spec_cancel(bs0.skip(i as int), *token) == seq![(bs0[i as int].0, kept@)]
                            + spec_cancel(bs0.skip(i as int + 1), *token));
                        assert(out_before + (seq![(key as int, kept@)] + spec_cancel(
                            bs0.skip(i as int + 1),
                            *token,
                        )) =~= (out_before + seq![(key as int, kept@)]) + spec_cancel(
                            bs0.skip(i as int + 1),
                            *token,
                        ));
                    }
                }
            }
            i = i + 1;
        }
        proof {
            assert(bs0.skip(bs0.len() as int) =~= Seq::<(int, Seq<Task<Token>>)>::empty());
            if Token::obeys_eq_spec() {
                assert(view_buckets(out@) + Seq::<(int, Seq<Task<Token>>)>::empty() =~= view_buckets(
                    out@,
                ));
            }
        }
        self.buckets = out;
        proof {
            let bs1 = self.model();
            assert forall|a: int, b: int|
                #![trigger bs1[a], bs1[b]]
                0 <= a < b < bs1.len() implies bs1[a].0 < bs1[b].0 by {
                assert(bs1[a].0 == bs0[idx[a]].0);
                assert(bs1[b].0 == bs0[idx[b]].0);
                assert(idx[a] < idx[b]);
            }
            assert forall|m: int| 0 <= m < bs1.len() implies bucket_ok(
                (#[trigger] bs1[m]).0,
                bs1[m].1,
                w,
            ) by {
                assert(bucket_ok(bs0[idx[m]].0, bs0[idx[m]].1, w));
                assert forall|q: int| 0 <= q < bs1[m].1.len() implies (#[trigger] bs1[m].1[q]).wf()
                    && bs1[m].0 == spec_to_time_point(bs1[m].1[q].spec_schedule(), w) by {
                    assert(bs0[idx[m]].1.contains(bs1[m].1[q]));
                    let q0 = choose|q0: int|
                        0 <= q0 < bs0[idx[m]].1.len() && bs0[idx[m]].1[q0] == bs1[m].1[q];
                    assert(bs0[idx[m]].1[q0].wf());
                }
            }
            assert forall|x: Task<Token>| #[trigger] has_task(bs1, x) implies has_task(bs0, x) by {
                let (m, q): (int, int) = choose|m: int, q: int|
                    #![trigger bs1[m].1[q]]
                    0 <= m < bs1.len() && 0 <= q < bs1[m].1.len() && bs1[m].1[q] == x;
                assert(bs0[idx[m]].1.contains(x));
                let q0 = choose|q0: int| 0 <= q0 < bs0[idx[m]].1.len() && bs0[idx[m]].1[q0] == x;
                assert(bs0[idx[m]].1[q0] == x);
            }
        }
    }

    /// Registers a one-off task due `duration` from now. If the due time
    /// would pass the representable horizon, nothing is registered.
    pub fn after(&mut self, duration: Duration, token: Token)
        requires
            old(self).wf(),
            0 <= duration@,
            TS::obeys_time_spec() ==> old(self).time_source.spec_now() + duration@ <= i64::MAX,
        ensures
            final(self).wf(),
            final(self).time_point_interval == old(self).time_point_interval,
            final(self).time_source == old(self).time_source,
            spec_registered(
                old(self).model(),
                final(self).model(),
                old(self).time_point_interval@,
                duration@,
                token,
                TaskBond::OneOff,
                if TS::obeys_time_spec() {
                    Some(old(self).time_source.spec_now())
                } else {
                    None
                },
            ),
            no_zero_repeat(old(self).model()) ==> no_zero_repeat(final(self).model()),
    {
        let ghost bs0 = self.model();
        let ghost w = self.time_point_interval@;
        let now = self.time_source.now();
        if now.num_nanoseconds() <= i64::MAX - duration.num_nanoseconds() {
            let task = Task::new(duration, now, TaskBond::OneOff, token);
            self.schedule(task);
        }
        proof {
            assert(spec_registered_at(
                bs0,
                self.model(),
                w,
                duration@,
                token,
                TaskBond::OneOff,
                now@,
            ));
            if no_zero_repeat(bs0) {
                lemma_registration_nzr(
                    bs0,
                    self.model(),
                    w,
                    duration@,
                    token,
                    TaskBond::OneOff,
                    now@,
                );
            }
        }
    }

    /// Registers a repeating task whose first firing is `duration` from
    /// now. If the due time would pass the representable horizon, nothing
    /// is registered.
    pub fn every(&mut self, duration: Duration, token: Token)
        requires
            old(self).wf(),
            0 <= duration@,
            TS::obeys_time_spec() ==> old(self).time_source.spec_now() + duration@ <= i64::MAX,
        ensures
            final(self).wf(),
            final(self).time_point_interval == old(self).time_point_interval,
            final(self).time_source == old(self).time_source,
            spec_registered(
                old(self).model(),
                final(self).model(),
                old(self).time_point_interval@,
                duration@,
                token,
                TaskBond::Perpetual,
                if TS::obeys_time_spec() {
                    Some(old(self).time_source.spec_now())
                } else {
                    None
                },
            ),
            no_zero_repeat(old(self).model()) && 0 < duration@ ==> no_zero_repeat(
                final(self).model(),
            ),
    {
        let ghost bs0 = self.model();
        let ghost w = self.time_point_interval@;
        let now = self.time_source.now();
        if now.num_nanoseconds() <= i64::MAX - duration.num_nanoseconds() {
            let task = Task::new(duration, now, TaskBond::Perpetual, token);
            self.schedule(task);
        }
        proof {
            assert(spec_registered_at(
                bs0,
                self.model(),
                w,
                duration@,
                token,
                TaskBond::Perpetual,
                now@,
            ));
            if no_zero_repeat(bs0) && 0 < duration@ {
                lemma_registration_nzr(
                    bs0,
                    self.model(),
                    w,
                    duration@,
                    token,
                    TaskBond::Perpetual,
                    now@,
                );
            }
        }
    }
}

/// Whether `x` is one of the tasks held somewhere in the bucket sequence.
pub open spec fn has_task<Token: Copy>(bs: BucketSeq<Token>, x: Task<Token>) -> bool {
    exists|i: int, k: int|
        #![trigger bs[i].1[k]]
        0 <= i < bs.len() && 0 <= k < bs[i].1.len() && bs[i].1[k] == x
}

/// No repeating task with a zero interval: such a task, once missed,
/// would be re-filed into the same missed bucket forever, and draining
/// the overrun could never finish.
pub open spec fn no_zero_repeat<Token: Copy>(bs: BucketSeq<Token>) -> bool {
    forall|x: Task<Token>|
        #[trigger] has_task(bs, x) ==> (x.bond == TaskBond::Perpetual ==> 0 < x.interval@)
}

/// The smallest due time in a batch of tasks; the top of the
/// representable range when the batch is empty.
pub open spec fn min_sched<Token: Copy>(ts: Seq<Task<Token>>) -> int
    decreases ts.len(),
{
    if ts.len() == 0 {
        i64::MAX as int
    } else {
        let m = min_sched(ts.drop_last());
        if ts.last().spec_schedule() < m {
            ts.last().spec_schedule()
        } else {
            m
        }
    }
}

/// How much drain work is left below the current bucket: the distance
/// from the earliest missed due time up to the current bucket's lower
/// edge. Every drain round strictly shrinks it.
pub open spec fn drain_measure<Token: Copy>(bs: BucketSeq<Token>, cur: int, w: int) -> int {
    spec_to_duration(cur, w) - min_sched(tasks_of(bs, insert_pos(bs, cur)))
}

/// The minimum is a lower bound on every element of the batch.
pub proof fn lemma_min_sched_le<Token: Copy>(ts: Seq<Task<Token>>, m: int)
    requires
        0 <= m < ts.len(),
    ensures
        min_sched(ts) <= ts[m].spec_schedule(),
    decreases ts.len(),
{
    if m + 1 < ts.len() {
        assert(ts.drop_last()[m] == ts[m]);
        lemma_min_sched_le(ts.drop_last(), m);
    }
}

/// If every element's due time is at least `b`, so is the minimum, as
/// long as `b` does not exceed the empty-batch minimum.
pub proof fn lemma_min_sched_ge<Token: Copy>(ts: Seq<Task<Token>>, b: int)
    requires
        b <= i64::MAX,
        forall|m: int| 0 <= m < ts.len() ==> b <= (#[trigger] ts[m]).spec_schedule(),
    ensures
        b <= min_sched(ts),
    decreases ts.len(),
{
    if ts.len() > 0 {
        assert forall|m: int| 0 <= m < ts.drop_last().len() implies b <= (#[trigger] ts.drop_last()[m]).spec_schedule() by {
            assert(ts.drop_last()[m] == ts[m]);
        }
        lemma_min_sched_ge(ts.drop_last(), b);
    }
}

/// Each element of the flattened prefix comes from one of its buckets.
pub proof fn lemma_tasks_of_elem<Token: Copy>(bs: BucketSeq<Token>, k: int, m: int)
    requires
        0 <= k <= bs.len(),
        0 <= m < tasks_of(bs, k).len(),
    ensures
        exists|i: int, j: int|
            #![trigger bs[i].1[j]]
            0 <= i < k && 0 <= j < bs[i].1.len() && tasks_of(bs, k)[m] == bs[i].1[j],
    decreases k,
{
    if k > 0 {
        if m < tasks_of(bs, k - 1).len() {
            lemma_tasks_of_elem(bs, k - 1, m);
            assert(tasks_of(bs, k)[m] == tasks_of(bs, k - 1)[m]);
            let (i, j): (int, int) = choose|i: int, j: int|
                #![trigger bs[i].1[j]]
                0 <= i < k - 1 && 0 <= j < bs[i].1.len() && tasks_of(bs, k - 1)[m] == bs[i].1[j];
            assert(0 <= i < k && 0 <= j < bs[i].1.len() && tasks_of(bs, k)[m] == bs[i].1[j]);
        } else {
            let j = m - tasks_of(bs, k - 1).len();
            assert(tasks_of(bs, k)[m] == bs[k - 1].1[j]);
        }
    }
}

/// A task of a batch is a task of the bucket prefix it was flattened
/// from.
pub proof fn lemma_tasks_of_contains<Token: Copy>(bs: BucketSeq<Token>, k: int, x: Task<Token>)
    requires
        0 <= k <= bs.len(),
        tasks_of(bs, k).contains(x),
    ensures
        has_task(bs, x),
{
    let m = choose|m: int| 0 <= m < tasks_of(bs, k).len() && tasks_of(bs, k)[m] == x;
    lemma_tasks_of_elem(bs, k, m);
}

/// A task of `bucket_insert(bs, key, t)` is a task of `bs` or is `t`.
pub proof fn lemma_bucket_insert_has<Token: Copy>(
    bs: BucketSeq<Token>,
    key: int,
    t: Task<Token>,
    x: Task<Token>,
)
    requires
        has_task(bucket_insert(bs, key, t), x),
        0 <= insert_pos(bs, key) <= bs.len(),
    ensures
        has_task(bs, x) || x == t,
{
    let bs1 = bucket_insert(bs, key, t);
    let pos = insert_pos(bs, key);
    let (i, k): (int, int) = choose|i: int, k: int|
        #![trigger bs1[i].1[k]]
        0 <= i < bs1.len() && 0 <= k < bs1[i].1.len() && bs1[i].1[k] == x;
    if pos < bs.len() && bs[pos].0 == key {
        if i == pos {
            if k < bs[pos].1.len() {
                assert(bs[i].1[k] == x);
            } else {
                assert(x == t);
            }
        } else {
            assert(bs[i].1[k] == x);
        }
    } else {
        if i < pos {
            assert(bs[i].1[k] == x);
        } else if i == pos {
            assert(bs1[i].1 == seq![t]);
            assert(x == t);
        } else {
            assert(bs1[i] == bs[i - 1]);
            assert(bs[i - 1].1[k] == x);
        }
    }
}

/// A task of a re-filed bucket sequence is a task of the base sequence
/// or the advanced copy of a fired repeating task.
pub proof fn lemma_reinsert_has<Token: Copy>(
    base: BucketSeq<Token>,
    fired: Seq<Task<Token>>,
    w: int,
    x: Task<Token>,
)
    requires
        has_task(reinsert(base, fired, w), x),
    ensures
        has_task(base, x) || exists|m: int|
            0 <= m < fired.len() && (#[trigger] fired[m]).bond == TaskBond::Perpetual && x
                == spec_advanced(fired[m]),
    decreases fired.len(),
{
    if fired.len() > 0 {
        let rest = reinsert(base, fired.drop_last(), w);
        let t = fired.last();
        if t.bond == TaskBond::Perpetual && t.spec_schedule() + t.interval@ <= i64::MAX {
            let key = spec_to_time_point(t.spec_schedule() + t.interval@, w);
            lemma_insert_pos_in_range(rest, key);
            lemma_bucket_insert_has(rest, key, spec_advanced(t), x);
            if x == spec_advanced(t) {
                assert(fired[fired.len() - 1] == t);
            } else if has_task(rest, x) {
                lemma_reinsert_has(base, fired.drop_last(), w, x);
                if exists|m: int|
                    0 <= m < fired.drop_last().len() && (#[trigger] fired.drop_last()[m]).bond
                        == TaskBond::Perpetual && x == spec_advanced(fired.drop_last()[m]) {
                    let m = choose|m: int|
                        0 <= m < fired.drop_last().len() && (#[trigger] fired.drop_last()[m]).bond
                            == TaskBond::Perpetual && x == spec_advanced(fired.drop_last()[m]);
                    assert(fired[m] == fired.drop_last()[m]);
                }
            }
        } else {
            lemma_reinsert_has(base, fired.drop_last(), w, x);
            if exists|m: int|
                0 <= m < fired.drop_last().len() && (#[trigger] fired.drop_last()[m]).bond
                    == TaskBond::Perpetual && x == spec_advanced(fired.drop_last()[m]) {
                let m = choose|m: int|
                    0 <= m < fired.drop_last().len() && (#[trigger] fired.drop_last()[m]).bond
                        == TaskBond::Perpetual && x == spec_advanced(fired.drop_last()[m]);
                assert(fired[m] == fired.drop_last()[m]);
            }
        }
    }
}

/// `insert_pos` always lands inside the sequence, sorted or not.
pub proof fn lemma_insert_pos_in_range<Token: Copy>(bs: BucketSeq<Token>, key: int)
    ensures
        0 <= insert_pos(bs, key) <= bs.len(),
    decreases bs.len(),
{
    if !(bs.len() == 0 || bs[0].0 >= key) {
        lemma_insert_pos_in_range(bs.drop_first(), key);
    }
}

/// Whether draining finishes within `fuel` rounds: each round consumes
/// every bucket below `cur` and re-files the repeating tasks.
pub open spec fn drain_complete<Token: Copy>(bs: BucketSeq<Token>, cur: int, w: int, fuel: nat) -> bool
    decreases fuel,
{
    if insert_pos(bs, cur) == 0 {
        true
    } else if fuel == 0 {
        false
    } else {
        drain_complete(spec_consume(bs, insert_pos(bs, cur), w).1, cur, w, (fuel - 1) as nat)
    }
}

/// The tokens reported by up to `fuel` drain rounds, in firing order
/// across rounds.
pub open spec fn spec_drain_toks<Token: Copy>(bs: BucketSeq<Token>, cur: int, w: int, fuel: nat) -> Seq<
    Token,
>
    decreases fuel,
{
    if insert_pos(bs, cur) == 0 || fuel == 0 {
        Seq::empty()
    } else {
        spec_consume(bs, insert_pos(bs, cur), w).0 + spec_drain_toks(
            spec_consume(bs, insert_pos(bs, cur), w).1,
            cur,
            w,
            (fuel - 1) as nat,
        )
    }
}

/// The bucket sequence left after up to `fuel` drain rounds.
pub open spec fn spec_drain_rest<Token: Copy>(bs: BucketSeq<Token>, cur: int, w: int, fuel: nat) -> BucketSeq<
    Token,
>
    decreases fuel,
{
    if insert_pos(bs, cur) == 0 || fuel == 0 {
        bs
    } else {
        spec_drain_rest(spec_consume(bs, insert_pos(bs, cur), w).1, cur, w, (fuel - 1) as nat)
    }
}

/// What a finished drain reports and leaves behind: the outcome of any
/// sufficient number of rounds.
pub open spec fn spec_drained<Token: Copy>(
    bs: BucketSeq<Token>,
    cur: int,
    w: int,
    toks: Seq<Token>,
    bs2: BucketSeq<Token>,
) -> bool {
    exists|fuel: nat|
        #[trigger] drain_complete(bs, cur, w, fuel) && toks == spec_drain_toks(bs, cur, w, fuel)
            && bs2 == spec_drain_rest(bs, cur, w, fuel)
}

/// The loop variant of the drain: zero once nothing is missed, else one
/// more than the remaining drain work.
pub open spec fn drain_work<Token: Copy>(bs: BucketSeq<Token>, cur: int, w: int) -> int {
    if insert_pos(bs, cur) == 0 {
        0
    } else {
        drain_measure(bs, cur, w) + 1
    }
}

/// The full poll relation: what a poll returns for the clock reading
/// `now`, and how the bucket sequence changes with it.
pub open spec fn spec_next_rel<Token: Copy>(
    bs: BucketSeq<Token>,
    w: int,
    now: int,
    r: Option<Schedule<Token>>,
    bs2: BucketSeq<Token>,
) -> bool {
    let cur = spec_to_time_point(now, w);
    if bs.len() == 0 {
        &&& r is None
        &&& bs2 == bs
    } else if bs[0].0 > cur {
        &&& r matches Some(Schedule::NextIn(d)) && d@ == spec_to_duration(bs[0].0, w) - now
        &&& bs2 == bs
    } else if bs[0].0 == cur {
        &&& r matches Some(Schedule::Current(toks)) && (toks@, bs2) == spec_consume(bs, 1, w)
    } else {
        &&& r matches Some(Schedule::Overrun(toks)) && spec_drained(bs, cur, w, toks@, bs2)
    }
}

/// Consuming keeps the ban on zero-interval repeating tasks: re-filed
/// tasks keep their interval, and the rest were already there.
pub proof fn lemma_consume_nzr<Token: Copy>(bs: BucketSeq<Token>, k: int, w: int)
    requires
        0 <= k <= bs.len(),
        no_zero_repeat(bs),
    ensures
        no_zero_repeat(spec_consume(bs, k, w).1),
{
    broadcast use vstd::seq_lib::group_to_multiset_ensures;

    let flat = tasks_of(bs, k);
    let fired = fire_order(flat);
    let base = bs.skip(k);
    let bs1 = spec_consume(bs, k, w).1;
    lemma_fire_order_multiset(flat);
    assert forall|x: Task<Token>| #[trigger] has_task(bs1, x) implies (x.bond
        == TaskBond::Perpetual ==> 0 < x.interval@) by {
        lemma_reinsert_has(base, fired, w, x);
        if has_task(base, x) {
            let (i2, j2): (int, int) = choose|i2: int, j2: int|
                #![trigger base[i2].1[j2]]
                0 <= i2 < base.len() && 0 <= j2 < base[i2].1.len() && base[i2].1[j2] == x;
            assert(base[i2] == bs[i2 + k]);
            assert(bs[i2 + k].1[j2] == x);
            assert(has_task(bs, x));
        } else {
            let m0 = choose|m0: int|
                0 <= m0 < fired.len() && (#[trigger] fired[m0]).bond == TaskBond::Perpetual && x
                    == spec_advanced(fired[m0]);
            let t = fired[m0];
            assert(fired.contains(t));
            assert(fired.to_multiset().count(t) > 0);
            assert(flat.contains(t));
            lemma_tasks_of_contains(bs, k, t);
        }
    }
}

/// The tasks of a batch whose token is not `tok` under the token type's
/// own equality, in their original order.
pub open spec fn spec_keep<Token: Copy + PartialEq>(ts: Seq<Task<Token>>, tok: Token) -> Seq<Task<Token>>
    decreases ts.len(),
{
    if ts.len() == 0 {
        ts
    } else if ts.last().token.eq_spec(&tok) {
        spec_keep(ts.drop_last(), tok)
    } else {
        spec_keep(ts.drop_last(), tok).push(ts.last())
    }
}

/// Cancellation: every bucket keeps only the tasks whose token differs
/// from `tok`, and a bucket left empty disappears.
pub open spec fn spec_cancel<Token: Copy + PartialEq>(bs: BucketSeq<Token>, tok: Token) -> BucketSeq<Token>
    decreases bs.len(),
{
    if bs.len() == 0 {
        bs
    } else {
        let kept = spec_keep(bs[0].1, tok);
        let rest = spec_cancel(bs.drop_first(), tok);
        if kept.len() == 0 {
            rest
        } else {
            seq![(bs[0].0, kept)] + rest
        }
    }
}

/// Relates a due time's bucket to the current bucket's lower edge: a due
/// time is in a bucket below `cur` exactly when it lies below the edge
/// `cur * w`.
pub proof fn lemma_tp_vs_edge(s: int, cur: int, w: int)
    requires
        0 < w,
        0 <= s,
    ensures
        spec_to_time_point(s, w) < cur ==> s < cur * w,
        spec_to_time_point(s, w) >= cur ==> s >= cur * w,
{
    vstd::arithmetic::div_mod::lemma_fundamental_div_mod(s, w);
    assert((s / w < cur ==> s < cur * w) && (s / w >= cur ==> s >= cur * w)) by (nonlinear_arith)
        requires
            0 < w,
            0 <= s,
            s == w * (s / w) + s % w,
            0 <= s % w < w,
    ;
}

/// Every task of a listed bucket appears in the flattened prefix.
pub proof fn lemma_tasks_of_has<Token: Copy>(bs: BucketSeq<Token>, k: int, i: int, j: int)
    requires
        0 <= i < k <= bs.len(),
        0 <= j < bs[i].1.len(),
    ensures
        tasks_of(bs, k).contains(bs[i].1[j]),
    decreases k,
{
    if i == k - 1 {
        let m = tasks_of(bs, k - 1).len() + j;
        assert(tasks_of(bs, k)[m] == bs[i].1[j]);
    } else {
        lemma_tasks_of_has(bs, k - 1, i, j);
        let m = choose|m: int|
            0 <= m < tasks_of(bs, k - 1).len() && #[trigger] tasks_of(bs, k - 1)[m] == bs[i].1[j];
        assert(tasks_of(bs, k)[m] == bs[i].1[j]);
    }
}

/// While something is missed, there is drain work to do: the earliest
/// missed due time lies strictly below the current bucket's lower edge.
pub proof fn lemma_measure_pos<Token: Copy>(bs: BucketSeq<Token>, cur: int, w: int)
    requires
        0 < w,
        buckets_wf(bs, w),
        0 < insert_pos(bs, cur),
        cur * w <= i64::MAX,
    ensures
        0 < drain_measure(bs, cur, w),
{
    let k = insert_pos(bs, cur);
    let flat = tasks_of(bs, k);
    lemma_insert_pos_bounds(bs, cur, w);
    assert(bucket_ok(bs[0].0, bs[0].1, w));
    lemma_tasks_of_has(bs, k, 0, 0);
    let e = bs[0].1[0];
    let me = choose|m: int| 0 <= m < flat.len() && flat[m] == e;
    lemma_min_sched_le(flat, me);
    lemma_tp_vs_edge(e.spec_schedule(), cur, w);
    assert(min_sched(flat) <= e.spec_schedule() < cur * w);
}

/// One drain round strictly shrinks the remaining drain work: every task
/// still missed afterwards is the advanced copy of a fired repeating
/// task, so the earliest missed due time rose by at least one interval.
pub proof fn lemma_round_measure<Token: Copy>(bs: BucketSeq<Token>, cur: int, w: int)
    requires
        0 < w,
        buckets_wf(bs, w),
        buckets_wf(spec_consume(bs, insert_pos(bs, cur), w).1, w),
        no_zero_repeat(bs),
        0 < insert_pos(bs, cur),
        cur * w <= i64::MAX,
    ensures
        no_zero_repeat(spec_consume(bs, insert_pos(bs, cur), w).1),
        0 < drain_measure(bs, cur, w),
        0 < insert_pos(spec_consume(bs, insert_pos(bs, cur), w).1, cur) ==> 0 <= drain_measure(
            spec_consume(bs, insert_pos(bs, cur), w).1,
            cur,
            w,
        ) < drain_measure(bs, cur, w),
{
    let k = insert_pos(bs, cur);
    let flat = tasks_of(bs, k);
    let fired = fire_order(flat);
    let base = bs.skip(k);
    let bs1 = spec_consume(bs, k, w).1;
    let min_old = min_sched(flat);
    lemma_insert_pos_bounds(bs, cur, w);
    lemma_tasks_of_wf(bs, k, w);
    lemma_fire_order_multiset(flat);
    broadcast use vstd::seq_lib::group_to_multiset_ensures;

    lemma_measure_pos(bs, cur, w);

    // Any task of the re-filed sequence is a base task or an advanced
    // fired repeating task.
    assert forall|x: Task<Token>| #[trigger] has_task(bs1, x) implies (x.bond
        == TaskBond::Perpetual ==> 0 < x.interval@) && (x.wf() && spec_to_time_point(
        x.spec_schedule(),
        w,
    ) < cur ==> min_old + 1 <= x.spec_schedule()) by {
        lemma_reinsert_has(base, fired, w, x);
        if has_task(base, x) {
            let (i2, j2): (int, int) = choose|i2: int, j2: int|
                #![trigger base[i2].1[j2]]
                0 <= i2 < base.len() && 0 <= j2 < base[i2].1.len() && base[i2].1[j2] == x;
            assert(base[i2] == bs[i2 + k]);
            assert(bs[i2 + k].1[j2] == x);
            assert(has_task(bs, x));
            assert(bucket_ok(bs[i2 + k].0, bs[i2 + k].1, w));
            assert(bs[i2 + k].0 >= cur);
            lemma_tp_vs_edge(x.spec_schedule(), cur, w);
            assert(spec_to_time_point(x.spec_schedule(), w) >= cur);
        } else {
            let m0 = choose|m0: int|
                0 <= m0 < fired.len() && (#[trigger] fired[m0]).bond == TaskBond::Perpetual && x
                    == spec_advanced(fired[m0]);
            let t = fired[m0];
            assert(fired.contains(t));
            assert(fired.to_multiset().count(t) > 0);
            assert(flat.contains(t));
            let mt = choose|mt: int| 0 <= mt < flat.len() && flat[mt] == t;
            assert(t.wf());
            lemma_min_sched_le(flat, mt);
            lemma_tasks_of_contains(bs, k, t);
            assert(0 < t.interval@);
            assert(x.spec_schedule() == t.spec_schedule() + t.interval@);
        }
    }

    if 0 < insert_pos(bs1, cur) {
        let k1 = insert_pos(bs1, cur);
        lemma_insert_pos_bounds(bs1, cur, w);
        let flat1 = tasks_of(bs1, k1);
        assert forall|m: int| 0 <= m < flat1.len() implies min_old + 1 <= (#[trigger] flat1[m]).spec_schedule() by {
            lemma_tasks_of_elem(bs1, k1, m);
            let (i, j): (int, int) = choose|i: int, j: int|
                #![trigger bs1[i].1[j]]
                0 <= i < k1 && 0 <= j < bs1[i].1.len() && flat1[m] == bs1[i].1[j];
            let x = bs1[i].1[j];
            assert(has_task(bs1, x));
            assert(bucket_ok(bs1[i].0, bs1[i].1, w));
            assert(bs1[i].0 < cur);
        }
        lemma_min_sched_ge(flat1, min_old + 1);

        // The new work is still non-negative: some task of the first
        // missed bucket bounds the new minimum from above.
        assert(bucket_ok(bs1[0].0, bs1[0].1, w));
        lemma_tasks_of_has(bs1, k1, 0, 0);
        let e1 = bs1[0].1[0];
        let me1 = choose|m: int| 0 <= m < flat1.len() && flat1[m] == e1;
        lemma_min_sched_le(flat1, me1);
        lemma_tp_vs_edge(e1.spec_schedule(), cur, w);
        assert(min_sched(flat1) <= e1.spec_schedule() < cur * w);
    }
}

/// In a well-formed bucket sequence every bucket's lower edge fits the
/// representable range, because some task is due inside the bucket.
pub proof fn lemma_key_edge_fits<Token: Copy>(bs: BucketSeq<Token>, w: int, i: int)
    requires
        buckets_wf(bs, w),
        0 < w,
        0 <= i < bs.len(),
    ensures
        0 <= bs[i].0,
        bs[i].0 * w <= i64::MAX,
        spec_to_duration(bs[i].0, w) <= bs[i].1[0].spec_schedule(),
{
    assert(bucket_ok(bs[i].0, bs[i].1, w));
    let t = bs[i].1[0];
    let s = t.spec_schedule();
    assert(bs[i].0 == s / w);
    vstd::arithmetic::div_mod::lemma_fundamental_div_mod(s, w);
    assert(0 <= s / w && w * (s / w) <= s) by (nonlinear_arith)
        requires
            0 < w,
            0 <= s,
            s == w * (s / w) + s % w,
            0 <= s % w < w,
    ;
}

impl<Token: Copy> Scheduler<Token, SteadyTimeSource> {
    /// A scheduler running against the host's steady clock, measured
    /// from this moment.
    pub fn new(time_point_interval: Duration) -> (s: Scheduler<Token, SteadyTimeSource>)
        requires
            0 < time_point_interval@,
        ensures
            s.wf(),
            s.time_point_interval == time_point_interval,
            s.model() == Seq::<(int, Seq<Task<Token>>)>::empty(),
            no_zero_repeat(s.model()),
    {
        Scheduler::with_time_source(time_point_interval, SteadyTimeSource::new())
    }
}

impl<Token: Copy, TS: TimeSource + FastForward> Scheduler<Token, TS> {
    /// Advances a controllable time source by `duration`. Pending tasks
    /// are untouched; the advanced reading is seen at the next poll.
    pub fn fast_forward(&mut self, duration: Duration)
        requires
            old(self).wf(),
            0 <= duration@,
            TS::obeys_time_spec() ==> old(self).time_source.spec_now() + duration@ <= i64::MAX,
        ensures
            final(self).wf(),
            final(self).time_point_interval == old(self).time_point_interval,
            final(self).buckets == old(self).buckets,
            TS::obeys_time_spec() ==> final(self).time_source.spec_now() == old(
                self,
            ).time_source.spec_now() + duration@,
    {
        self.time_source.fast_forward(duration);
    }
}

impl<Token: Copy, TS: Wait> Scheduler<Token, TS> {
    /// Blocks until something is due: while the earliest bucket lies
    /// ahead, sleeps exactly the reported span through the time source
    /// and polls again. Due tokens come back as `Ok`; an empty scheduler
    /// or an already-missed bucket fails with the matching error,
    /// without touching the time source. A successful wait either found
    /// the earliest bucket already current (no sleep, time source
    /// untouched) or slept exactly once, leaving the clock's reading at
    /// that bucket's lower edge. The contract covers time sources whose
    /// waits advance the clock by exactly the requested span; a real
    /// clock may drift past a bucket during the sleep, and the loop then
    /// simply reports what it finds.
    pub fn wait(&mut self) -> (r: Result<Vec<Token>, WaitError<Token>>)
        requires
            old(self).wf(),
            no_zero_repeat(old(self).model()),
            TS::obeys_time_spec(),
        ensures
            final(self).wf(),
            no_zero_repeat(final(self).model()),
            final(self).time_point_interval == old(self).time_point_interval,
            ({
                let bs = old(self).model();
                let w = old(self).time_point_interval@;
                let cur0 = spec_to_time_point(old(self).time_source.spec_now(), w);
                match r {
                    Result::Err(WaitError::Empty) => bs.len() == 0 && final(self).model() == bs,
                    Result::Ok(toks) => bs.len() > 0 && bs[0].0 >= cur0 && (
                    toks@,
                    final(self).model(),
                    ) == spec_consume(bs, 1, w),
                    Result::Err(WaitError::Overrun(toks)) => bs.len() > 0 && bs[0].0 < cur0
                        && spec_drained(bs, cur0, w, toks@, final(self).model()),
                }
            }),
            r matches Result::Err(_) ==> final(self).time_source == old(self).time_source,
            r matches Result::Ok(_) ==> ({
                let bs = old(self).model();
                let w = old(self).time_point_interval@;
                let cur0 = spec_to_time_point(old(self).time_source.spec_now(), w);
                if bs[0].0 == cur0 {
                    final(self).time_source == old(self).time_source
                } else {
                    final(self).time_source.spec_now() == spec_to_duration(bs[0].0, w)
                }
            }),
    {
        let ghost bs0 = self.model();
        let ghost w = self.time_point_interval@;
        let ghost cur0 = spec_to_time_point(self.time_source.spec_now(), w);
        let mut slept: bool = false;
        loop
            invariant
                self.wf(),
                no_zero_repeat(self.model()),
                self.time_point_interval == old(self).time_point_interval,
                self.model() == bs0,
                bs0 == old(self).model(),
                w == self.time_point_interval@,
                0 < w,
                cur0 == spec_to_time_point(old(self).time_source.spec_now(), w),
                TS::obeys_time_spec(),
                !slept ==> self.time_source == old(self).time_source,
                slept ==> bs0.len() > 0 && bs0[0].0 > cur0 && self.time_source.spec_now()
                    == spec_to_duration(bs0[0].0, w) && spec_to_time_point(
                    self.time_source.spec_now(),
                    w,
                ) == bs0[0].0,
            decreases (if slept { 0int } else { 1int }),
        {
            let ghost pre = *self;
            let ghost pre_now = self.time_source.spec_now();
            let polled = self.next();
            let ghost nw = choose|n: int|
                {
                    &&& 0 <= n <= i64::MAX
                    &&& (TS::obeys_time_spec() ==> n == pre.time_source.spec_now())
                    &&& #[trigger] spec_next_rel(pre.model(), pre.time_point_interval@, n, polled, self.model())
                };
            proof {
                assert(nw == pre_now);
                assert(spec_next_rel(bs0, w, pre_now, polled, self.model()));
            }
            match polled {
                Option::None => {
                    proof {
                        if slept {
                            assert(false);
                        }
                    }
                    return Result::Err(WaitError::Empty);
                },
                Option::Some(Schedule::NextIn(d)) => {
                    proof {
                        assert(bs0[0].0 > spec_to_time_point(pre_now, w));
                        if slept {
                            assert(false);
                        }
                        lemma_key_edge_fits(bs0, w, 0);
                        vstd::arithmetic::div_mod::lemma_fundamental_div_mod(pre_now, w);
                        assert(bs0[0].0 * w > pre_now) by (nonlinear_arith)
                            requires
                                0 < w,
                                0 <= pre_now,
                                spec_to_time_point(pre_now, w) + 1 <= bs0[0].0,
                                pre_now == w * (pre_now / w) + pre_now % w,
                                0 <= pre_now % w < w,
                                spec_to_time_point(pre_now, w) == pre_now / w,
                        ;
                    }
                    self.time_source.wait(d);
                    proof {
                        vstd::arithmetic::div_mod::lemma_div_multiples_vanish(bs0[0].0, w);
                        assert(spec_to_time_point(self.time_source.spec_now(), w) == bs0[0].0);
                    }
                    slept = true;
                },
                Option::Some(Schedule::Overrun(toks)) => {
                    proof {
                        assert(bs0[0].0 < spec_to_time_point(pre_now, w));
                        if slept {
                            assert(false);
                        }
                        assert(pre_now == old(self).time_source.spec_now());
                    }
                    return Result::Err(WaitError::Overrun(toks));
                },
                Option::Some(Schedule::Current(toks)) => {
                    proof {
                        assert(bs0[0].0 == spec_to_time_point(pre_now, w));
                        if !slept {
                            assert(pre_now == old(self).time_source.spec_now());
                        }
                    }
                    return Result::Ok(toks);
                },
            }
        }
    }
}

/// What registration did: for some non-negative reading `now` of the
/// clock (the exact reading when the time source is a virtual one), the
/// new task was armed at `now` and filed under the bucket of `now +
/// interval`; a due time beyond the representable horizon registers
/// nothing.
pub open spec fn spec_registered_at<Token: Copy>(
    bs0: BucketSeq<Token>,
    bs1: BucketSeq<Token>,
    w: int,
    interval: int,
    token: Token,
    bond: TaskBond,
    now: int,
) -> bool {
    &&& 0 <= now <= i64::MAX
    &&& if now + interval <= i64::MAX {
        bs1 == bucket_insert(
            bs0,
            spec_to_time_point(now + interval, w),
            (Task { interval: dur(interval), run_offset: dur(now), token, bond }),
        )
    } else {
        bs1 == bs0
    }
}

pub open spec fn spec_registered<Token: Copy>(
    bs0: BucketSeq<Token>,
    bs1: BucketSeq<Token>,
    w: int,
    interval: int,
    token: Token,
    bond: TaskBond,
    known_now: Option<int>,
) -> bool {
    exists|now: int|
        {
            &&& (known_now matches Some(n) ==> now == n)
            &&& #[trigger] spec_registered_at(bs0, bs1, w, interval, token, bond, now)
        }
}

/// Stable insertion of `t` into `s`: `t` lands after every task whose arm
/// offset is at most its own, so equal arm offsets keep their order.
pub open spec fn fire_insert<Token: Copy>(s: Seq<Task<Token>>, t: Task<Token>) -> Seq<Task<Token>>
    decreases s.len(),
{
    if s.len() == 0 {
        seq![t]
    } else if s.last().run_offset@ <= t.run_offset@ {
        s.push(t)
    } else {
        fire_insert(s.drop_last(), t).push(s.last())
    }
}

/// The firing order of a batch of due tasks: a stable sort by arm offset,
/// ascending.
pub open spec fn fire_order<Token: Copy>(s: Seq<Task<Token>>) -> Seq<Task<Token>>
    decreases s.len(),
{
    if s.len() == 0 {
        Seq::empty()
    } else {
        fire_insert(fire_order(s.drop_last()), s.last())
    }
}

/// All tasks of the first `k` buckets, flattened in bucket order.
pub open spec fn tasks_of<Token: Copy>(bs: BucketSeq<Token>, k: int) -> Seq<Task<Token>>
    decreases k,
{
    if k <= 0 {
        Seq::empty()
    } else {
        tasks_of(bs, k - 1) + bs[k - 1].1
    }
}

/// The tokens of a task batch, in the batch's order.
pub open spec fn tokens_of<Token: Copy>(ts: Seq<Task<Token>>) -> Seq<Token> {
    ts.map(|i: int, t: Task<Token>| t.token)
}

/// A repeating task re-armed after firing: the new arm offset is the old
/// due time, never the current reading of the clock.
pub open spec fn spec_advanced<Token: Copy>(t: Task<Token>) -> Task<Token> {
    Task { run_offset: dur(t.spec_schedule()), ..t }
}

/// Re-files a fired batch, in firing order: a repeating task whose next
/// due time still fits the representable horizon is re-inserted under its
/// new bucket; a one-off task, or one past the horizon, is dropped.
pub open spec fn reinsert<Token: Copy>(
    bs: BucketSeq<Token>,
    fired: Seq<Task<Token>>,
    w: int,
) -> BucketSeq<Token>
    decreases fired.len(),
{
    if fired.len() == 0 {
        bs
    } else {
        let rest = reinsert(bs, fired.drop_last(), w);
        let t = fired.last();
        if t.bond == TaskBond::Perpetual && t.spec_schedule() + t.interval@ <= i64::MAX {
            bucket_insert(
                rest,
                spec_to_time_point(t.spec_schedule() + t.interval@, w),
                spec_advanced(t),
            )
        } else {
            rest
        }
    }
}

/// Consuming the first `k` buckets: their tasks fire in stable arm-offset
/// order, their tokens are reported in that order, and repeating tasks are
/// re-filed among the remaining buckets.
pub open spec fn spec_consume<Token: Copy>(bs: BucketSeq<Token>, k: int, w: int) -> (Seq<Token>, BucketSeq<Token>) {
    let fired = fire_order(tasks_of(bs, k));
    (tokens_of(fired), reinsert(bs.skip(k), fired, w))
}

/// Dropping leading buckets keeps the bucket sequence well formed.
pub proof fn lemma_buckets_wf_skip<Token: Copy>(bs: BucketSeq<Token>, w: int, n: int)
    requires
        buckets_wf(bs, w),
        0 <= n <= bs.len(),
    ensures
        buckets_wf(bs.skip(n), w),
{
    let bs1 = bs.skip(n);
    assert forall|i: int, j: int|
        #![trigger bs1[i], bs1[j]]
        0 <= i < j < bs1.len() implies bs1[i].0 < bs1[j].0 by {
        assert(bs1[i] == bs[i + n]);
        assert(bs1[j] == bs[j + n]);
    }
    assert forall|i: int| 0 <= i < bs1.len() implies bucket_ok(
        (#[trigger] bs1[i]).0,
        bs1[i].1,
        w,
    ) by {
        assert(bs1[i] == bs[i + n]);
    }
}

/// Every task flattened out of the first `k` buckets of a well-formed
/// bucket sequence is itself well formed.
pub proof fn lemma_tasks_of_wf<Token: Copy>(bs: BucketSeq<Token>, k: int, w: int)
    requires
        buckets_wf(bs, w),
        k <= bs.len(),
    ensures
        forall|m: int| 0 <= m < tasks_of(bs, k).len() ==> (#[trigger] tasks_of(bs, k)[m]).wf(),
    decreases k,
{
    if k > 0 {
        lemma_tasks_of_wf(bs, k - 1, w);
        assert forall|m: int| 0 <= m < tasks_of(bs, k).len() implies (#[trigger] tasks_of(
            bs,
            k,
        )[m]).wf() by {
            if m < tasks_of(bs, k - 1).len() {
                assert(tasks_of(bs, k)[m] == tasks_of(bs, k - 1)[m]);
            } else {
                assert(tasks_of(bs, k)[m] == bs[k - 1].1[m - tasks_of(bs, k - 1).len()]);
                assert(bucket_ok(bs[k - 1].0, bs[k - 1].1, w));
            }
        }
    }
}

/// `fire_insert` places `t` exactly at the boundary `j` between the tasks
/// armed no later than it and those armed strictly later.
pub proof fn lemma_fire_insert_pos<Token: Copy>(s: Seq<Task<Token>>, t: Task<Token>, j: int)
    requires
        0 <= j <= s.len(),
        j == 0 || s[j - 1].run_offset@ <= t.run_offset@,
        forall|m: int| j <= m < s.len() ==> (#[trigger] s[m]).run_offset@ > t.run_offset@,
    ensures
        fire_insert(s, t) == s.insert(j, t),
    decreases s.len(),
{
    if s.len() == 0 {
        assert(fire_insert(s, t) =~= s.insert(0, t));
    } else if s.last().run_offset@ <= t.run_offset@ {
        assert(j == s.len());
        assert(fire_insert(s, t) =~= s.insert(j, t));
    } else {
        assert(j < s.len());
        assert forall|m: int| j <= m < s.drop_last().len() implies (#[trigger] s.drop_last()[m]).run_offset@
            > t.run_offset@ by {
            assert(s.drop_last()[m] == s[m]);
        }
        if j > 0 {
            assert(s.drop_last()[j - 1] == s[j - 1]);
        }
        lemma_fire_insert_pos(s.drop_last(), t, j);
        assert(fire_insert(s, t) =~= s.insert(j, t));
    }
}

/// `fire_insert` only adds `t` to the batch: the multiset of tasks is the
/// old one plus `t`.
pub proof fn lemma_fire_insert_multiset<Token: Copy>(s: Seq<Task<Token>>, t: Task<Token>)
    ensures
        fire_insert(s, t).to_multiset() == s.to_multiset().insert(t),
        fire_insert(s, t).len() == s.len() + 1,
    decreases s.len(),
{
    broadcast use vstd::seq_lib::group_to_multiset_ensures;

    if s.len() == 0 {
        assert(fire_insert(s, t) =~= Seq::empty().push(t));
        assert(Seq::<Task<Token>>::empty().to_multiset() =~= Multiset::empty());
        assert(fire_insert(s, t).to_multiset() =~= s.to_multiset().insert(t));
    } else if s.last().run_offset@ <= t.run_offset@ {
    } else {
        lemma_fire_insert_multiset(s.drop_last(), t);
        assert(s.drop_last().push(s.last()) =~= s);
        assert(fire_insert(s, t).to_multiset() =~= s.to_multiset().insert(t));
    }
}

/// Firing order is a permutation: same tasks, same multiplicities.
pub proof fn lemma_fire_order_multiset<Token: Copy>(s: Seq<Task<Token>>)
    ensures
        fire_order(s).to_multiset() == s.to_multiset(),
        fire_order(s).len() == s.len(),
    decreases s.len(),
{
    broadcast use vstd::seq_lib::group_to_multiset_ensures;

    if s.len() == 0 {
        assert(fire_order(s).to_multiset() =~= s.to_multiset());
    } else {
        lemma_fire_order_multiset(s.drop_last());
        lemma_fire_insert_multiset(fire_order(s.drop_last()), s.last());
        assert(s.drop_last().push(s.last()) =~= s);
        assert(fire_order(s).to_multiset() =~= s.to_multiset());
    }
}

/// Whatever holds of every task of a batch holds of every task of its
/// firing order, since the one is a permutation of the other.
pub proof fn lemma_fire_order_wf<Token: Copy>(s: Seq<Task<Token>>)
    requires
        forall|m: int| 0 <= m < s.len() ==> (#[trigger] s[m]).wf(),
    ensures
        forall|m: int| 0 <= m < fire_order(s).len() ==> (#[trigger] fire_order(s)[m]).wf(),
{
    broadcast use vstd::seq_lib::group_to_multiset_ensures;

    lemma_fire_order_multiset(s);
    assert forall|m: int| 0 <= m < fire_order(s).len() implies (#[trigger] fire_order(s)[m]).wf() by {
        let x = fire_order(s)[m];
        assert(fire_order(s).contains(x));
        assert(fire_order(s).to_multiset().count(x) > 0);
        assert(s.contains(x));
    }
}

/// Registration keeps the ban on zero-interval repeating tasks, as long
/// as a repeating task is registered with a positive interval.
pub proof fn lemma_registration_nzr<Token: Copy>(
    bs0: BucketSeq<Token>,
    bs1: BucketSeq<Token>,
    w: int,
    interval: int,
    token: Token,
    bond: TaskBond,
    now: int,
)
    requires
        spec_registered_at(bs0, bs1, w, interval, token, bond, now),
        no_zero_repeat(bs0),
        bond == TaskBond::Perpetual ==> 0 < interval,
    ensures
        no_zero_repeat(bs1),
{
    if now + interval <= i64::MAX {
        let key = spec_to_time_point(now + interval, w);
        let t = (Task { interval: dur(interval), run_offset: dur(now), token, bond });
        lemma_insert_pos_in_range(bs0, key);
        assert forall|x: Task<Token>| #[trigger] has_task(bs1, x) implies (x.bond
            == TaskBond::Perpetual ==> 0 < x.interval@) by {
            lemma_bucket_insert_has(bs0, key, t, x);
        }
    }
}

/// Inserting a well-formed task under the bucket of its own due time
/// preserves well-formedness of the bucket sequence.
pub proof fn lemma_bucket_insert_wf<Token: Copy>(bs: BucketSeq<Token>, key: int, t: Task<Token>, w: int)
    requires
        buckets_wf(bs, w),
        t.wf(),
        key == spec_to_time_point(t.spec_schedule(), w),
    ensures
        buckets_wf(bucket_insert(bs, key, t), w),
{
    lemma_insert_pos_bounds(bs, key, w);
    let pos = insert_pos(bs, key);
    let bs1 = bucket_insert(bs, key, t);
    if pos < bs.len() && bs[pos].0 == key {
        assert forall|i: int, j: int|
            #![trigger bs1[i], bs1[j]]
            0 <= i < j < bs1.len() implies bs1[i].0 < bs1[j].0 by {
            assert(bs1[i].0 == bs[i].0);
            assert(bs1[j].0 == bs[j].0);
        }
        assert forall|i: int| 0 <= i < bs1.len() implies bucket_ok(
            (#[trigger] bs1[i]).0,
            bs1[i].1,
            w,
        ) by {
            if i == pos {
                assert(bucket_ok(bs[pos].0, bs[pos].1, w));
                assert forall|k: int| 0 <= k < bs1[i].1.len() implies (#[trigger] bs1[i].1[k]).wf()
                    && bs1[i].0 == spec_to_time_point(bs1[i].1[k].spec_schedule(), w) by {
                    if k < bs[pos].1.len() {
                        assert(bs1[i].1[k] == bs[pos].1[k]);
                    } else {
                        assert(bs1[i].1[k] == t);
                    }
                }
            }
        }
    } else {
        assert forall|i: int, j: int|
            #![trigger bs1[i], bs1[j]]
            0 <= i < j < bs1.len() implies bs1[i].0 < bs1[j].0 by {
            if i < pos {
                assert(bs1[i] == bs[i]);
            }
            if j < pos {
                assert(bs1[j] == bs[j]);
            }
            if i > pos {
                assert(bs1[i] == bs[i - 1]);
            }
            if j > pos {
                assert(bs1[j] == bs[j - 1]);
            }
        }
        assert forall|i: int| 0 <= i < bs1.len() implies bucket_ok(
            (#[trigger] bs1[i]).0,
            bs1[i].1,
            w,
        ) by {
            if i < pos {
                assert(bs1[i] == bs[i]);
            } else if i == pos {
                assert(bs1[i].1 == seq![t]);
                assert(bs1[i].1[0] == t);
            } else {
                assert(bs1[i] == bs[i - 1]);
            }
        }
    }
}

} // verus!
