use crate::OrderingError;
use vstd::prelude::*;

verus! {

/// A contiguous half-open span of media time, in milliseconds. The ordered
/// chunk sequence produced by the sweep tiles the whole duration; whether a
/// chunk is loud or silent falls out of its position relative to the marks.
#[derive(Clone, Copy, Debug, PartialEq, Eq, Structural)]
pub struct Chunk {
    pub start: u64,
    pub end: u64,
}

/// The end of the loud span that begins at `start`: the first silence mark
/// strictly greater than `start` (in the order given), or the total duration
/// when no such mark exists. A mark equal to `start` does not end the span.
pub open spec fn spec_loud_end(silent: Seq<u64>, start: u64, total: u64) -> u64
    decreases silent.len(),
{
    if silent.len() == 0 {
        total
    } else if silent[0] > start {
        silent[0]
    } else {
        spec_loud_end(silent.drop_first(), start, total)
    }
}

/// The chunks the left-to-right sweep emits from `cursor` onward: for each
/// remaining loud start, the silent span before it (when the cursor lies
/// strictly below it) and the loud span up to its end; then the silent
/// remainder up to the total duration, when any remains.
pub open spec fn spec_sweep(loud: Seq<u64>, silent: Seq<u64>, total: u64, cursor: u64) -> Seq<
    Chunk,
>
    decreases loud.len(),
{
    if loud.len() == 0 {
        if cursor < total {
            seq![Chunk { start: cursor, end: total }]
        } else {
            Seq::empty()
        }
    } else {
        let l = loud[0];
        let e = spec_loud_end(silent, l, total);
        let pre: Seq<Chunk> = if cursor < l {
            seq![Chunk { start: cursor, end: l }]
        } else {
            Seq::empty()
        };
        pre + seq![Chunk { start: l, end: e }] + spec_sweep(loud.drop_first(), silent, total, e)
    }
}

/// The whole segmentation: the sweep started at zero.
pub open spec fn spec_segment(loud: Seq<u64>, silent: Seq<u64>, total: u64) -> Seq<Chunk> {
    spec_sweep(loud, silent, total, 0)
}

fn find_loud_end(silent_periods: &Vec<u64>, start: u64, total_duration: u64) -> (e: u64)
    ensures
        e == spec_loud_end(silent_periods@, start, total_duration),
{
    let n = silent_periods.len();
    let mut k: usize = 0;
    proof {
        assert(silent_periods@.subrange(0, n as int) =~= silent_periods@);
    }
    while k < n
        invariant
            k <= n,
            n == silent_periods@.len(),
            spec_loud_end(silent_periods@, start, total_duration) == spec_loud_end(
                silent_periods@.subrange(k as int, n as int),
                start,
                total_duration,
            ),
        decreases n - k,
    {
        let s = silent_periods[k];
        proof {
            assert(silent_periods@.subrange(k as int, n as int)[0] == s);
            assert(silent_periods@.subrange(k as int, n as int).drop_first()
                =~= silent_periods@.subrange(k as int + 1, n as int));
        }
        if s > start {
            return s;
        }
        k += 1;
    }
    proof {
        assert(silent_periods@.subrange(n as int, n as int).len() == 0);
    }
    total_duration
}

/// The single left-to-right sweep over the loud starts: emits the silent span
/// before each loud start when one remains, the loud span up to the first
/// later silence mark (or the duration), and a final silent span up to the
/// duration. Deterministic: the result is a pure function of the three inputs.
pub fn find_audio_chunks(loud_periods: &Vec<u64>, silent_periods: &Vec<u64>, total_duration: u64) -> (r:
    Vec<Chunk>)
    ensures
        r@ == spec_segment(loud_periods@, silent_periods@, total_duration),
{
    let mut all_chunks: Vec<Chunk> = Vec::new();
    let mut current_time: u64 = 0;
    let n = loud_periods.len();
    let mut i: usize = 0;
    proof {
        assert(loud_periods@.subrange(0, n as int) =~= loud_periods@);
        assert(all_chunks@ + spec_segment(loud_periods@, silent_periods@, total_duration)
            =~= spec_segment(loud_periods@, silent_periods@, total_duration));
    }
    while i < n
        invariant
            i <= n,
            n == loud_periods@.len(),
            all_chunks@ + spec_sweep(
                loud_periods@.subrange(i as int, n as int),
                silent_periods@,
                total_duration,
                current_time,
            ) == spec_segment(loud_periods@, silent_periods@, total_duration),
        decreases n - i,
    {
        let ghost rest = loud_periods@.subrange(i as int, n as int);
        let start = loud_periods[i];
        proof {
            assert(rest[0] == start);
            assert(rest.drop_first() =~= loud_periods@.subrange(i as int + 1, n as int));
        }
        if current_time < start {
            all_chunks.push(Chunk { start: current_time, end: start });
        }
        let end = find_loud_end(silent_periods, start, total_duration);
        all_chunks.push(Chunk { start, end });
        proof {
            assert(all_chunks@ + spec_sweep(
                loud_periods@.subrange(i as int + 1, n as int),
                silent_periods@,
                total_duration,
                end,
            ) =~= spec_segment(loud_periods@, silent_periods@, total_duration));
        }
        current_time = end;
        i += 1;
    }
    proof {
        assert(loud_periods@.subrange(n as int, n as int).len() == 0);
    }
    if current_time < total_duration {
        all_chunks.push(Chunk { start: current_time, end: total_duration });
    }
    proof {
        assert(all_chunks@ =~= spec_segment(loud_periods@, silent_periods@, total_duration));
    }
    all_chunks
}

/// The shape of event sequences the sweep can tile the duration with: every
/// loud start lies within the duration, the end chosen for each loud span
/// reaches at most the next loud start, and the end of the last one at most
/// the duration. (The loud starts are then necessarily ascending.)
pub open spec fn events_valid(loud: Seq<u64>, silent: Seq<u64>, total: u64) -> bool {
    &&& forall|i: int| 0 <= i < loud.len() ==> #[trigger] loud[i] <= total
    &&& forall|i: int|
        0 <= i < loud.len() - 1 ==> spec_loud_end(silent, #[trigger] loud[i], total) <= loud[i + 1]
    &&& loud.len() > 0 ==> spec_loud_end(silent, loud[loud.len() - 1], total) <= total
}

proof fn lemma_loud_end_ge(silent: Seq<u64>, start: u64, total: u64)
    requires
        start <= total,
    ensures
        start <= spec_loud_end(silent, start, total),
    decreases silent.len(),
{
    if silent.len() == 0 {
    } else if silent[0] > start {
    } else {
        lemma_loud_end_ge(silent.drop_first(), start, total);
    }
}

proof fn lemma_sweep_tiles(loud: Seq<u64>, silent: Seq<u64>, total: u64, cursor: u64)
    requires
        cursor <= total,
        loud.len() > 0 ==> cursor <= loud[0],
        forall|i: int| 0 <= i < loud.len() ==> #[trigger] loud[i] <= total,
        forall|i: int|
            0 <= i < loud.len() - 1 ==> spec_loud_end(silent, #[trigger] loud[i], total) <= loud[i
                + 1],
        loud.len() > 0 ==> spec_loud_end(silent, loud[loud.len() - 1], total) <= total,
    ensures
        ({
            let c = spec_sweep(loud, silent, total, cursor);
            &&& (c.len() == 0 <==> (loud.len() == 0 && cursor == total))
            &&& c.len() > 0 ==> c[0].start == cursor
            &&& c.len() > 0 ==> c[c.len() - 1].end == total
            &&& forall|i: int| 0 <= i < c.len() - 1 ==> #[trigger] c[i].end == c[i + 1].start
            &&& forall|i: int| 0 <= i < c.len() ==> #[trigger] c[i].start <= c[i].end
        }),
    decreases loud.len(),
{
    let c = spec_sweep(loud, silent, total, cursor);
    if loud.len() == 0 {
    } else {
        let l = loud[0];
        let e = spec_loud_end(silent, l, total);
        lemma_loud_end_ge(silent, l, total);
        let rest = loud.drop_first();
        assert forall|i: int| 0 <= i < rest.len() implies #[trigger] rest[i] <= total by {
            assert(rest[i] == loud[i + 1]);
        }
        assert forall|i: int| 0 <= i < rest.len() - 1 implies spec_loud_end(
            silent,
            #[trigger] rest[i],
            total,
        ) <= rest[i + 1] by {
            assert(rest[i] == loud[i + 1]);
            assert(rest[i + 1] == loud[i + 2]);
            assert(spec_loud_end(silent, loud[i + 1], total) <= loud[i + 2]);
        }
        if rest.len() > 0 {
            assert(rest[rest.len() - 1] == loud[loud.len() - 1]);
            assert(rest[0] == loud[1]);
            assert(spec_loud_end(silent, loud[0], total) <= loud[1]);
        }
        lemma_sweep_tiles(rest, silent, total, e);
        let crest = spec_sweep(rest, silent, total, e);
        let pre: Seq<Chunk> = if cursor < l {
            seq![Chunk { start: cursor, end: l }]
        } else {
            Seq::empty()
        };
        let mid = seq![Chunk { start: l, end: e }];
        assert(c == pre + mid + crest);
        let p = pre.len() as int;
        assert(c.len() == p + 1 + crest.len());
        assert forall|i: int| 0 <= i < c.len() implies #[trigger] c[i].start <= c[i].end by {
            if i < p {
                assert(c[i] == pre[i]);
            } else if i == p {
                assert(c[i] == mid[0]);
            } else {
                assert(c[i] == crest[i - p - 1]);
            }
        }
        assert forall|i: int| 0 <= i < c.len() - 1 implies #[trigger] c[i].end == c[i + 1].start by {
            if i < p {
                assert(c[i] == pre[i]);
                assert(c[i + 1] == mid[0]);
            } else if i == p {
                assert(c[i] == mid[0]);
                assert(c[i + 1] == crest[0]);
            } else {
                assert(c[i] == crest[i - p - 1]);
                assert(c[i + 1] == crest[i - p]);
            }
        }
        if crest.len() > 0 {
            assert(c[c.len() - 1] == crest[crest.len() - 1]);
        } else {
            assert(rest.len() == 0 && e == total);
            assert(c[c.len() - 1] == mid[0]);
        }
        if p > 0 {
            assert(c[0] == pre[0]);
        } else {
            assert(c[0] == mid[0]);
        }
    }
}

/// Segmentation totality: whenever the events are valid and the duration is
/// positive, the chunk sequence tiles `[0, duration)` exactly: the first
/// chunk starts at zero, every later chunk begins where the previous one
/// ends and none runs backward, and the last chunk ends at the duration.
pub proof fn lemma_segmentation_totality(loud: Seq<u64>, silent: Seq<u64>, total: u64)
    requires
        events_valid(loud, silent, total),
        total > 0,
    ensures
        ({
            let c = spec_segment(loud, silent, total);
            &&& c.len() > 0
            &&& c[0].start == 0
            &&& c[c.len() - 1].end == total
            &&& forall|i: int| 0 <= i < c.len() - 1 ==> #[trigger] c[i].end == c[i + 1].start
            &&& forall|i: int| 0 <= i < c.len() ==> #[trigger] c[i].start <= c[i].end
        }),
{
    lemma_sweep_tiles(loud, silent, total, 0);
}

/// With no events at all the segmentation is a single chunk covering the
/// whole duration.
pub proof fn lemma_segment_no_events(total: u64)
    requires
        total > 0,
    ensures
        spec_segment(Seq::<u64>::empty(), Seq::<u64>::empty(), total) =~= seq![
            Chunk { start: 0, end: total },
        ],
{
}

/// Validates the events before sweeping: returns the segmentation exactly
/// when the events are valid (so the result provably tiles the duration),
/// and reports the ordering fault otherwise.
pub fn find_audio_chunks_checked(
    loud_periods: &Vec<u64>,
    silent_periods: &Vec<u64>,
    total_duration: u64,
) -> (r: Result<Vec<Chunk>, OrderingError>)
    ensures
        match r {
            Ok(chunks) => events_valid(loud_periods@, silent_periods@, total_duration) && chunks@
                == spec_segment(loud_periods@, silent_periods@, total_duration),
            Err(_) => !events_valid(loud_periods@, silent_periods@, total_duration),
        },
{
    let n = loud_periods.len();
    if n > 0 {
        let mut i: usize = 0;
        while i < n
            invariant
                i <= n,
                n == loud_periods@.len(),
                forall|k: int| 0 <= k < i ==> #[trigger] loud_periods@[k] <= total_duration,
            decreases n - i,
        {
            if loud_periods[i] > total_duration {
                return Err(OrderingError);
            }
            i += 1;
        }
        let mut j: usize = 0;
        while j < n - 1
            invariant
                j <= n - 1,
                n == loud_periods@.len(),
                n > 0,
                forall|k: int|
                    0 <= k < j ==> spec_loud_end(
                        silent_periods@,
                        #[trigger] loud_periods@[k],
                        total_duration,
                    ) <= loud_periods@[k + 1],
            decreases n - 1 - j,
        {
            let e = find_loud_end(silent_periods, loud_periods[j], total_duration);
            if e > loud_periods[j + 1] {
                return Err(OrderingError);
            }
            j += 1;
        }
        let e_last = find_loud_end(silent_periods, loud_periods[n - 1], total_duration);
        if e_last > total_duration {
            return Err(OrderingError);
        }
    }
    Ok(find_audio_chunks(loud_periods, silent_periods, total_duration))
}

proof fn lemma_filter_positive_keeps_tiling(c: Seq<Chunk>, pred: spec_fn(Chunk) -> bool)
    requires
        c.len() > 0,
        pred == (|k: Chunk| k.start < k.end),
        forall|i: int| 0 <= i < c.len() - 1 ==> #[trigger] c[i].end == c[i + 1].start,
        forall|i: int| 0 <= i < c.len() ==> #[trigger] c[i].start <= c[i].end,
    ensures
        ({
            let d = c.filter(pred);
            &&& c[0].start <= c[c.len() - 1].end
            &&& (d.len() > 0 <==> c[0].start < c[c.len() - 1].end)
            &&& d.len() > 0 ==> d[0].start == c[0].start
            &&& d.len() > 0 ==> d[d.len() - 1].end == c[c.len() - 1].end
            &&& forall|i: int| 0 <= i < d.len() - 1 ==> #[trigger] d[i].end == d[i + 1].start
            &&& forall|i: int| 0 <= i < d.len() ==> #[trigger] d[i].start < d[i].end
        }),
    decreases c.len(),
{
    reveal_with_fuel(Seq::filter, 2);
    let d = c.filter(pred);
    let x = c.last();
    if c.len() == 1 {
        if pred(x) {
            assert(d =~= seq![x]);
        } else {
            assert(d =~= Seq::<Chunk>::empty());
        }
    } else {
        let p = c.drop_last();
        assert(forall|i: int| 0 <= i < p.len() ==> #[trigger] p[i] == c[i]);
        lemma_filter_positive_keeps_tiling(p, pred);
        let dp = p.filter(pred);
        assert(p[p.len() - 1].end == x.start);
        if pred(x) {
            assert(d =~= dp.push(x));
            if dp.len() > 0 {
                assert(d[d.len() - 2] == dp[dp.len() - 1]);
                assert forall|i: int| 0 <= i < d.len() - 1 implies #[trigger] d[i].end == d[i
                    + 1].start by {
                    if i < d.len() - 2 {
                        assert(d[i] == dp[i]);
                        assert(d[i + 1] == dp[i + 1]);
                    } else {
                        assert(d[i] == dp[dp.len() - 1]);
                        assert(d[i + 1] == x);
                    }
                }
            }
        } else {
            assert(d =~= dp);
            assert(x.start == x.end);
        }
    }
}

/// Suppressing the zero-length chunks preserves the tiling: on a chunk
/// sequence that tiles `[0, total)`, the filtered sequence still starts at
/// zero, still chains without gap or overlap, still ends at the duration,
/// and every remaining chunk has strictly positive length.
pub proof fn lemma_drop_empty_preserves_tiling(c: Seq<Chunk>, total: u64)
    requires
        total > 0,
        c.len() > 0,
        c[0].start == 0,
        c[c.len() - 1].end == total,
        forall|i: int| 0 <= i < c.len() - 1 ==> #[trigger] c[i].end == c[i + 1].start,
        forall|i: int| 0 <= i < c.len() ==> #[trigger] c[i].start <= c[i].end,
    ensures
        ({
            let d = c.filter(|k: Chunk| k.start < k.end);
            &&& d.len() > 0
            &&& d[0].start == 0
            &&& d[d.len() - 1].end == total
            &&& forall|i: int| 0 <= i < d.len() - 1 ==> #[trigger] d[i].end == d[i + 1].start
            &&& forall|i: int| 0 <= i < d.len() ==> #[trigger] d[i].start < d[i].end
        }),
{
    lemma_filter_positive_keeps_tiling(c, |k: Chunk| k.start < k.end);
}

/// Keeps only the chunks with a strictly positive length, in their order:
/// the degenerate zero-length chunks are suppressed before serialization.
pub fn drop_empty_chunks(chunks: &Vec<Chunk>) -> (r: Vec<Chunk>)
    ensures
        r@ == chunks@.filter(|c: Chunk| c.start < c.end),
{
    let mut r: Vec<Chunk> = Vec::new();
    let n = chunks.len();
    let mut i: usize = 0;
    while i < n
        invariant
            i <= n,
            n == chunks@.len(),
            r@ == chunks@.take(i as int).filter(|c: Chunk| c.start < c.end),
        decreases n - i,
    {
        let c = chunks[i];
        proof {
            reveal_with_fuel(Seq::filter, 2);
            assert(chunks@.take(i as int + 1).drop_last() =~= chunks@.take(i as int));
            assert(chunks@.take(i as int + 1).last() == c);
        }
        if c.start < c.end {
            r.push(c);
        }
        i += 1;
    }
    proof {
        assert(chunks@.take(n as int) =~= chunks@);
    }
    r
}

} // verus!
