//! The training and generation orchestrators.
//!
//! Training makes one full pass over the history per scheduled chunk size,
//! partitioning the history into consecutive non-overlapping windows and
//! feeding each window as an independent sequence (the final, possibly
//! shorter, window included). Generation stitches bounded continuation
//! segments into a stream of at least the requested length; several streams
//! are produced independently, each with its own seeded draw source.

use vstd::prelude::*;

use crate::errors::MarkyError;
use crate::model::{
    ModelState, ModelV, continue_spec, count_of_spec, feed_spec, lemma_feed_counts,
    lemma_feed_spec_order, lemma_sat_n_add, pick_index, pool_of, sat_n, seed_ctx, start_records,
    total_count, window_hits,
};
use crate::rng::{Rng, draw_below, next_state};
use crate::row::{Row, RowV, TokenV, slice_rows};

verus! {

/// One full pass over `h` with chunk size `c`: consecutive non-overlapping
/// windows, each fed independently, left to right.
pub open spec fn pass_spec(m: ModelV, h: Seq<RowV>, c: nat) -> ModelV
    decreases h.len(),
{
    if h.len() == 0 || c == 0 {
        m
    } else if h.len() <= c {
        feed_spec(m, h)
    } else {
        pass_spec(feed_spec(m, h.subrange(0, c as int)), h.subrange(c as int, h.len() as int), c)
    }
}

/// Training: one pass per scheduled chunk size, in schedule order.
pub open spec fn train_spec(m: ModelV, h: Seq<RowV>, plan: Seq<usize>) -> ModelV
    decreases plan.len(),
{
    if plan.len() == 0 {
        m
    } else {
        train_spec(pass_spec(m, h, plan[0] as nat), h, plan.drop_first())
    }
}


/// How many windows of one pass with chunk size `chunk` observe the pair
/// (`c`, `t`).
pub open spec fn pass_hits(k: nat, h: Seq<RowV>, chunk: nat, c: Seq<TokenV>, t: TokenV) -> nat
    decreases h.len(),
{
    if h.len() == 0 || chunk == 0 {
        0
    } else if h.len() <= chunk {
        window_hits(k, h, c, t)
    } else {
        window_hits(k, h.subrange(0, chunk as int), c, t) + pass_hits(
            k,
            h.subrange(chunk as int, h.len() as int),
            chunk,
            c,
            t,
        )
    }
}

/// One pass never changes the model's order.
pub proof fn lemma_pass_spec_order(m: ModelV, h: Seq<RowV>, chunk: nat)
    ensures
        pass_spec(m, h, chunk).order == m.order,
    decreases h.len(),
{
    if !(h.len() == 0 || chunk == 0) {
        if h.len() <= chunk {
            lemma_feed_spec_order(m, h);
        } else {
            let head = h.subrange(0, chunk as int);
            lemma_feed_spec_order(m, head);
            lemma_pass_spec_order(
                feed_spec(m, head),
                h.subrange(chunk as int, h.len() as int),
                chunk,
            );
        }
    }
}

/// What one pass does to every count: one saturating increment per matching
/// window across its chunks, and nothing else.
pub proof fn lemma_pass_counts(m: ModelV, h: Seq<RowV>, chunk: nat, c: Seq<TokenV>, t: TokenV)
    ensures
        count_of_spec(pass_spec(m, h, chunk), c, t) == sat_n(
            count_of_spec(m, c, t),
            pass_hits(m.order, h, chunk, c, t),
        ),
    decreases h.len(),
{
    if !(h.len() == 0 || chunk == 0) {
        if h.len() <= chunk {
            lemma_feed_counts(m, h, c, t);
        } else {
            let head = h.subrange(0, chunk as int);
            let rest = h.subrange(chunk as int, h.len() as int);
            lemma_feed_counts(m, head, c, t);
            lemma_feed_spec_order(m, head);
            lemma_pass_counts(feed_spec(m, head), rest, chunk, c, t);
            lemma_sat_n_add(
                count_of_spec(m, c, t),
                window_hits(m.order, head, c, t),
                pass_hits(m.order, rest, chunk, c, t),
            );
        }
    }
}

/// Two training passes commute at the count level: running them in either
/// order leaves the same count for every (context, successor) pair. With
/// `lemma_feed_order_irrelevant` this is the independence the pass
/// structure rests on: window feeds and whole passes may be reordered (or
/// run concurrently and merged) without changing the final counts.
pub proof fn lemma_pass_order_irrelevant(
    m: ModelV,
    h: Seq<RowV>,
    chunk1: nat,
    chunk2: nat,
    c: Seq<TokenV>,
    t: TokenV,
)
    ensures
        count_of_spec(pass_spec(pass_spec(m, h, chunk1), h, chunk2), c, t) == count_of_spec(
            pass_spec(pass_spec(m, h, chunk2), h, chunk1),
            c,
            t,
        ),
{
    lemma_pass_spec_order(m, h, chunk1);
    lemma_pass_spec_order(m, h, chunk2);
    let n0 = count_of_spec(m, c, t);
    let h1 = pass_hits(m.order, h, chunk1, c, t);
    let h2 = pass_hits(m.order, h, chunk2, c, t);
    lemma_pass_counts(m, h, chunk1, c, t);
    lemma_pass_counts(pass_spec(m, h, chunk1), h, chunk2, c, t);
    lemma_pass_counts(m, h, chunk2, c, t);
    lemma_pass_counts(pass_spec(m, h, chunk2), h, chunk1, c, t);
    lemma_sat_n_add(n0, h1, h2);
    lemma_sat_n_add(n0, h2, h1);
}

/// Training is deterministic: the same history and the same schedule, from
/// equal starting models, yield identical trained count tables. (Training
/// draws no randomness; `train` pins its result to `train_spec` exactly.)
pub proof fn lemma_training_deterministic(m1: ModelV, m2: ModelV, h: Seq<RowV>, plan: Seq<usize>)
    requires
        m1 == m2,
    ensures
        train_spec(m1, h, plan) == train_spec(m2, h, plan),
{
}

/// Drives the scheduled training passes over the full history.
pub fn train(model: &mut ModelState, history: &Vec<Row>, plan: &Vec<usize>)
    requires
        old(model).wf(),
        forall|i: int| 0 <= i < plan@.len() ==> #[trigger] plan@[i] >= 1,
    ensures
        final(model)@ == train_spec(old(model)@, history.deep_view(), plan@),
        final(model).wf(),
        final(model)@.order == old(model)@.order,
        old(model)@.trained() ==> final(model)@.trained(),
        history@.len() >= 1 && plan@.len() >= 1 ==> final(model)@.trained(),
{
    let ghost m0 = model@;
    let ghost hv = history.deep_view();
    let ghost pv = plan@;
    proof {
        assert(pv.skip(0) =~= pv);
    }
    let mut p: usize = 0;
    while p < plan.len()
        invariant
            model.wf(),
            hv == history.deep_view(),
            hv.len() == history@.len(),
            pv == plan@,
            0 <= p <= pv.len(),
            forall|i: int| 0 <= i < pv.len() ==> #[trigger] pv[i] >= 1,
            train_spec(m0, hv, pv) == train_spec(model@, hv, pv.skip(p as int)),
            model@.order == m0.order,
            m0.trained() ==> model@.trained(),
            hv.len() >= 1 && p >= 1 ==> model@.trained(),
        decreases pv.len() - p,
    {
        let c = plan[p];
        let ghost mp = model@;
        proof {
            assert(hv.skip(0) =~= hv);
        }
        let mut off: usize = 0;
        while off < history.len()
            invariant
                model.wf(),
                hv == history.deep_view(),
                hv.len() == history@.len(),
                c >= 1,
                0 <= off <= hv.len(),
                pass_spec(mp, hv, c as nat) == pass_spec(model@, hv.skip(off as int), c as nat),
                model@.order == mp.order,
                mp.trained() ==> model@.trained(),
                off >= 1 ==> model@.trained(),
            decreases hv.len() - off,
        {
            let remaining = history.len() - off;
            let take = if c < remaining {
                c
            } else {
                remaining
            };
            let end = off + take;
            let win = slice_rows(history, off, end);
            let ghost mb = model@;
            let ghost rest = hv.skip(off as int);
            model.feed(&win);
            proof {
                assert(win.deep_view() == hv.subrange(off as int, end as int));
                assert(rest.len() == hv.len() - off);
                if rest.len() <= c {
                    assert(end == hv.len());
                    assert(win.deep_view() =~= rest);
                    assert(pass_spec(mb, rest, c as nat) == feed_spec(mb, rest));
                    assert(hv.skip(end as int) =~= Seq::<RowV>::empty());
                    assert(pass_spec(model@, hv.skip(end as int), c as nat) == model@);
                } else {
                    assert(end == off + c);
                    assert(win.deep_view() =~= rest.subrange(0, c as int));
                    assert(rest.subrange(c as int, rest.len() as int) =~= hv.skip(end as int));
                    assert(pass_spec(mb, rest, c as nat) == pass_spec(
                        feed_spec(mb, rest.subrange(0, c as int)),
                        rest.subrange(c as int, rest.len() as int),
                        c as nat,
                    ));
                }
                assert(win.deep_view().len() >= 1);
            }
            off = end;
        }
        proof {
            assert(hv.skip(off as int) =~= Seq::<RowV>::empty());
            assert(pass_spec(model@, hv.skip(off as int), c as nat) == model@);
            assert(pv.skip(p as int).len() >= 1);
            assert(pv.skip(p as int)[0] == pv[p as int]);
            assert(pv.skip(p as int).drop_first() =~= pv.skip(p + 1));
            assert(train_spec(mp, hv, pv.skip(p as int)) == train_spec(
                pass_spec(mp, hv, pv[p as int] as nat),
                hv,
                pv.skip(p + 1),
            ));
        }
        p += 1;
    }
    proof {
        assert(pv.skip(p as int) =~= Seq::<usize>::empty());
        assert(train_spec(model@, hv, pv.skip(p as int)) == model@);
    }
}


/// The token the seed draw picks from the start context's records.
pub open spec fn start_pick(m: ModelV, s: u64) -> TokenV {
    let records = start_records(m);
    records[pick_index(records, draw_below(s, total_count(records) as u128) as int)].token
}

/// The rows a stream accumulates and the draw state it leaves, continuing
/// from `seed` until at least `target` rows are gathered. Segments are
/// appended whole, so the result may overshoot by at most one segment.
pub open spec fn stream_spec(
    m: ModelV,
    seed: RowV,
    s: u64,
    target: int,
    max_segment: nat,
) -> (Seq<RowV>, u64)
    decreases (if target > 0 {
        target
    } else {
        0
    }),
{
    if target <= 0 {
        (Seq::empty(), s)
    } else {
        let seg = continue_spec(m, seed_ctx(m.order, seed), Seq::empty(), s, max_segment);
        if seg.0.len() == 0 {
            (seg.0, seg.1)
        } else {
            let rest = stream_spec(m, seg.0.last(), seg.1, target - seg.0.len(), max_segment);
            (seg.0 + rest.0, rest.1)
        }
    }
}

/// One whole output stream from draw state `s`: the seed draw, then the
/// stitched continuations.
pub open spec fn stream_of(m: ModelV, s: u64, target: int, max_segment: nat) -> (Seq<RowV>, u64) {
    match start_pick(m, s) {
        TokenV::Row(seed) => stream_spec(
            m,
            seed,
            next_state(next_state(s)),
            target,
            max_segment,
        ),
        TokenV::Start => (Seq::empty(), s),
        TokenV::End => (Seq::empty(), s),
    }
}

/// Builds one output stream: a seed row from the start context, then
/// continuation segments appended whole until at least `target_len` rows are
/// accumulated (the stream may overshoot by at most one segment; no
/// truncation). Fails exactly when the model is untrained, in which case no
/// rows are produced.
pub fn generate_stream(
    model: &ModelState,
    target_len: usize,
    max_segment: usize,
    rng: &mut Rng,
) -> (r: Result<Vec<Row>, MarkyError>)
    requires
        model.wf(),
        max_segment >= 1,
        target_len + max_segment <= usize::MAX,
    ensures
        r.is_ok() <==> model@.trained(),
        r matches Err(e) ==> e == MarkyError::UntrainedModel,
        r.is_err() ==> final(rng)@ == old(rng)@,
        r matches Ok(rows) ==> rows@.len() >= target_len,
        r matches Ok(rows) ==> forall|w: int|
            0 <= w < rows.deep_view().len() ==> pool_of(model@.table).contains(
                #[trigger] rows.deep_view()[w],
            ),
        r matches Ok(rows) ==> ({
            let res = stream_of(model@, old(rng)@, target_len as int, max_segment as nat);
            rows.deep_view() == res.0 && final(rng)@ == res.1
        }),
{
    let ghost m = model@;
    let ghost s0 = rng@;
    let mut seed: Row = match model.start(rng) {
        Ok(row) => row,
        Err(e) => {
            return Err(e);
        },
    };
    proof {
        assert(start_pick(m, s0) == TokenV::Row(seed@));
    }
    let mut out: Vec<Row> = Vec::new();
    proof {
        assert(out.deep_view() =~= Seq::<RowV>::empty());
        assert(out.deep_view() + stream_spec(
            m,
            seed@,
            rng@,
            target_len - out@.len(),
            max_segment as nat,
        ).0 =~= stream_spec(m, seed@, rng@, target_len as int, max_segment as nat).0);
    }
    while out.len() < target_len
        invariant
            model.wf(),
            model@.trained(),
            model@ == m,
            max_segment >= 1,
            target_len + max_segment <= usize::MAX,
            out@.len() <= target_len + max_segment,
            stream_of(m, s0, target_len as int, max_segment as nat).0 == out.deep_view()
                + stream_spec(m, seed@, rng@, target_len - out@.len(), max_segment as nat).0,
            stream_of(m, s0, target_len as int, max_segment as nat).1 == stream_spec(
                m,
                seed@,
                rng@,
                target_len - out@.len(),
                max_segment as nat,
            ).1,
            forall|w: int|
                0 <= w < out.deep_view().len() ==> pool_of(model@.table).contains(
                    #[trigger] out.deep_view()[w],
                ),
        decreases (if out@.len() < target_len {
            target_len - out@.len()
        } else {
            0int
        }),
    {
        let ghost s_head = rng@;
        let ghost seed_head = seed@;
        let ghost rem = target_len - out@.len();
        let mut seg = model.continue_from(&seed, rng, max_segment);
        let ghost segv = seg.deep_view();
        let ghost ob = out.deep_view();
        proof {
            let spec_seg = continue_spec(
                m,
                seed_ctx(m.order, seed_head),
                Seq::empty(),
                s_head,
                max_segment as nat,
            );
            assert(segv == spec_seg.0);
            assert(rng@ == spec_seg.1);
            assert(stream_spec(m, seed_head, s_head, rem, max_segment as nat) == (
                spec_seg.0 + stream_spec(
                    m,
                    spec_seg.0.last(),
                    spec_seg.1,
                    rem - spec_seg.0.len(),
                    max_segment as nat,
                ).0,
                stream_spec(
                    m,
                    spec_seg.0.last(),
                    spec_seg.1,
                    rem - spec_seg.0.len(),
                    max_segment as nat,
                ).1,
            ));
        }
        seed = seg[seg.len() - 1].duplicate();
        proof {
            assert(seed@ == segv.last());
        }
        out.append(&mut seg);
        proof {
            assert(out.deep_view().len() == ob.len() + segv.len());
            assert forall|w: int|
                0 <= w < out.deep_view().len() implies pool_of(model@.table).contains(
                #[trigger] out.deep_view()[w],
            ) by {
                if w < ob.len() {
                    assert(out.deep_view()[w] == ob[w]);
                } else {
                    assert(out.deep_view()[w] == segv[w - ob.len()]);
                }
            }
            assert(out.deep_view() =~= ob + segv);
            assert(ob + (segv + stream_spec(
                m,
                segv.last(),
                rng@,
                rem - segv.len(),
                max_segment as nat,
            ).0) =~= (ob + segv) + stream_spec(
                m,
                segv.last(),
                rng@,
                rem - segv.len(),
                max_segment as nat,
            ).0);
        }
    }
    proof {
        assert(stream_spec(m, seed@, rng@, target_len - out@.len(), max_segment as nat) == (
            Seq::<RowV>::empty(),
            rng@,
        ));
        assert(out.deep_view() + Seq::<RowV>::empty() =~= out.deep_view());
    }
    Ok(out)
}

/// The seed of stream `i`: the base seed spread by the stream index.
pub open spec fn stream_seed(base: u64, i: u64) -> u64 {
    base ^ i.wrapping_mul(0x9e37_79b9_7f4a_7c15)
}

/// Produces `file_count` independent streams. Each stream draws from its own
/// generator, seeded from `base_seed` and the stream's index, so streams are
/// uncorrelated; the model is read-only throughout. Fails exactly when the
/// model is untrained, before any stream is produced.
pub fn generate_streams(
    model: &ModelState,
    target_len: usize,
    max_segment: usize,
    file_count: usize,
    base_seed: u64,
) -> (r: Result<Vec<Vec<Row>>, MarkyError>)
    requires
        model.wf(),
        max_segment >= 1,
        target_len + max_segment <= usize::MAX,
    ensures
        r.is_ok() <==> model@.trained(),
        r matches Err(e) ==> e == MarkyError::UntrainedModel,
        r matches Ok(streams) ==> streams@.len() == file_count,
        r matches Ok(streams) ==> forall|i: int|
            0 <= i < streams@.len() ==> (#[trigger] streams@[i])@.len() >= target_len,
        r matches Ok(streams) ==> forall|i: int|
            0 <= i < streams@.len() ==> (#[trigger] streams@[i]).deep_view() == stream_of(
                model@,
                stream_seed(base_seed, i as u64),
                target_len as int,
                max_segment as nat,
            ).0,
{
    if !model.is_trained() {
        return Err(MarkyError::UntrainedModel);
    }
    let mut streams: Vec<Vec<Row>> = Vec::new();
    let mut i: usize = 0;
    while i < file_count
        invariant
            model.wf(),
            model@.trained(),
            max_segment >= 1,
            target_len + max_segment <= usize::MAX,
            streams@.len() == i <= file_count,
            forall|w: int| 0 <= w < i ==> (#[trigger] streams@[w])@.len() >= target_len,
            forall|w: int|
                0 <= w < i ==> (#[trigger] streams@[w]).deep_view() == stream_of(
                    model@,
                    stream_seed(base_seed, w as u64),
                    target_len as int,
                    max_segment as nat,
                ).0,
        decreases file_count - i,
    {
        let this_seed = base_seed ^ ((i as u64).wrapping_mul(0x9e37_79b9_7f4a_7c15));
        proof {
            assert(this_seed == stream_seed(base_seed, i as u64));
        }
        let mut rng = Rng::new(this_seed);
        match generate_stream(model, target_len, max_segment, &mut rng) {
            Ok(rows) => {
                streams.push(rows);
            },
            Err(_) => {
                proof {
                    assert(false);
                }
                return Err(MarkyError::UntrainedModel);
            },
        }
        i += 1;
    }
    Ok(streams)
}

} // verus!
