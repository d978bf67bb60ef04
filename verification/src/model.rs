//! The order-k Markov model: a frequency table from contexts (the last k
//! tokens) to successor counts, with the start/end sentinels as first-class
//! tokens.
//!
//! The model is created empty with a fixed order (k = 0 is coerced to 1),
//! mutated only by `feed`, and read-only during generation. Each `feed` call
//! treats its input as one bounded sequence: the context is padded at the
//! front with start sentinels and the sequence is closed with one end
//! sentinel, so contexts never span two separate `feed` calls.

use vstd::prelude::*;

use crate::errors::MarkyError;
use crate::rng::{Rng, draw_below, next_state};
use crate::row::{Row, RowV, Token, TokenV, context_eq, token_eq};

verus! {

/// One recorded successor of a context, with its occurrence count.
pub struct SuccessorCount {
    pub token: Token,
    pub count: u64,
}

/// The mathematical value of a recorded successor.
#[verifier::ext_equal]
pub struct SuccV {
    pub token: TokenV,
    pub count: nat,
}

impl View for SuccessorCount {
    type V = SuccV;

    open spec fn view(&self) -> SuccV {
        SuccV { token: self.token@, count: self.count as nat }
    }
}

impl DeepView for SuccessorCount {
    type V = SuccV;

    open spec fn deep_view(&self) -> SuccV {
        self.view()
    }
}

/// One context of the model with every successor recorded for it, in
/// insertion order.
pub struct ContextEntry {
    pub context: Vec<Token>,
    pub successors: Vec<SuccessorCount>,
}

/// The mathematical value of a context entry.
#[verifier::ext_equal]
pub struct EntryV {
    pub ctx: Seq<TokenV>,
    pub succs: Seq<SuccV>,
}

impl View for ContextEntry {
    type V = EntryV;

    open spec fn view(&self) -> EntryV {
        EntryV { ctx: self.context.deep_view(), succs: self.successors.deep_view() }
    }
}

impl DeepView for ContextEntry {
    type V = EntryV;

    open spec fn deep_view(&self) -> EntryV {
        self.view()
    }
}

/// The mathematical value of a model: its order and its count table, in
/// insertion order.
#[verifier::ext_equal]
pub struct ModelV {
    pub order: nat,
    pub table: Seq<EntryV>,
}

/// The index of the first entry recording `ctx`, if any.
pub open spec fn find_ctx(table: Seq<EntryV>, ctx: Seq<TokenV>) -> Option<int>
    decreases table.len(),
{
    if table.len() == 0 {
        None
    } else if table[0].ctx == ctx {
        Some(0)
    } else {
        match find_ctx(table.drop_first(), ctx) {
            Some(i) => Some(i + 1),
            None => None,
        }
    }
}

/// The index of the first successor record for `t`, if any.
pub open spec fn find_succ(succs: Seq<SuccV>, t: TokenV) -> Option<int>
    decreases succs.len(),
{
    if succs.len() == 0 {
        None
    } else if succs[0].token == t {
        Some(0)
    } else {
        match find_succ(succs.drop_first(), t) {
            Some(i) => Some(i + 1),
            None => None,
        }
    }
}

/// `find_ctx` returns the first matching index, and `None` only when no
/// entry matches.
pub proof fn lemma_find_ctx(table: Seq<EntryV>, ctx: Seq<TokenV>)
    ensures
        match find_ctx(table, ctx) {
            Some(i) => 0 <= i < table.len() && table[i].ctx == ctx && (forall|j: int|
                0 <= j < i ==> (#[trigger] table[j]).ctx != ctx),
            None => forall|j: int| 0 <= j < table.len() ==> (#[trigger] table[j]).ctx != ctx,
        },
    decreases table.len(),
{
    if table.len() > 0 && table[0].ctx != ctx {
        let rest = table.drop_first();
        lemma_find_ctx(rest, ctx);
        match find_ctx(rest, ctx) {
            Some(i) => {
                assert(rest[i] == table[i + 1]);
                assert forall|j: int| 0 <= j < i + 1 implies (#[trigger] table[j]).ctx != ctx by {
                    if j > 0 {
                        assert(rest[j - 1] == table[j]);
                    }
                }
            },
            None => {
                assert forall|j: int|
                    0 <= j < table.len() implies (#[trigger] table[j]).ctx != ctx by {
                    if j > 0 {
                        assert(rest[j - 1] == table[j]);
                    }
                }
            },
        }
    }
}

/// `find_succ` returns the first matching index, and `None` only when no
/// record matches.
pub proof fn lemma_find_succ(succs: Seq<SuccV>, t: TokenV)
    ensures
        match find_succ(succs, t) {
            Some(i) => 0 <= i < succs.len() && succs[i].token == t && (forall|j: int|
                0 <= j < i ==> (#[trigger] succs[j]).token != t),
            None => forall|j: int| 0 <= j < succs.len() ==> (#[trigger] succs[j]).token != t,
        },
    decreases succs.len(),
{
    if succs.len() > 0 && succs[0].token != t {
        let rest = succs.drop_first();
        lemma_find_succ(rest, t);
        match find_succ(rest, t) {
            Some(i) => {
                assert(rest[i] == succs[i + 1]);
                assert forall|j: int| 0 <= j < i + 1 implies (#[trigger] succs[j]).token != t by {
                    if j > 0 {
                        assert(rest[j - 1] == succs[j]);
                    }
                }
            },
            None => {
                assert forall|j: int|
                    0 <= j < succs.len() implies (#[trigger] succs[j]).token != t by {
                    if j > 0 {
                        assert(rest[j - 1] == succs[j]);
                    }
                }
            },
        }
    }
}

/// The all-start context of an order-k model.
pub open spec fn start_ctx(k: nat) -> Seq<TokenV> {
    Seq::new(k, |i: int| TokenV::Start)
}

/// A fed sequence as the model sees it: k start sentinels, the rows, one end
/// sentinel.
pub open spec fn padded(k: nat, rows: Seq<RowV>) -> Seq<TokenV> {
    start_ctx(k) + rows.map_values(|r: RowV| TokenV::Row(r)) + seq![TokenV::End]
}

/// Records one (context, successor) observation: a new count of one, or one
/// more on the existing record (counts saturate at the machine limit).
pub open spec fn bump(m: ModelV, ctx: Seq<TokenV>, t: TokenV) -> ModelV {
    match find_ctx(m.table, ctx) {
        None => ModelV {
            order: m.order,
            table: m.table.push(EntryV { ctx, succs: seq![SuccV { token: t, count: 1 }] }),
        },
        Some(i) => {
            let e = m.table[i];
            match find_succ(e.succs, t) {
                None => ModelV {
                    order: m.order,
                    table: m.table.update(
                        i,
                        EntryV { ctx: e.ctx, succs: e.succs.push(SuccV { token: t, count: 1 }) },
                    ),
                },
                Some(j) => {
                    let s = e.succs[j];
                    let bumped = if s.count < u64::MAX {
                        (s.count + 1) as nat
                    } else {
                        s.count
                    };
                    ModelV {
                        order: m.order,
                        table: m.table.update(
                            i,
                            EntryV {
                                ctx: e.ctx,
                                succs: e.succs.update(j, SuccV { token: s.token, count: bumped }),
                            },
                        ),
                    }
                },
            }
        },
    }
}

/// Records every window of `toks` from position `i` on: context `k` wide,
/// then its successor.
pub open spec fn feed_from(m: ModelV, toks: Seq<TokenV>, k: nat, i: int) -> ModelV
    decreases toks.len() - i,
{
    if i < 0 || i + k >= toks.len() {
        m
    } else {
        feed_from(bump(m, toks.subrange(i, i + k), toks[i + k]), toks, k, i + 1)
    }
}

/// What one `feed` call does to the model: a no-op on an empty sequence,
/// otherwise every window of the padded sequence is recorded in order.
pub open spec fn feed_spec(m: ModelV, rows: Seq<RowV>) -> ModelV {
    if rows.len() == 0 {
        m
    } else {
        feed_from(m, padded(m.order, rows), m.order, 0)
    }
}

/// Whether the model records context `c`.
pub open spec fn has_ctx(m: ModelV, c: Seq<TokenV>) -> bool {
    exists|i: int| 0 <= i < m.table.len() && (#[trigger] m.table[i]).ctx == c
}

/// Well-formedness of one entry of an order-k model: the context is exactly
/// k tokens wide (the order-k invariant), it records at least one successor,
/// counts are positive, and no successor token repeats.
pub open spec fn entry_wf(e: EntryV, k: nat) -> bool {
    &&& e.ctx.len() == k
    &&& e.succs.len() >= 1
    &&& forall|j: int| 0 <= j < e.succs.len() ==> (#[trigger] e.succs[j]).count >= 1
    &&& forall|j: int| 0 <= j < e.succs.len() ==> !((#[trigger] e.succs[j]).token is Start)
    &&& forall|j1: int, j2: int|
        0 <= j1 < j2 < e.succs.len() ==> (#[trigger] e.succs[j1]).token != (#[trigger] e.succs[j2]).token
}

impl ModelV {
    /// Well-formedness: a positive order, well-formed entries, no context
    /// recorded twice, and every successor of the all-start context a row
    /// (never a sentinel).
    pub open spec fn wf(self) -> bool {
        &&& self.order >= 1
        &&& forall|i: int|
            0 <= i < self.table.len() ==> entry_wf(#[trigger] self.table[i], self.order)
        &&& forall|i1: int, i2: int|
            0 <= i1 < i2 < self.table.len() ==> (#[trigger] self.table[i1]).ctx != (
            #[trigger] self.table[i2]).ctx
        &&& forall|i: int, j: int|
            0 <= i < self.table.len() && (#[trigger] self.table[i]).ctx == start_ctx(self.order)
                && 0 <= j < self.table[i].succs.len() ==> (#[trigger] self.table[i].succs[j]).token
                is Row
    }

    /// Whether any training data has reached the model: the all-start
    /// context is recorded.
    pub open spec fn trained(self) -> bool {
        has_ctx(self, start_ctx(self.order))
    }
}

/// Recording one observation preserves well-formedness, the order, and every
/// recorded context, and records the observed context.
pub proof fn lemma_bump_wf(m: ModelV, ctx: Seq<TokenV>, t: TokenV)
    requires
        m.wf(),
        ctx.len() == m.order,
        !(t is Start),
        ctx == start_ctx(m.order) ==> t is Row,
    ensures
        bump(m, ctx, t).wf(),
        bump(m, ctx, t).order == m.order,
        forall|c: Seq<TokenV>| has_ctx(m, c) ==> #[trigger] has_ctx(bump(m, ctx, t), c),
        has_ctx(bump(m, ctx, t), ctx),
{
    lemma_find_ctx(m.table, ctx);
    let b = bump(m, ctx, t);
    match find_ctx(m.table, ctx) {
        None => {
            let e = EntryV { ctx, succs: seq![SuccV { token: t, count: 1 }] };
            assert(b.table == m.table.push(e));
            assert(b.table[m.table.len() as int] == e);
            assert(forall|i: int| 0 <= i < m.table.len() ==> #[trigger] b.table[i] == m.table[i]);
            assert(entry_wf(e, m.order));
            assert forall|c: Seq<TokenV>| has_ctx(m, c) implies #[trigger] has_ctx(b, c) by {
                let i = choose|i: int| 0 <= i < m.table.len() && (#[trigger] m.table[i]).ctx == c;
                assert(b.table[i].ctx == c);
            }
        },
        Some(i) => {
            let e = m.table[i];
            lemma_find_succ(e.succs, t);
            match find_succ(e.succs, t) {
                None => {
                    let e2 = EntryV { ctx: e.ctx, succs: e.succs.push(SuccV { token: t, count: 1 }) };
                    assert(b.table == m.table.update(i, e2));
                    assert(forall|j: int|
                        0 <= j < m.table.len() && j != i ==> #[trigger] b.table[j] == m.table[j]);
                    assert(entry_wf(e2, m.order)) by {
                        assert(forall|j: int|
                            0 <= j < e.succs.len() ==> #[trigger] e2.succs[j] == e.succs[j]);
                        assert(e2.succs[e.succs.len() as int].token == t);
                    }
                    if ctx == start_ctx(m.order) {
                        assert(forall|j: int|
                            0 <= j < e.succs.len() ==> (#[trigger] e2.succs[j]).token == e.succs[j].token);
                    }
                    assert forall|c: Seq<TokenV>| has_ctx(m, c) implies #[trigger] has_ctx(b, c) by {
                        let w = choose|w: int|
                            0 <= w < m.table.len() && (#[trigger] m.table[w]).ctx == c;
                        assert(b.table[w].ctx == c);
                    }
                    assert(b.table[i].ctx == ctx);
                },
                Some(j) => {
                    let s = e.succs[j];
                    let bumped = if s.count < u64::MAX {
                        (s.count + 1) as nat
                    } else {
                        s.count
                    };
                    let e2 = EntryV {
                        ctx: e.ctx,
                        succs: e.succs.update(j, SuccV { token: s.token, count: bumped }),
                    };
                    assert(b.table == m.table.update(i, e2));
                    assert(forall|w: int|
                        0 <= w < m.table.len() && w != i ==> #[trigger] b.table[w] == m.table[w]);
                    assert(entry_wf(e2, m.order)) by {
                        assert(forall|w: int|
                            0 <= w < e.succs.len() && w != j ==> #[trigger] e2.succs[w] == e.succs[w]);
                        assert(e2.succs[j].token == e.succs[j].token);
                        assert(e2.succs[j].count >= 1);
                    }
                    if ctx == start_ctx(m.order) {
                        assert(forall|w: int|
                            0 <= w < e.succs.len() ==> (#[trigger] e2.succs[w]).token == e.succs[w].token);
                    }
                    assert forall|c: Seq<TokenV>| has_ctx(m, c) implies #[trigger] has_ctx(b, c) by {
                        let w = choose|w: int|
                            0 <= w < m.table.len() && (#[trigger] m.table[w]).ctx == c;
                        assert(b.table[w].ctx == c);
                    }
                    assert(b.table[i].ctx == ctx);
                },
            }
        },
    }
}

/// Feeding windows from any position of a padded non-empty sequence
/// preserves well-formedness, the order, and every recorded context.
pub proof fn lemma_feed_from_wf(m: ModelV, rows: Seq<RowV>, i: int)
    requires
        m.wf(),
        rows.len() >= 1,
        i >= 0,
    ensures
        feed_from(m, padded(m.order, rows), m.order, i).wf(),
        feed_from(m, padded(m.order, rows), m.order, i).order == m.order,
        forall|c: Seq<TokenV>|
            has_ctx(m, c) ==> #[trigger] has_ctx(feed_from(m, padded(m.order, rows), m.order, i), c),
    decreases padded(m.order, rows).len() - i,
{
    let k = m.order;
    let toks = padded(k, rows);
    if i + k < toks.len() {
        let ctx = toks.subrange(i, i + k);
        let t = toks[i + k];
        assert(toks.len() == k + rows.len() + 1);
        if ctx == start_ctx(k) {
            if i > 0 {
                assert(ctx[k - 1] == toks[i + k - 1]);
                assert(toks[i + k - 1] == rows.map_values(|r: RowV| TokenV::Row(r))[i - 1 + k - k]) by {
                    assert(k <= i + k - 1 < k + rows.len());
                }
                assert(ctx[k - 1] is Row);
                assert(start_ctx(k)[k - 1] == TokenV::Start);
                assert(false);
            } else {
                assert(t == toks[k as int]);
                assert(toks[k as int] == rows.map_values(|r: RowV| TokenV::Row(r))[0]);
                assert(t is Row);
            }
        }
        assert(!(t is Start)) by {
            if i + k < k + rows.len() {
                assert(t == rows.map_values(|r: RowV| TokenV::Row(r))[i + k - k]);
                assert(t is Row);
            } else {
                assert(i + k == k + rows.len());
                assert(t == seq![TokenV::End][0]);
            }
        }
        lemma_bump_wf(m, ctx, t);
        let b = bump(m, ctx, t);
        assert(padded(b.order, rows) == toks);
        lemma_feed_from_wf(b, rows, i + 1);
    }
}

/// One `feed` preserves well-formedness, the order, and every recorded
/// context; a non-empty feed trains the model, and a trained model stays
/// trained.
pub proof fn lemma_feed_spec_wf(m: ModelV, rows: Seq<RowV>)
    requires
        m.wf(),
    ensures
        feed_spec(m, rows).wf(),
        feed_spec(m, rows).order == m.order,
        forall|c: Seq<TokenV>| has_ctx(m, c) ==> #[trigger] has_ctx(feed_spec(m, rows), c),
        rows.len() >= 1 ==> feed_spec(m, rows).trained(),
        m.trained() ==> feed_spec(m, rows).trained(),
{
    if rows.len() == 0 {
    } else {
        let k = m.order;
        let toks = padded(k, rows);
        assert(toks.len() == k + rows.len() + 1);
        let ctx0 = toks.subrange(0, k as int);
        assert(ctx0 =~= start_ctx(k)) by {
            assert(forall|j: int| 0 <= j < k ==> toks[j] == TokenV::Start);
        }
        let t0 = toks[k as int];
        assert(t0 == rows.map_values(|r: RowV| TokenV::Row(r))[0]);
        lemma_bump_wf(m, ctx0, t0);
        let b = bump(m, ctx0, t0);
        assert(padded(b.order, rows) == toks);
        lemma_feed_from_wf(b, rows, 1);
        assert(feed_from(m, toks, k, 0) == feed_from(b, toks, k, 1));
        assert(has_ctx(b, start_ctx(k)));
        assert(has_ctx(feed_from(b, toks, k, 1), start_ctx(k)));
    }
}

/// Every recorded context of a well-formed order-k model has exactly k
/// elements.
pub proof fn lemma_order_k(m: ModelV)
    requires
        m.wf(),
    ensures
        forall|i: int| 0 <= i < m.table.len() ==> (#[trigger] m.table[i]).ctx.len() == m.order,
{
    assert forall|i: int|
        0 <= i < m.table.len() implies (#[trigger] m.table[i]).ctx.len() == m.order by {
        assert(entry_wf(m.table[i], m.order));
    }
}

/// The recorded occurrence count for a (context, successor) pair; zero where
/// the pair was never observed.
pub open spec fn count_of_spec(m: ModelV, c: Seq<TokenV>, t: TokenV) -> nat {
    match find_ctx(m.table, c) {
        None => 0,
        Some(i) => match find_succ(m.table[i].succs, t) {
            None => 0,
            Some(j) => m.table[i].succs[j].count,
        },
    }
}

/// Removing and re-inserting at the same position is a point update.
proof fn lemma_remove_insert<A>(s: Seq<A>, i: int, x: A)
    requires
        0 <= i < s.len(),
    ensures
        s.remove(i).insert(i, x) =~= s.update(i, x),
{
}

/// The trained model: a fixed order and the context table, in insertion
/// order.
pub struct ModelState {
    order: usize,
    table: Vec<ContextEntry>,
}

impl View for ModelState {
    type V = ModelV;

    closed spec fn view(&self) -> ModelV {
        ModelV { order: self.order as nat, table: self.table.deep_view() }
    }
}

/// Builds the all-start context of width `k`.
fn start_context(k: usize) -> (r: Vec<Token>)
    ensures
        r.deep_view() == start_ctx(k as nat),
{
    let mut r: Vec<Token> = Vec::new();
    let mut i: usize = 0;
    while i < k
        invariant
            0 <= i <= k,
            r.deep_view() =~= start_ctx(i as nat),
        decreases k - i,
    {
        let ghost before = r.deep_view();
        r.push(Token::Start);
        proof {
            assert(r.deep_view() =~= before.push(TokenV::Start));
            assert(r.deep_view() =~= start_ctx((i + 1) as nat));
        }
        i += 1;
    }
    proof {
        assert(r.deep_view() =~= start_ctx(k as nat));
    }
    r
}

/// Copies the window `toks[from..to]`.
fn window(toks: &Vec<Token>, from: usize, to: usize) -> (r: Vec<Token>)
    requires
        from <= to <= toks@.len(),
    ensures
        r.deep_view() == toks.deep_view().subrange(from as int, to as int),
{
    let mut r: Vec<Token> = Vec::new();
    let mut i: usize = from;
    while i < to
        invariant
            from <= i <= to <= toks@.len(),
            r.deep_view() =~= toks.deep_view().subrange(from as int, i as int),
        decreases to - i,
    {
        let ghost before = r.deep_view();
        r.push(toks[i].duplicate());
        proof {
            assert(r.deep_view() =~= before.push(toks@[i as int].deep_view()));
            assert(r.deep_view() =~= toks.deep_view().subrange(from as int, i + 1));
        }
        i += 1;
    }
    proof {
        assert(r.deep_view() =~= toks.deep_view().subrange(from as int, to as int));
    }
    r
}

fn find_succ_idx(succs: &Vec<SuccessorCount>, t: &Token) -> (r: Option<usize>)
    ensures
        match r {
            Some(j) => find_succ(succs.deep_view(), t@) == Some(j as int),
            None => find_succ(succs.deep_view(), t@) == None::<int>,
        },
{
    let ghost sv = succs.deep_view();
    let ghost tv = t@;
    let mut i: usize = 0;
    while i < succs.len()
        invariant
            0 <= i <= succs@.len(),
            sv == succs.deep_view(),
            tv == t@,
            forall|j: int| 0 <= j < i ==> (#[trigger] sv[j]).token != tv,
        decreases succs@.len() - i,
    {
        if token_eq(&succs[i].token, t) {
            proof {
                lemma_find_succ(sv, tv);
                assert(sv[i as int].token == tv);
                match find_succ(sv, tv) {
                    Some(w) => {
                        if w < i {
                            assert(sv[w].token != tv);
                        }
                        if w > i {
                            assert(sv[i as int].token != tv);
                        }
                    },
                    None => {
                        assert(sv[i as int].token != tv);
                    },
                }
            }
            return Some(i);
        }
        proof {
            assert(sv[i as int].token != tv);
        }
        i += 1;
    }
    proof {
        lemma_find_succ(sv, tv);
        match find_succ(sv, tv) {
            Some(w) => {
                assert(sv[w].token != tv);
            },
            None => {},
        }
    }
    None
}

impl ModelState {
    /// Well-formedness of the model's table.
    pub open spec fn wf(&self) -> bool {
        self@.wf()
    }

    /// Creates an empty model of the given order; order zero is coerced to
    /// one.
    pub fn new(order: usize) -> (r: ModelState)
        ensures
            r.wf(),
            r@.table == Seq::<EntryV>::empty(),
            r@.order == if order == 0 {
                1nat
            } else {
                order as nat
            },
            !r@.trained(),
    {
        let k: usize = if order == 0 {
            1
        } else {
            order
        };
        let r = ModelState { order: k, table: Vec::new() };
        proof {
            assert(r@.table =~= Seq::<EntryV>::empty());
            assert(!r@.trained()) by {
                if has_ctx(r@, start_ctx(r@.order)) {
                    let i = choose|i: int|
                        0 <= i < r@.table.len() && (#[trigger] r@.table[i]).ctx == start_ctx(
                            r@.order,
                        );
                }
            }
        }
        r
    }

    /// The model's order k.
    pub fn order(&self) -> (r: usize)
        ensures
            r as nat == self@.order,
    {
        self.order
    }

    /// The number of distinct recorded contexts.
    pub fn context_count(&self) -> (r: usize)
        ensures
            r as nat == self@.table.len(),
    {
        self.table.len()
    }

    fn find_context_idx(&self, ctx: &Vec<Token>) -> (r: Option<usize>)
        ensures
            match r {
                Some(i) => find_ctx(self@.table, ctx.deep_view()) == Some(i as int),
                None => find_ctx(self@.table, ctx.deep_view()) == None::<int>,
            },
    {
        let ghost tv = self@.table;
        let ghost cv = ctx.deep_view();
        let mut i: usize = 0;
        while i < self.table.len()
            invariant
                0 <= i <= self.table@.len(),
                tv == self@.table,
                cv == ctx.deep_view(),
                forall|j: int| 0 <= j < i ==> (#[trigger] tv[j]).ctx != cv,
            decreases self.table@.len() - i,
        {
            if context_eq(&self.table[i].context, ctx) {
                proof {
                    lemma_find_ctx(tv, cv);
                    assert(tv[i as int].ctx == cv);
                    match find_ctx(tv, cv) {
                        Some(w) => {
                            if w < i {
                                assert(tv[w].ctx != cv);
                            }
                            if w > i {
                                assert(tv[i as int].ctx != cv);
                            }
                        },
                        None => {
                            assert(tv[i as int].ctx != cv);
                        },
                    }
                }
                return Some(i);
            }
            proof {
                assert(tv[i as int].ctx != cv);
            }
            i += 1;
        }
        proof {
            lemma_find_ctx(tv, cv);
            match find_ctx(tv, cv) {
                Some(w) => {
                    assert(tv[w].ctx != cv);
                },
                None => {},
            }
        }
        None
    }

    /// Whether any training data has reached the model.
    pub fn is_trained(&self) -> (r: bool)
        ensures
            r == self@.trained(),
    {
        let ctx = start_context(self.order);
        match self.find_context_idx(&ctx) {
            Some(i) => {
                proof {
                    lemma_find_ctx(self@.table, ctx.deep_view());
                    assert(self@.table[i as int].ctx == start_ctx(self@.order));
                }
                true
            },
            None => {
                proof {
                    lemma_find_ctx(self@.table, ctx.deep_view());
                    if has_ctx(self@, start_ctx(self@.order)) {
                        let w = choose|w: int|
                            0 <= w < self@.table.len() && (#[trigger] self@.table[w]).ctx
                                == start_ctx(self@.order);
                        assert(self@.table[w].ctx != ctx.deep_view());
                        assert(false);
                    }
                }
                false
            },
        }
    }

    /// The recorded occurrence count for (context, successor); zero where
    /// the pair was never observed.
    pub fn count_of(&self, ctx: &Vec<Token>, t: &Token) -> (r: u64)
        ensures
            r as nat == count_of_spec(self@, ctx.deep_view(), t@),
    {
        match self.find_context_idx(ctx) {
            None => 0,
            Some(i) => {
                proof {
                    lemma_find_ctx(self@.table, ctx.deep_view());
                    assert(0 <= (i as int) && (i as int) < self@.table.len());
                    assert(self.table@.len() == self@.table.len());
                    assert(self.table@[i as int].successors.deep_view()
                        == self@.table[i as int].succs);
                }
                match find_succ_idx(&self.table[i].successors, t) {
                    None => 0,
                    Some(j) => {
                        proof {
                            lemma_find_succ(self@.table[i as int].succs, t@);
                            assert(0 <= (j as int) && (j as int) < self@.table[i as int].succs.len());
                        }
                        self.table[i].successors[j].count
                    },
                }
            },
        }
    }

    fn bump_exec(&mut self, ctx: Vec<Token>, t: Token)
        ensures
            final(self)@ == bump(old(self)@, ctx.deep_view(), t@),
    {
        let ghost m0 = self@;
        let ghost cv = ctx.deep_view();
        let ghost tv = t@;
        match self.find_context_idx(&ctx) {
            None => {
                let mut succs: Vec<SuccessorCount> = Vec::new();
                succs.push(SuccessorCount { token: t, count: 1 });
                proof {
                    assert(succs.deep_view() =~= seq![SuccV { token: tv, count: 1nat }]);
                }
                let entry = ContextEntry { context: ctx, successors: succs };
                let ghost ev = entry@;
                self.table.push(entry);
                proof {
                    assert(self@.table =~= m0.table.push(ev));
                    assert(self@ =~= bump(m0, cv, tv));
                }
            },
            Some(i) => {
                proof {
                    lemma_find_ctx(m0.table, cv);
                    assert(0 <= (i as int) && (i as int) < m0.table.len());
                    assert(self.table@.len() == m0.table.len());
                }
                let ghost e = m0.table[i as int];
                let mut entry = self.table.remove(i);
                proof {
                    assert(entry@ == e);
                }
                match find_succ_idx(&entry.successors, &t) {
                    None => {
                        entry.successors.push(SuccessorCount { token: t, count: 1 });
                        proof {
                            assert(entry@.succs =~= e.succs.push(
                                SuccV { token: tv, count: 1nat },
                            ));
                        }
                    },
                    Some(j) => {
                        proof {
                            lemma_find_succ(e.succs, tv);
                            assert(0 <= (j as int) && (j as int) < e.succs.len());
                            assert(entry.successors@.len() == e.succs.len());
                        }
                        let ghost s = e.succs[j as int];
                        let mut sc = entry.successors.remove(j);
                        proof {
                            assert(sc@ == s);
                        }
                        sc.count = if sc.count < u64::MAX {
                            sc.count + 1
                        } else {
                            sc.count
                        };
                        let ghost bumped = if s.count < u64::MAX {
                            (s.count + 1) as nat
                        } else {
                            s.count
                        };
                        proof {
                            assert(sc@ == SuccV { token: s.token, count: bumped });
                        }
                        entry.successors.insert(j, sc);
                        proof {
                            lemma_remove_insert(e.succs, j as int, sc@);
                            assert(entry@.succs =~= e.succs.update(
                                j as int,
                                SuccV { token: s.token, count: bumped },
                            ));
                        }
                    },
                }
                let ghost ev = entry@;
                self.table.insert(i, entry);
                proof {
                    lemma_remove_insert(m0.table, i as int, ev);
                    assert(self@.table =~= m0.table.update(i as int, ev));
                    assert(self@ =~= bump(m0, cv, tv));
                }
            },
        }
    }

    /// Feeds one bounded sequence: the context window is padded at the front
    /// with start sentinels, the sequence is closed with one end sentinel,
    /// and every order-k window is recorded. An empty sequence is a no-op;
    /// a non-empty one trains the model. Never fails.
    pub fn feed(&mut self, rows: &Vec<Row>)
        requires
            old(self).wf(),
        ensures
            final(self)@ == feed_spec(old(self)@, rows.deep_view()),
            final(self).wf(),
            final(self)@.order == old(self)@.order,
            rows@.len() >= 1 ==> final(self)@.trained(),
            old(self)@.trained() ==> final(self)@.trained(),
    {
        proof {
            lemma_feed_spec_wf(old(self)@, rows.deep_view());
        }
        if rows.len() == 0 {
            proof {
                assert(rows.deep_view().len() == 0);
            }
            return ;
        }
        let k: usize = self.order;
        let ghost m0 = self@;
        let ghost rowsv = rows.deep_view();
        let ghost kk = k as nat;

        let mut toks: Vec<Token> = start_context(k);
        let mut b: usize = 0;
        while b < rows.len()
            invariant
                0 <= b <= rows@.len(),
                rowsv == rows.deep_view(),
                toks.deep_view() =~= start_ctx(kk) + rowsv.subrange(0, b as int).map_values(
                    |r: RowV| TokenV::Row(r),
                ),
            decreases rows@.len() - b,
        {
            let ghost before = toks.deep_view();
            toks.push(Token::Row(rows[b].duplicate()));
            proof {
                assert(toks.deep_view() =~= before.push(TokenV::Row(rowsv[b as int])));
                assert(toks.deep_view() =~= start_ctx(kk) + rowsv.subrange(0, b + 1).map_values(
                    |r: RowV| TokenV::Row(r),
                ));
            }
            b += 1;
        }
        let ghost before_end = toks.deep_view();
        toks.push(Token::End);
        proof {
            assert(rowsv.subrange(0, rowsv.len() as int) =~= rowsv);
            assert(toks.deep_view() =~= before_end.push(TokenV::End));
            assert(toks.deep_view() =~= padded(kk, rowsv));
        }
        let ghost toksv = toks.deep_view();

        let n = toks.len();
        let mut i: usize = 0;
        while i + k < n
            invariant
                0 <= i,
                i + k <= n,
                n == toks@.len(),
                toksv == toks.deep_view(),
                toksv.len() == n,
                kk == k,
                feed_from(m0, toksv, kk, 0) == feed_from(self@, toksv, kk, i as int),
            decreases n - i,
        {
            let ctx = window(&toks, i, i + k);
            let t = toks[i + k].duplicate();
            let ghost before = self@;
            self.bump_exec(ctx, t);
            proof {
                assert(feed_from(before, toksv, kk, i as int) == feed_from(
                    self@,
                    toksv,
                    kk,
                    i + 1,
                ));
            }
            i += 1;
        }
        proof {
            assert(feed_from(self@, toksv, kk, i as int) == self@);
            assert(self@ == feed_spec(m0, rowsv));
        }
    }
}



/// `find_ctx` is pinned by the first-match conditions.
proof fn lemma_find_ctx_is(table: Seq<EntryV>, c: Seq<TokenV>, i: int)
    requires
        0 <= i < table.len(),
        table[i].ctx == c,
        forall|j: int| 0 <= j < i ==> (#[trigger] table[j]).ctx != c,
    ensures
        find_ctx(table, c) == Some(i),
{
    lemma_find_ctx(table, c);
    match find_ctx(table, c) {
        Some(w) => {
            if w < i {
                assert(table[w].ctx != c);
            }
            if w > i {
                assert(table[i].ctx != c);
            }
        },
        None => {
            assert(table[i].ctx != c);
        },
    }
}

/// `find_succ` is pinned by the first-match conditions.
proof fn lemma_find_succ_is(succs: Seq<SuccV>, t: TokenV, j: int)
    requires
        0 <= j < succs.len(),
        succs[j].token == t,
        forall|w: int| 0 <= w < j ==> (#[trigger] succs[w]).token != t,
    ensures
        find_succ(succs, t) == Some(j),
{
    lemma_find_succ(succs, t);
    match find_succ(succs, t) {
        Some(w) => {
            if w < j {
                assert(succs[w].token != t);
            }
            if w > j {
                assert(succs[j].token != t);
            }
        },
        None => {
            assert(succs[j].token != t);
        },
    }
}

/// Tables with the same contexts at every index agree on `find_ctx`.
proof fn lemma_find_ctx_same(t1: Seq<EntryV>, t2: Seq<EntryV>, c: Seq<TokenV>)
    requires
        t1.len() == t2.len(),
        forall|j: int| 0 <= j < t1.len() ==> (#[trigger] t2[j]).ctx == t1[j].ctx,
    ensures
        find_ctx(t2, c) == find_ctx(t1, c),
{
    lemma_find_ctx(t1, c);
    match find_ctx(t1, c) {
        Some(i) => {
            assert(t2[i].ctx == c);
            assert forall|j: int| 0 <= j < i implies (#[trigger] t2[j]).ctx != c by {
                assert(t1[j].ctx != c);
            }
            lemma_find_ctx_is(t2, c, i);
        },
        None => {
            lemma_find_ctx(t2, c);
            match find_ctx(t2, c) {
                Some(w) => {
                    assert(t1[w].ctx != c);
                    assert(false);
                },
                None => {},
            }
        },
    }
}

/// Successor lists with the same tokens at every index agree on `find_succ`.
proof fn lemma_find_succ_same(s1: Seq<SuccV>, s2: Seq<SuccV>, t: TokenV)
    requires
        s1.len() == s2.len(),
        forall|j: int| 0 <= j < s1.len() ==> (#[trigger] s2[j]).token == s1[j].token,
    ensures
        find_succ(s2, t) == find_succ(s1, t),
{
    lemma_find_succ(s1, t);
    match find_succ(s1, t) {
        Some(i) => {
            assert(s2[i].token == t);
            assert forall|j: int| 0 <= j < i implies (#[trigger] s2[j]).token != t by {
                assert(s1[j].token != t);
            }
            lemma_find_succ_is(s2, t, i);
        },
        None => {
            lemma_find_succ(s2, t);
            match find_succ(s2, t) {
                Some(w) => {
                    assert(s1[w].token != t);
                    assert(false);
                },
                None => {},
            }
        },
    }
}

/// One more observation, saturating at the machine limit (counts are stored
/// in 64 bits).
pub open spec fn sat_inc(n: nat) -> nat {
    if n < u64::MAX {
        (n + 1) as nat
    } else {
        n
    }
}

/// `times` saturating increments in a row.
pub open spec fn sat_n(n: nat, times: nat) -> nat
    decreases times,
{
    if times == 0 {
        n
    } else {
        sat_n(sat_inc(n), (times - 1) as nat)
    }
}

/// Saturating increments compose additively.
pub proof fn lemma_sat_n_add(n: nat, p: nat, q: nat)
    ensures
        sat_n(sat_n(n, p), q) == sat_n(n, p + q),
    decreases p,
{
    if p > 0 {
        lemma_sat_n_add(sat_inc(n), (p - 1) as nat, q);
    }
}

/// What one observation does to every count: the observed pair's count rises
/// by one (saturating), every other count is unchanged.
pub proof fn lemma_bump_count(m: ModelV, c: Seq<TokenV>, t: TokenV, c2: Seq<TokenV>, t2: TokenV)
    ensures
        count_of_spec(bump(m, c, t), c2, t2) == (if c2 == c && t2 == t {
            sat_inc(count_of_spec(m, c2, t2))
        } else {
            count_of_spec(m, c2, t2)
        }),
{
    let b = bump(m, c, t);
    lemma_find_ctx(m.table, c);
    match find_ctx(m.table, c) {
        None => {
            let e = EntryV { ctx: c, succs: seq![SuccV { token: t, count: 1 }] };
            assert(b.table == m.table.push(e));
            if c2 == c {
                assert(count_of_spec(m, c2, t2) == 0);
                assert forall|j: int|
                    0 <= j < m.table.len() implies (#[trigger] b.table[j]).ctx != c2 by {
                    assert(b.table[j] == m.table[j]);
                }
                assert(b.table[m.table.len() as int] == e);
                lemma_find_ctx_is(b.table, c2, m.table.len() as int);
                lemma_find_succ(e.succs, t2);
                if t2 == t {
                    assert(e.succs[0].token == t2);
                    assert(find_succ(e.succs, t2) == Some(0int));
                    assert(count_of_spec(b, c2, t2) == 1);
                } else {
                    assert(count_of_spec(b, c2, t2) == 0);
                }
            } else {
                lemma_find_ctx(m.table, c2);
                match find_ctx(m.table, c2) {
                    Some(w) => {
                        assert(b.table[w] == m.table[w]);
                        assert forall|j: int|
                            0 <= j < w implies (#[trigger] b.table[j]).ctx != c2 by {
                            assert(b.table[j] == m.table[j]);
                        }
                        lemma_find_ctx_is(b.table, c2, w);
                    },
                    None => {
                        lemma_find_ctx(b.table, c2);
                        match find_ctx(b.table, c2) {
                            Some(w) => {
                                if w < m.table.len() {
                                    assert(b.table[w] == m.table[w]);
                                    assert(m.table[w].ctx != c2);
                                } else {
                                    assert(b.table[w] == e);
                                }
                                assert(false);
                            },
                            None => {},
                        }
                    },
                }
            }
        },
        Some(i) => {
            let e = m.table[i];
            lemma_find_succ(e.succs, t);
            let e2 = match find_succ(e.succs, t) {
                None => EntryV { ctx: e.ctx, succs: e.succs.push(SuccV { token: t, count: 1 }) },
                Some(j) => {
                    let s0 = e.succs[j];
                    let bumped = if s0.count < u64::MAX {
                        (s0.count + 1) as nat
                    } else {
                        s0.count
                    };
                    EntryV { ctx: e.ctx, succs: e.succs.update(j, SuccV { token: s0.token, count: bumped }) }
                },
            };
            assert(b.table == m.table.update(i, e2));
            assert(e2.ctx == e.ctx);
            assert forall|j: int|
                0 <= j < m.table.len() implies (#[trigger] b.table[j]).ctx == m.table[j].ctx by {
                if j != i {
                    assert(b.table[j] == m.table[j]);
                }
            }
            lemma_find_ctx_same(m.table, b.table, c2);
            if c2 == c {
                assert(find_ctx(b.table, c2) == Some(i));
                assert(b.table[i] == e2);
                match find_succ(e.succs, t) {
                    None => {
                        assert(count_of_spec(m, c2, t2) == (match find_succ(e.succs, t2) {
                            None => 0nat,
                            Some(w) => e.succs[w].count,
                        }));
                        if t2 == t {
                            assert(count_of_spec(m, c2, t2) == 0);
                            assert forall|w: int|
                                0 <= w < e.succs.len() implies (#[trigger] e2.succs[w]).token
                                != t2 by {
                                assert(e2.succs[w] == e.succs[w]);
                            }
                            assert(e2.succs[e.succs.len() as int].token == t2);
                            lemma_find_succ_is(e2.succs, t2, e.succs.len() as int);
                            assert(count_of_spec(b, c2, t2) == 1);
                        } else {
                            lemma_find_succ(e.succs, t2);
                            match find_succ(e.succs, t2) {
                                Some(w) => {
                                    assert(e2.succs[w] == e.succs[w]);
                                    assert forall|v: int|
                                        0 <= v < w implies (#[trigger] e2.succs[v]).token != t2 by {
                                        assert(e2.succs[v] == e.succs[v]);
                                    }
                                    lemma_find_succ_is(e2.succs, t2, w);
                                },
                                None => {
                                    lemma_find_succ(e2.succs, t2);
                                    match find_succ(e2.succs, t2) {
                                        Some(w) => {
                                            if w < e.succs.len() {
                                                assert(e2.succs[w] == e.succs[w]);
                                                assert(e.succs[w].token != t2);
                                            } else {
                                                assert(e2.succs[w].token == t);
                                            }
                                            assert(false);
                                        },
                                        None => {},
                                    }
                                },
                            }
                        }
                    },
                    Some(j) => {
                        assert forall|w: int|
                            0 <= w < e.succs.len() implies (#[trigger] e2.succs[w]).token
                            == e.succs[w].token by {
                            if w != j {
                                assert(e2.succs[w] == e.succs[w]);
                            }
                        }
                        lemma_find_succ_same(e.succs, e2.succs, t2);
                        if t2 == t {
                            assert(find_succ(e2.succs, t2) == Some(j));
                            assert(e2.succs[j].count == sat_inc(e.succs[j].count));
                        } else {
                            lemma_find_succ(e.succs, t2);
                            match find_succ(e.succs, t2) {
                                Some(w) => {
                                    assert(e.succs[w].token == t2);
                                    assert(e.succs[j].token == t);
                                    assert(w != j);
                                    assert(e2.succs[w] == e.succs[w]);
                                },
                                None => {},
                            }
                        }
                    },
                }
            } else {
                lemma_find_ctx(m.table, c2);
                match find_ctx(m.table, c2) {
                    Some(w) => {
                        assert(m.table[w].ctx == c2);
                        assert(m.table[i].ctx == c);
                        assert(w != i);
                        assert(b.table[w] == m.table[w]);
                    },
                    None => {},
                }
            }
        },
    }
}


/// The number of windows from position `i` on whose (context, successor)
/// pair is exactly (`c`, `t`).
pub open spec fn hits_from(toks: Seq<TokenV>, k: nat, c: Seq<TokenV>, t: TokenV, i: int) -> nat
    decreases toks.len() - i,
{
    if i < 0 || i + k >= toks.len() {
        0
    } else {
        (if toks.subrange(i, i + k) == c && toks[i + k] == t {
            1nat
        } else {
            0nat
        }) + hits_from(toks, k, c, t, i + 1)
    }
}

/// How many windows of one fed sequence observe the pair (`c`, `t`).
pub open spec fn window_hits(k: nat, rows: Seq<RowV>, c: Seq<TokenV>, t: TokenV) -> nat {
    if rows.len() == 0 {
        0
    } else {
        hits_from(padded(k, rows), k, c, t, 0)
    }
}

/// Recording windows never changes the model's order.
proof fn lemma_feed_from_order(m: ModelV, toks: Seq<TokenV>, k: nat, i: int)
    ensures
        feed_from(m, toks, k, i).order == m.order,
    decreases toks.len() - i,
{
    if !(i < 0 || i + k >= toks.len()) {
        lemma_feed_from_order(bump(m, toks.subrange(i, i + k), toks[i + k]), toks, k, i + 1);
    }
}

/// One feed never changes the model's order.
pub proof fn lemma_feed_spec_order(m: ModelV, rows: Seq<RowV>)
    ensures
        feed_spec(m, rows).order == m.order,
{
    if rows.len() != 0 {
        lemma_feed_from_order(m, padded(m.order, rows), m.order, 0);
    }
}

proof fn lemma_feed_from_count(
    m: ModelV,
    toks: Seq<TokenV>,
    k: nat,
    i: int,
    c: Seq<TokenV>,
    t: TokenV,
)
    ensures
        count_of_spec(feed_from(m, toks, k, i), c, t) == sat_n(
            count_of_spec(m, c, t),
            hits_from(toks, k, c, t, i),
        ),
    decreases toks.len() - i,
{
    if !(i < 0 || i + k >= toks.len()) {
        let ctx = toks.subrange(i, i + k);
        let tt = toks[i + k];
        lemma_bump_count(m, ctx, tt, c, t);
        lemma_feed_from_count(bump(m, ctx, tt), toks, k, i + 1, c, t);
    }
}

/// What one feed does to every count: the count of each (context, successor)
/// pair rises by one saturating increment per matching window of the padded
/// sequence, and no other count changes.
pub proof fn lemma_feed_counts(m: ModelV, rows: Seq<RowV>, c: Seq<TokenV>, t: TokenV)
    ensures
        count_of_spec(feed_spec(m, rows), c, t) == sat_n(
            count_of_spec(m, c, t),
            window_hits(m.order, rows, c, t),
        ),
{
    if rows.len() != 0 {
        lemma_feed_from_count(m, padded(m.order, rows), m.order, 0, c, t);
    }
}

/// Feeding two sequences in either order leaves the same count for every
/// (context, successor) pair: window feeds commute at the count level, so
/// any reordering of the windows of a training pass — a chain of adjacent
/// swaps — leaves the final count table unchanged.
pub proof fn lemma_feed_order_irrelevant(
    m: ModelV,
    a: Seq<RowV>,
    b: Seq<RowV>,
    c: Seq<TokenV>,
    t: TokenV,
)
    ensures
        count_of_spec(feed_spec(feed_spec(m, a), b), c, t) == count_of_spec(
            feed_spec(feed_spec(m, b), a),
            c,
            t,
        ),
{
    lemma_feed_spec_order(m, a);
    lemma_feed_spec_order(m, b);
    let n0 = count_of_spec(m, c, t);
    let ha = window_hits(m.order, a, c, t);
    let hb = window_hits(m.order, b, c, t);
    lemma_feed_counts(m, a, c, t);
    lemma_feed_counts(feed_spec(m, a), b, c, t);
    lemma_feed_counts(m, b, c, t);
    lemma_feed_counts(feed_spec(m, b), a, c, t);
    lemma_sat_n_add(n0, ha, hb);
    lemma_sat_n_add(n0, hb, ha);
}

/// The row successors recorded in one successor list, in order.
pub open spec fn entry_rows(succs: Seq<SuccV>) -> Seq<RowV>
    decreases succs.len(),
{
    if succs.len() == 0 {
        Seq::empty()
    } else {
        entry_rows(succs.drop_last()) + match succs.last().token {
            TokenV::Row(r) => seq![r],
            TokenV::Start => Seq::empty(),
            TokenV::End => Seq::empty(),
        }
    }
}

/// Every row successor ever recorded, across the table in insertion order:
/// the global fallback pool generation draws from when a context is missing.
pub open spec fn pool_of(table: Seq<EntryV>) -> Seq<RowV>
    decreases table.len(),
{
    if table.len() == 0 {
        Seq::empty()
    } else {
        pool_of(table.drop_last()) + entry_rows(table.last().succs)
    }
}

/// A row recorded as a successor is in its entry's row list.
proof fn lemma_entry_rows_contains(succs: Seq<SuccV>, j: int, r: RowV)
    requires
        0 <= j < succs.len(),
        succs[j].token == TokenV::Row(r),
    ensures
        entry_rows(succs).contains(r),
    decreases succs.len(),
{
    let er = entry_rows(succs);
    if j == succs.len() - 1 {
        assert(er[er.len() - 1] == r);
    } else {
        lemma_entry_rows_contains(succs.drop_last(), j, r);
        let pre = entry_rows(succs.drop_last());
        let w = choose|w: int| 0 <= w < pre.len() && pre[w] == r;
        assert(er[w] == r);
    }
}

/// A row recorded anywhere in the table is in the pool.
proof fn lemma_pool_contains(table: Seq<EntryV>, i: int, j: int, r: RowV)
    requires
        0 <= i < table.len(),
        0 <= j < table[i].succs.len(),
        table[i].succs[j].token == TokenV::Row(r),
    ensures
        pool_of(table).contains(r),
    decreases table.len(),
{
    if i == table.len() - 1 {
        lemma_entry_rows_contains(table[i].succs, j, r);
        let er = entry_rows(table[i].succs);
        let w = choose|w: int| 0 <= w < er.len() && er[w] == r;
        assert(pool_of(table)[pool_of(table.drop_last()).len() + w] == r);
    } else {
        lemma_pool_contains(table.drop_last(), i, j, r);
        let pre = pool_of(table.drop_last());
        let w = choose|w: int| 0 <= w < pre.len() && pre[w] == r;
        assert(pool_of(table)[w] == r);
    }
}

/// A trained well-formed model has a non-empty fallback pool.
pub proof fn lemma_pool_nonempty(m: ModelV)
    requires
        m.wf(),
        m.trained(),
    ensures
        pool_of(m.table).len() >= 1,
{
    let i = choose|i: int|
        0 <= i < m.table.len() && (#[trigger] m.table[i]).ctx == start_ctx(m.order);
    assert(entry_wf(m.table[i], m.order));
    assert(m.table[i].succs[0].token is Row);
    let r = match m.table[i].succs[0].token {
        TokenV::Row(r) => r,
        TokenV::Start => arbitrary(),
        TokenV::End => arbitrary(),
    };
    lemma_pool_contains(m.table, i, 0, r);
    let w = choose|w: int| 0 <= w < pool_of(m.table).len() && pool_of(m.table)[w] == r;
}

/// The total of the recorded counts in a successor list.
pub open spec fn total_count(succs: Seq<SuccV>) -> int
    decreases succs.len(),
{
    if succs.len() == 0 {
        0
    } else {
        total_count(succs.drop_last()) + succs.last().count
    }
}

proof fn lemma_total_count_pos(succs: Seq<SuccV>)
    requires
        succs.len() >= 1,
        forall|j: int| 0 <= j < succs.len() ==> (#[trigger] succs[j]).count >= 1,
    ensures
        total_count(succs) >= 1,
    decreases succs.len(),
{
    assert(succs[succs.len() - 1].count >= 1);
    if succs.len() > 1 {
        let pre = succs.drop_last();
        assert(forall|j: int| 0 <= j < pre.len() ==> (#[trigger] pre[j]).count >= 1) by {
            assert(forall|j: int| 0 <= j < pre.len() ==> pre[j] == #[trigger] succs[j]);
        }
        lemma_total_count_pos(pre);
    } else {
        assert(succs.drop_last().len() == 0);
        assert(total_count(succs.drop_last()) == 0);
    }
}

/// The index a weighted draw selects: counts are laid out in insertion
/// order and the draw falls into the first record whose cumulative count
/// exceeds it, so ties go to the earlier-inserted record.
pub open spec fn pick_index(succs: Seq<SuccV>, draw: int) -> int
    decreases succs.len(),
{
    if succs.len() == 0 {
        0
    } else if draw < succs[0].count {
        0
    } else {
        1 + pick_index(succs.drop_first(), draw - succs[0].count)
    }
}

/// Picks a successor index, with probability proportional to the recorded
/// counts; ties in the draw go to the earlier-inserted record.
fn sample_index(succs: &Vec<SuccessorCount>, rng: &mut Rng) -> (idx: usize)
    requires
        succs@.len() >= 1,
        forall|j: int|
            0 <= j < succs.deep_view().len() ==> (#[trigger] succs.deep_view()[j]).count >= 1,
    ensures
        idx < succs@.len(),
        idx as int == pick_index(
            succs.deep_view(),
            draw_below(
                old(rng)@,
                total_count(succs.deep_view()) as u128,
            ) as int,
        ),
        final(rng)@ == next_state(next_state(old(rng)@)),
{
    let ghost sv = succs.deep_view();
    let mut total: u128 = 0;
    let mut j: usize = 0;
    while j < succs.len()
        invariant
            0 <= j <= succs@.len(),
            sv == succs.deep_view(),
            forall|w: int| 0 <= w < sv.len() ==> (#[trigger] sv[w]).count >= 1,
            total as int == total_count(sv.subrange(0, j as int)),
            total as int <= (j as int) * 0xffff_ffff_ffff_ffff,
        decreases succs@.len() - j,
    {
        proof {
            assert((j as int + 1) * 0xffff_ffff_ffff_ffff
                < 0x1_0000_0000_0000_0000_0000_0000_0000_0000) by (nonlinear_arith)
                requires
                    0 <= j as int <= 0xffff_ffff_ffff_ffff,
            ;
        }
        let c = succs[j].count;
        proof {
            assert(c as int == sv[j as int].count);
            assert(sv.subrange(0, j + 1).drop_last() =~= sv.subrange(0, j as int));
            assert(sv.subrange(0, j + 1).last() == sv[j as int]);
        }
        total = total + (c as u128);
        proof {
            assert(total as int == total_count(sv.subrange(0, j + 1)));
        }
        j += 1;
    }
    proof {
        assert(sv.subrange(0, j as int) =~= sv);
        lemma_total_count_pos(sv);
    }
    let draw = rng.next_below(total);
    let ghost dr = draw as int;
    let mut rem = draw;
    let mut i: usize = 0;
    proof {
        assert(sv.skip(0) =~= sv);
        assert(sv.subrange(0, 0) =~= Seq::<SuccV>::empty());
    }
    while i < succs.len()
        invariant
            0 <= i <= succs@.len(),
            sv == succs.deep_view(),
            total as int == total_count(sv),
            dr < total as int,
            0 <= dr,
            rem as int == dr - total_count(sv.subrange(0, i as int)),
            pick_index(sv, dr) == i + pick_index(sv.skip(i as int), rem as int),
            dr == draw_below(old(rng)@, total_count(sv) as u128) as int,
            rng@ == next_state(next_state(old(rng)@)),
        decreases succs@.len() - i,
    {
        let c = succs[i].count;
        proof {
            assert(c as int == sv[i as int].count);
            assert(sv.subrange(0, i + 1).drop_last() =~= sv.subrange(0, i as int));
            assert(sv.subrange(0, i + 1).last() == sv[i as int]);
            assert(sv.skip(i as int).len() == sv.len() - i);
            assert(sv.skip(i as int)[0] == sv[i as int]);
        }
        if rem < c as u128 {
            proof {
                assert(pick_index(sv.skip(i as int), rem as int) == 0);
            }
            return i;
        }
        proof {
            assert(pick_index(sv.skip(i as int), rem as int) == 1 + pick_index(
                sv.skip(i as int).drop_first(),
                rem as int - c as int,
            ));
            assert(sv.skip(i as int).drop_first() =~= sv.skip(i + 1));
        }
        rem = rem - (c as u128);
        proof {
            assert(rem as int == dr - total_count(sv.subrange(0, i + 1)));
        }
        i += 1;
    }
    proof {
        assert(sv.subrange(0, i as int) =~= sv);
        assert(false);
    }
    0
}

/// The successor records of the all-start context, in insertion order;
/// empty when the model is untrained.
pub open spec fn start_records(m: ModelV) -> Seq<SuccV> {
    match find_ctx(m.table, start_ctx(m.order)) {
        Some(i) => m.table[i].succs,
        None => Seq::empty(),
    }
}

/// The tokens recorded as successors of the all-start context, in order.
pub open spec fn start_successors(m: ModelV) -> Seq<TokenV> {
    start_records(m).map_values(|s: SuccV| s.token)
}


/// The seed context a continuation starts from: the seed row, padded in
/// front with start sentinels up to the model's order.
pub open spec fn seed_ctx(k: nat, seed: RowV) -> Seq<TokenV> {
    start_ctx((k - 1) as nat).push(TokenV::Row(seed))
}

/// The context after a sampled row: the oldest token leaves, the new one
/// enters.
pub open spec fn shift_ctx(ctx: Seq<TokenV>, t: TokenV) -> Seq<TokenV> {
    ctx.drop_first().push(t)
}

/// One sampling step: the token drawn at the current context (the weighted
/// pick where the context is recorded; the uniform fallback draw from the
/// pool where it is not), paired with the draw source's state after it.
pub open spec fn step_token(m: ModelV, ctx: Seq<TokenV>, s: u64) -> (TokenV, u64) {
    match find_ctx(m.table, ctx) {
        Some(i) => {
            let succs = m.table[i].succs;
            let draw = draw_below(s, total_count(succs) as u128) as int;
            (succs[pick_index(succs, draw)].token, next_state(next_state(s)))
        },
        None => {
            let pool = pool_of(m.table);
            let draw = draw_below(s, pool.len() as u128) as int;
            (TokenV::Row(pool[draw]), next_state(next_state(s)))
        },
    }
}

/// The whole continuation: the rows `continue_from` accumulates onto `out`
/// and the state it leaves the draw source in, starting from `ctx` with
/// `budget` rows of room left. An end sentinel stops the segment, except
/// that an empty segment takes one fallback row instead.
pub open spec fn continue_spec(
    m: ModelV,
    ctx: Seq<TokenV>,
    out: Seq<RowV>,
    s: u64,
    budget: nat,
) -> (Seq<RowV>, u64)
    decreases budget,
{
    if budget == 0 {
        (out, s)
    } else {
        let stepped = step_token(m, ctx, s);
        match stepped.0 {
            TokenV::End => {
                if out.len() == 0 {
                    let pool = pool_of(m.table);
                    let draw = draw_below(stepped.1, pool.len() as u128) as int;
                    (seq![pool[draw]], next_state(next_state(stepped.1)))
                } else {
                    (out, stepped.1)
                }
            },
            TokenV::Row(r) => continue_spec(
                m,
                shift_ctx(ctx, TokenV::Row(r)),
                out.push(r),
                stepped.1,
                (budget - 1) as nat,
            ),
            TokenV::Start => (out, stepped.1),
        }
    }
}

impl ModelState {
    /// Draws one row uniformly from every (context, successor) row pair ever
    /// recorded: the forward-progress fallback for contexts that some
    /// training passes saw and others did not.
    fn fallback_row(&self, rng: &mut Rng) -> (r: Row)
        requires
            self.wf(),
            self@.trained(),
        ensures
            pool_of(self@.table).contains(r@),
            r@ == pool_of(self@.table)[draw_below(
                old(rng)@,
                pool_of(self@.table).len() as u128,
            ) as int],
            final(rng)@ == next_state(next_state(old(rng)@)),
    {
        let pool = self.collect_pool();
        proof {
            lemma_pool_nonempty(self@);
            assert(pool@.len() == pool.deep_view().len());
        }
        let idx128 = rng.next_below(pool.len() as u128);
        let idx = idx128 as usize;
        let row = pool[idx].duplicate();
        proof {
            assert(pool.deep_view()[idx as int] == row@);
            assert(pool_of(self@.table).contains(row@));
        }
        row
    }

    /// Collects the fallback pool: every recorded row successor, in table
    /// order.
    fn collect_pool(&self) -> (r: Vec<Row>)
        ensures
            r.deep_view() == pool_of(self@.table),
    {
        let ghost tv = self@.table;
        let mut r: Vec<Row> = Vec::new();
        let mut i: usize = 0;
        while i < self.table.len()
            invariant
                0 <= i <= self.table@.len(),
                tv == self@.table,
                tv.len() == self.table@.len(),
                r.deep_view() =~= pool_of(tv.subrange(0, i as int)),
            decreases self.table@.len() - i,
        {
            let ghost sv = tv[i as int].succs;
            proof {
                assert(self.table@[i as int].successors.deep_view() == sv);
            }
            let entry = &self.table[i];
            let mut j: usize = 0;
            while j < entry.successors.len()
                invariant
                    0 <= j <= entry.successors@.len(),
                    sv == entry.successors.deep_view(),
                    sv.len() == entry.successors@.len(),
                    tv == self@.table,
                    0 <= i < tv.len(),
                    sv == tv[i as int].succs,
                    r.deep_view() =~= pool_of(tv.subrange(0, i as int)) + entry_rows(
                        sv.subrange(0, j as int),
                    ),
                decreases entry.successors@.len() - j,
            {
                proof {
                    assert(sv.subrange(0, j + 1).drop_last() =~= sv.subrange(0, j as int));
                    assert(sv.subrange(0, j + 1).last() == sv[j as int]);
                }
                let ghost before = r.deep_view();
                match &entry.successors[j].token {
                    Token::Row(row) => {
                        r.push(row.duplicate());
                        proof {
                            assert(sv[j as int].token == TokenV::Row(row@));
                            assert(r.deep_view() =~= before.push(row@));
                            assert(entry_rows(sv.subrange(0, j + 1)) =~= entry_rows(
                                sv.subrange(0, j as int),
                            ).push(row@));
                            assert(r.deep_view() =~= pool_of(tv.subrange(0, i as int))
                                + entry_rows(sv.subrange(0, j + 1)));
                        }
                    },
                    Token::Start => {
                        proof {
                            assert(entry_rows(sv.subrange(0, j + 1)) =~= entry_rows(
                                sv.subrange(0, j as int),
                            ));
                        }
                    },
                    Token::End => {
                        proof {
                            assert(entry_rows(sv.subrange(0, j + 1)) =~= entry_rows(
                                sv.subrange(0, j as int),
                            ));
                        }
                    },
                }
                j += 1;
            }
            proof {
                assert(sv.subrange(0, sv.len() as int) =~= sv);
                assert(tv.subrange(0, i + 1).drop_last() =~= tv.subrange(0, i as int));
                assert(tv.subrange(0, i + 1).last() == tv[i as int]);
                assert(r.deep_view() =~= pool_of(tv.subrange(0, i + 1)));
            }
            i += 1;
        }
        proof {
            assert(tv.subrange(0, i as int) =~= tv);
        }
        r
    }

    /// Samples a first row from the start context, with probability
    /// proportional to the recorded counts; fails exactly when the model is
    /// untrained.
    pub fn start(&self, rng: &mut Rng) -> (r: Result<Row, MarkyError>)
        requires
            self.wf(),
        ensures
            r.is_ok() <==> self@.trained(),
            r matches Err(e) ==> e == MarkyError::UntrainedModel,
            r matches Ok(row) ==> start_successors(self@).contains(TokenV::Row(row@)),
            r matches Ok(row) ==> TokenV::Row(row@) == start_records(self@)[pick_index(
                start_records(self@),
                draw_below(
                    old(rng)@,
                    total_count(start_records(self@)) as u128,
                ) as int,
            )].token,
            r.is_ok() ==> final(rng)@ == next_state(
                next_state(old(rng)@),
            ),
            r.is_err() ==> final(rng)@ == old(rng)@,
    {
        let ctx = start_context(self.order());
        proof {
            assert(ctx.deep_view() == start_ctx(self@.order));
        }
        match self.find_context_idx(&ctx) {
            None => {
                proof {
                    lemma_find_ctx(self@.table, ctx.deep_view());
                    if self@.trained() {
                        let w = choose|w: int|
                            0 <= w < self@.table.len() && (#[trigger] self@.table[w]).ctx
                                == start_ctx(self@.order);
                        assert(self@.table[w].ctx != ctx.deep_view());
                        assert(false);
                    }
                }
                Err(MarkyError::UntrainedModel)
            },
            Some(i) => {
                proof {
                    lemma_find_ctx(self@.table, ctx.deep_view());
                    assert(0 <= (i as int) && (i as int) < self@.table.len());
                    assert(self@.trained());
                    assert(entry_wf(self@.table[i as int], self@.order));
                    assert(self.table@[i as int].successors.deep_view()
                        == self@.table[i as int].succs);
                }
                let idx = sample_index(&self.table[i].successors, rng);
                let ghost sv = self@.table[i as int].succs;
                proof {
                    assert(start_records(self@) == sv);
                    assert(self@.table[i as int].ctx == start_ctx(self@.order));
                    assert(sv[idx as int].token is Row);
                    assert(self.table@[i as int].successors@[idx as int]@.token
                        == sv[idx as int].token);
                }
                match &self.table[i].successors[idx].token {
                    Token::Row(row) => {
                        let out = row.duplicate();
                        proof {
                            assert(sv[idx as int].token == TokenV::Row(out@));
                            assert(start_successors(self@)[idx as int] == TokenV::Row(out@));
                            assert(start_successors(self@).contains(TokenV::Row(out@)));
                        }
                        Ok(out)
                    },
                    Token::Start => {
                        proof {
                            assert(false);
                        }
                        Err(MarkyError::UntrainedModel)
                    },
                    Token::End => {
                        proof {
                            assert(false);
                        }
                        Err(MarkyError::UntrainedModel)
                    },
                }
            },
        }
    }

    /// Generates one bounded segment from a seed row: starting from the
    /// context made of the seed (padded in front with start sentinels),
    /// repeatedly samples a successor weighted by its count, appends it and
    /// advances the context, until the end sentinel is sampled or the safety
    /// bound is reached. Returns at least one row: a missing context, or an
    /// end sentinel drawn first, falls back to a uniform draw from all
    /// recorded row successors so generation always makes progress.
    pub fn continue_from(&self, seed: &Row, rng: &mut Rng, max_segment: usize) -> (out: Vec<Row>)
        requires
            self.wf(),
            self@.trained(),
            max_segment >= 1,
        ensures
            1 <= out@.len() <= max_segment,
            forall|w: int|
                0 <= w < out.deep_view().len() ==> pool_of(self@.table).contains(
                    #[trigger] out.deep_view()[w],
                ),
            ({
                let res = continue_spec(
                    self@,
                    seed_ctx(self@.order, seed@),
                    Seq::empty(),
                    old(rng)@,
                    max_segment as nat,
                );
                out.deep_view() == res.0 && final(rng)@ == res.1
            }),
    {
        let k = self.order();
        proof {
            assert(k >= 1);
        }
        let mut ctx = start_context(k - 1);
        let ghost cb = ctx.deep_view();
        ctx.push(Token::Row(seed.duplicate()));
        proof {
            assert(ctx.deep_view() =~= cb.push(TokenV::Row(seed@)));
            assert(ctx.deep_view().len() == k as int);
            assert(ctx.deep_view() == seed_ctx(self@.order, seed@));
        }
        let ghost m = self@;
        let ghost s0 = rng@;
        let ghost ctx0v = ctx.deep_view();
        let ghost total_res = continue_spec(m, ctx0v, Seq::empty(), s0, max_segment as nat);
        let mut out: Vec<Row> = Vec::new();
        proof {
            assert(out.deep_view() =~= Seq::<RowV>::empty());
        }
        loop
            invariant_except_break
                self.wf(),
                self@.trained(),
                self@ == m,
                max_segment >= 1,
                k as int == self@.order,
                ctx.deep_view().len() == k as int,
                out@.len() < max_segment,
                forall|w: int|
                    0 <= w < out.deep_view().len() ==> pool_of(self@.table).contains(
                        #[trigger] out.deep_view()[w],
                    ),
                total_res == continue_spec(
                    m,
                    ctx.deep_view(),
                    out.deep_view(),
                    rng@,
                    (max_segment - out@.len()) as nat,
                ),
            ensures
                1 <= out@.len() <= max_segment,
                forall|w: int|
                    0 <= w < out.deep_view().len() ==> pool_of(self@.table).contains(
                        #[trigger] out.deep_view()[w],
                    ),
                total_res == (out.deep_view(), rng@),
            decreases max_segment - out@.len(),
        {
            let ghost s_head = rng@;
            let ghost ctxv = ctx.deep_view();
            let ghost outv = out.deep_view();
            let ghost budget = (max_segment - out@.len()) as nat;
            let tok: Token = match self.find_context_idx(&ctx) {
                Some(i) => {
                    proof {
                        lemma_find_ctx(self@.table, ctx.deep_view());
                        assert(0 <= (i as int) && (i as int) < self@.table.len());
                        assert(entry_wf(self@.table[i as int], self@.order));
                        assert(self.table@[i as int].successors.deep_view()
                            == self@.table[i as int].succs);
                    }
                    let idx = sample_index(&self.table[i].successors, rng);
                    let ghost sv = self@.table[i as int].succs;
                    let t = self.table[i].successors[idx].token.duplicate();
                    proof {
                        assert(t@ == sv[idx as int].token);
                        assert(!(t@ is Start));
                        if t@ is Row {
                            let rv = match t@ {
                                TokenV::Row(rv) => rv,
                                TokenV::Start => arbitrary(),
                                TokenV::End => arbitrary(),
                            };
                            lemma_pool_contains(self@.table, i as int, idx as int, rv);
                        }
                        assert(step_token(m, ctxv, s_head) == (t@, rng@));
                    }
                    t
                },
                None => {
                    proof {
                        lemma_find_ctx(self@.table, ctx.deep_view());
                    }
                    let t = Token::Row(self.fallback_row(rng));
                    proof {
                        assert(step_token(m, ctxv, s_head) == (t@, rng@));
                    }
                    t
                },
            };
            proof {
                assert(!(tok@ is Start));
                assert(step_token(m, ctxv, s_head) == (tok@, rng@));
            }
            match &tok {
                Token::End => {
                    proof {
                        assert(step_token(m, ctxv, s_head).0 == TokenV::End);
                    }
                    if out.len() == 0 {
                        let ghost s1 = rng@;
                        let row = self.fallback_row(rng);
                        let ghost rv = row@;
                        let ghost before = out.deep_view();
                        out.push(row);
                        proof {
                            assert(out.deep_view() =~= before.push(rv));
                            assert(out.deep_view() =~= seq![rv]);
                            assert(continue_spec(m, ctxv, outv, s_head, budget) == (
                                out.deep_view(),
                                rng@,
                            ));
                        }
                    } else {
                        proof {
                            assert(continue_spec(m, ctxv, outv, s_head, budget) == (
                                out.deep_view(),
                                rng@,
                            ));
                        }
                    }
                    break ;
                },
                Token::Row(row) => {
                    let next_tok = Token::Row(row.duplicate());
                    let ghost before = out.deep_view();
                    let ghost rv = row@;
                    out.push(row.duplicate());
                    proof {
                        assert(out.deep_view() =~= before.push(rv));
                    }
                    let ghost ntv = next_tok@;
                    let mut nctx = window(&ctx, 1, k);
                    let ghost nb = nctx.deep_view();
                    nctx.push(next_tok);
                    proof {
                        assert(nctx.deep_view() =~= nb.push(ntv));
                        assert(nctx.deep_view().len() == k as int);
                        assert(nctx.deep_view() =~= shift_ctx(ctxv, TokenV::Row(rv)));
                        assert(continue_spec(m, ctxv, outv, s_head, budget) == continue_spec(
                            m,
                            shift_ctx(ctxv, TokenV::Row(rv)),
                            outv.push(rv),
                            rng@,
                            (budget - 1) as nat,
                        ));
                    }
                    ctx = nctx;
                    if out.len() == max_segment {
                        proof {
                            assert((budget - 1) as nat == 0);
                            assert(continue_spec(m, ctx.deep_view(), out.deep_view(), rng@, 0)
                                == (out.deep_view(), rng@));
                        }
                        break ;
                    }
                },
                Token::Start => {
                    proof {
                        assert(tok@ is Start);
                        assert(false);
                    }
                    break ;
                },
            }
        }
        out
    }
}


fn succ_eq(a: &SuccessorCount, b: &SuccessorCount) -> (r: bool)
    ensures
        r == (a@ == b@),
{
    token_eq(&a.token, &b.token) && a.count == b.count
}

fn succs_eq(a: &Vec<SuccessorCount>, b: &Vec<SuccessorCount>) -> (r: bool)
    ensures
        r == (a.deep_view() == b.deep_view()),
{
    if a.len() != b.len() {
        proof {
            assert(a.deep_view().len() != b.deep_view().len());
        }
        return false;
    }
    let mut i: usize = 0;
    while i < a.len()
        invariant
            0 <= i <= a@.len(),
            a@.len() == b@.len(),
            forall|j: int| 0 <= j < i ==> a@[j].deep_view() == b@[j].deep_view(),
        decreases a@.len() - i,
    {
        if !succ_eq(&a[i], &b[i]) {
            proof {
                assert(a.deep_view()[i as int] != b.deep_view()[i as int]);
            }
            return false;
        }
        i += 1;
    }
    proof {
        assert(a.deep_view() =~= b.deep_view());
    }
    true
}

fn entry_eq(a: &ContextEntry, b: &ContextEntry) -> (r: bool)
    ensures
        r == (a@ == b@),
{
    context_eq(&a.context, &b.context) && succs_eq(&a.successors, &b.successors)
}

impl ModelState {
    /// Structural equality of two models: the same order and identical count
    /// tables, entry for entry and count for count.
    pub fn model_eq(&self, other: &ModelState) -> (r: bool)
        ensures
            r == (self@ == other@),
    {
        if self.order != other.order {
            return false;
        }
        if self.table.len() != other.table.len() {
            proof {
                assert(self@.table.len() != other@.table.len());
            }
            return false;
        }
        let mut i: usize = 0;
        while i < self.table.len()
            invariant
                0 <= i <= self.table@.len(),
                self.table@.len() == other.table@.len(),
                forall|j: int|
                    0 <= j < i ==> self.table@[j].deep_view() == other.table@[j].deep_view(),
            decreases self.table@.len() - i,
        {
            if !entry_eq(&self.table[i], &other.table[i]) {
                proof {
                    assert(self@.table[i as int] != other@.table[i as int]);
                }
                return false;
            }
            i += 1;
        }
        proof {
            assert(self@.table =~= other@.table);
            assert(self@ =~= other@);
        }
        true
    }
}

} // verus!
