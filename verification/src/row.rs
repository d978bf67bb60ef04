//! The typed row representation and the sentinel-tagged tokens the Markov
//! model works over.
//!
//! A run works with exactly one of six row shapes, chosen once at startup.
//! Vector shapes have variable arity: each parsed record carries its own
//! field count. Sentinels (`Start`, `End`) are first-class token variants, so
//! the model's context and successor tables speak of them directly.

use vstd::prelude::*;

use crate::float_bits::FloatKey;

verus! {

/// The closed set of row shapes a run can select.
#[derive(Clone, Copy, PartialEq, Eq, Structural, Debug)]
pub enum RowShape {
    PriceVolume,
    Ohlc,
    Ohlcv,
    FloatVector,
    IntVector,
    UintVector,
}

/// One observation, in one of the six supported shapes.
#[derive(Debug)]
pub enum Row {
    PriceVolume { price: FloatKey, volume: u64 },
    Ohlc { open: FloatKey, high: FloatKey, low: FloatKey, close: FloatKey },
    Ohlcv { open: FloatKey, high: FloatKey, low: FloatKey, close: FloatKey, volume: u64 },
    FloatVector(Vec<FloatKey>),
    IntVector(Vec<i64>),
    UintVector(Vec<u64>),
}

/// The mathematical value of a row.
#[verifier::ext_equal]
pub enum RowV {
    PriceVolume { price: FloatKey, volume: u64 },
    Ohlc { open: FloatKey, high: FloatKey, low: FloatKey, close: FloatKey },
    Ohlcv { open: FloatKey, high: FloatKey, low: FloatKey, close: FloatKey, volume: u64 },
    FloatVector(Seq<FloatKey>),
    IntVector(Seq<i64>),
    UintVector(Seq<u64>),
}

impl View for Row {
    type V = RowV;

    open spec fn view(&self) -> RowV {
        match self {
            Row::PriceVolume { price, volume } => RowV::PriceVolume {
                price: *price,
                volume: *volume,
            },
            Row::Ohlc { open, high, low, close } => RowV::Ohlc {
                open: *open,
                high: *high,
                low: *low,
                close: *close,
            },
            Row::Ohlcv { open, high, low, close, volume } => RowV::Ohlcv {
                open: *open,
                high: *high,
                low: *low,
                close: *close,
                volume: *volume,
            },
            Row::FloatVector(v) => RowV::FloatVector(v@),
            Row::IntVector(v) => RowV::IntVector(v@),
            Row::UintVector(v) => RowV::UintVector(v@),
        }
    }
}

impl DeepView for Row {
    type V = RowV;

    open spec fn deep_view(&self) -> RowV {
        self.view()
    }
}

/// The shape a row value belongs to.
pub open spec fn shape_of(r: RowV) -> RowShape {
    match r {
        RowV::PriceVolume { .. } => RowShape::PriceVolume,
        RowV::Ohlc { .. } => RowShape::Ohlc,
        RowV::Ohlcv { .. } => RowShape::Ohlcv,
        RowV::FloatVector(_) => RowShape::FloatVector,
        RowV::IntVector(_) => RowShape::IntVector,
        RowV::UintVector(_) => RowShape::UintVector,
    }
}

/// A row or one of the two sentinel markers bounding a fed sequence.
#[derive(Debug)]
pub enum Token {
    Start,
    End,
    Row(Row),
}

/// The mathematical value of a token.
#[verifier::ext_equal]
pub enum TokenV {
    Start,
    End,
    Row(RowV),
}

impl View for Token {
    type V = TokenV;

    open spec fn view(&self) -> TokenV {
        match self {
            Token::Start => TokenV::Start,
            Token::End => TokenV::End,
            Token::Row(r) => TokenV::Row(r@),
        }
    }
}

impl DeepView for Token {
    type V = TokenV;

    open spec fn deep_view(&self) -> TokenV {
        self.view()
    }
}

fn eq_fkey_vec(a: &Vec<FloatKey>, b: &Vec<FloatKey>) -> (r: bool)
    ensures
        r == (a@ == b@),
{
    if a.len() != b.len() {
        return false;
    }
    let mut i: usize = 0;
    while i < a.len()
        invariant
            0 <= i <= a.len(),
            a@.len() == b@.len(),
            forall|j: int| 0 <= j < i ==> a@[j] == b@[j],
        decreases a.len() - i,
    {
        if a[i] != b[i] {
            return false;
        }
        i += 1;
    }
    proof {
        assert(a@ =~= b@);
    }
    true
}

fn eq_i64_vec(a: &Vec<i64>, b: &Vec<i64>) -> (r: bool)
    ensures
        r == (a@ == b@),
{
    if a.len() != b.len() {
        return false;
    }
    let mut i: usize = 0;
    while i < a.len()
        invariant
            0 <= i <= a.len(),
            a@.len() == b@.len(),
            forall|j: int| 0 <= j < i ==> a@[j] == b@[j],
        decreases a.len() - i,
    {
        if a[i] != b[i] {
            return false;
        }
        i += 1;
    }
    proof {
        assert(a@ =~= b@);
    }
    true
}

fn eq_u64_vec(a: &Vec<u64>, b: &Vec<u64>) -> (r: bool)
    ensures
        r == (a@ == b@),
{
    if a.len() != b.len() {
        return false;
    }
    let mut i: usize = 0;
    while i < a.len()
        invariant
            0 <= i <= a.len(),
            a@.len() == b@.len(),
            forall|j: int| 0 <= j < i ==> a@[j] == b@[j],
        decreases a.len() - i,
    {
        if a[i] != b[i] {
            return false;
        }
        i += 1;
    }
    proof {
        assert(a@ =~= b@);
    }
    true
}

/// Structural equality of two rows, at the level of their values.
pub fn row_eq(a: &Row, b: &Row) -> (r: bool)
    ensures
        r == (a@ == b@),
{
    match (a, b) {
        (
            Row::PriceVolume { price: p1, volume: v1 },
            Row::PriceVolume { price: p2, volume: v2 },
        ) => *p1 == *p2 && *v1 == *v2,
        (
            Row::Ohlc { open: o1, high: h1, low: l1, close: c1 },
            Row::Ohlc { open: o2, high: h2, low: l2, close: c2 },
        ) => *o1 == *o2 && *h1 == *h2 && *l1 == *l2 && *c1 == *c2,
        (
            Row::Ohlcv { open: o1, high: h1, low: l1, close: c1, volume: v1 },
            Row::Ohlcv { open: o2, high: h2, low: l2, close: c2, volume: v2 },
        ) => *o1 == *o2 && *h1 == *h2 && *l1 == *l2 && *c1 == *c2 && *v1 == *v2,
        (Row::FloatVector(x), Row::FloatVector(y)) => eq_fkey_vec(x, y),
        (Row::IntVector(x), Row::IntVector(y)) => eq_i64_vec(x, y),
        (Row::UintVector(x), Row::UintVector(y)) => eq_u64_vec(x, y),
        _ => false,
    }
}

/// Structural equality of two tokens.
pub fn token_eq(a: &Token, b: &Token) -> (r: bool)
    ensures
        r == (a@ == b@),
{
    match (a, b) {
        (Token::Start, Token::Start) => true,
        (Token::End, Token::End) => true,
        (Token::Row(x), Token::Row(y)) => row_eq(x, y),
        _ => false,
    }
}

/// Structural equality of two contexts (ordered token tuples).
pub fn context_eq(a: &Vec<Token>, b: &Vec<Token>) -> (r: bool)
    ensures
        r == (a.deep_view() == b.deep_view()),
{
    if a.len() != b.len() {
        proof {
            assert(a.deep_view().len() != b.deep_view().len());
        }
        return false;
    }
    let mut i: usize = 0;
    while i < a.len()
        invariant
            0 <= i <= a.len(),
            a@.len() == b@.len(),
            forall|j: int| 0 <= j < i ==> a@[j].deep_view() == b@[j].deep_view(),
        decreases a.len() - i,
    {
        if !token_eq(&a[i], &b[i]) {
            proof {
                assert(a.deep_view()[i as int] != b.deep_view()[i as int]);
            }
            return false;
        }
        i += 1;
    }
    proof {
        assert(a.deep_view() =~= b.deep_view());
    }
    true
}

fn copy_fkey_vec(v: &Vec<FloatKey>) -> (r: Vec<FloatKey>)
    ensures
        r@ == v@,
{
    let mut r: Vec<FloatKey> = Vec::new();
    let mut i: usize = 0;
    while i < v.len()
        invariant
            0 <= i <= v.len(),
            r@ =~= v@.subrange(0, i as int),
        decreases v.len() - i,
    {
        r.push(v[i]);
        i += 1;
    }
    proof {
        assert(r@ =~= v@);
    }
    r
}

fn copy_i64_vec(v: &Vec<i64>) -> (r: Vec<i64>)
    ensures
        r@ == v@,
{
    let mut r: Vec<i64> = Vec::new();
    let mut i: usize = 0;
    while i < v.len()
        invariant
            0 <= i <= v.len(),
            r@ =~= v@.subrange(0, i as int),
        decreases v.len() - i,
    {
        r.push(v[i]);
        i += 1;
    }
    proof {
        assert(r@ =~= v@);
    }
    r
}

fn copy_u64_vec(v: &Vec<u64>) -> (r: Vec<u64>)
    ensures
        r@ == v@,
{
    let mut r: Vec<u64> = Vec::new();
    let mut i: usize = 0;
    while i < v.len()
        invariant
            0 <= i <= v.len(),
            r@ =~= v@.subrange(0, i as int),
        decreases v.len() - i,
    {
        r.push(v[i]);
        i += 1;
    }
    proof {
        assert(r@ =~= v@);
    }
    r
}

impl Row {
    /// A copy with the same mathematical value.
    pub fn duplicate(&self) -> (r: Row)
        ensures
            r@ == self@,
    {
        match self {
            Row::PriceVolume { price, volume } => Row::PriceVolume {
                price: *price,
                volume: *volume,
            },
            Row::Ohlc { open, high, low, close } => Row::Ohlc {
                open: *open,
                high: *high,
                low: *low,
                close: *close,
            },
            Row::Ohlcv { open, high, low, close, volume } => Row::Ohlcv {
                open: *open,
                high: *high,
                low: *low,
                close: *close,
                volume: *volume,
            },
            Row::FloatVector(v) => Row::FloatVector(copy_fkey_vec(v)),
            Row::IntVector(v) => Row::IntVector(copy_i64_vec(v)),
            Row::UintVector(v) => Row::UintVector(copy_u64_vec(v)),
        }
    }
}

impl Token {
    /// A copy with the same mathematical value.
    pub fn duplicate(&self) -> (r: Token)
        ensures
            r@ == self@,
    {
        match self {
            Token::Start => Token::Start,
            Token::End => Token::End,
            Token::Row(row) => Token::Row(row.duplicate()),
        }
    }
}

/// A copy of the rows `v[from..to]`, by value.
pub fn slice_rows(v: &Vec<Row>, from: usize, to: usize) -> (r: Vec<Row>)
    requires
        from <= to <= v@.len(),
    ensures
        r.deep_view() == v.deep_view().subrange(from as int, to as int),
{
    let mut r: Vec<Row> = Vec::new();
    let mut i: usize = from;
    while i < to
        invariant
            from <= i <= to <= v@.len(),
            r.deep_view() =~= v.deep_view().subrange(from as int, i as int),
        decreases to - i,
    {
        let ghost before = r.deep_view();
        r.push(v[i].duplicate());
        proof {
            assert(r.deep_view() =~= before.push(v@[i as int].deep_view()));
            assert(r.deep_view() =~= v.deep_view().subrange(from as int, i + 1));
        }
        i += 1;
    }
    proof {
        assert(r.deep_view() =~= v.deep_view().subrange(from as int, to as int));
    }
    r
}

} // verus!
