//! The row codec: typed records to and from delimited-text fields.
//!
//! A record arrives as its fields' raw text together with the external text
//! layer's float lex of each field: the IEEE-754 bit pattern the field's text
//! denotes, where it denotes a float at all. Integer fields are parsed and
//! rendered here, with verified round trips. Float fields travel as bit
//! patterns, which the codec collapses to canonical form (one NaN pattern,
//! negative zero folded into positive zero); rendered floats leave as bit
//! patterns for the text layer to format, and Rust
//! documents that its float formatting parses back to the same value, so a
//! faithful text layer returns the bits unchanged.

use vstd::prelude::*;

use crate::errors::MarkyError;
use crate::float_bits::{
    FloatKey, key_of_bits, lemma_canonical_fixpoint, lemma_key_eq, lemma_key_of_bits,
};
use crate::numtext::{
    i64_dec, i64_to_dec, lemma_i64_round_trip, lemma_u64_round_trip, parse_i64, parse_i64_spec,
    parse_u64, parse_u64_spec, u64_dec, u64_to_dec,
};
use crate::row::{Row, RowShape, RowV, shape_of};

verus! {

/// One input field: the raw text, and the bit pattern of the float value the
/// text denotes, where the external text layer could lex it as a float.
pub struct RawField {
    pub text: String,
    pub float_bits: Option<u64>,
}

/// The mathematical value of an input field.
#[verifier::ext_equal]
pub struct RawFieldV {
    pub text: Seq<char>,
    pub float_bits: Option<u64>,
}

impl View for RawField {
    type V = RawFieldV;

    open spec fn view(&self) -> RawFieldV {
        RawFieldV { text: self.text@, float_bits: self.float_bits }
    }
}

impl DeepView for RawField {
    type V = RawFieldV;

    open spec fn deep_view(&self) -> RawFieldV {
        self.view()
    }
}

/// One output field: integer fields leave as rendered text, float fields as
/// the bit pattern the external text layer formats.
pub enum OutField {
    Text(String),
    FloatBits(u64),
}

/// The mathematical value of an output field.
#[verifier::ext_equal]
pub enum OutFieldV {
    Text(Seq<char>),
    FloatBits(u64),
}

impl View for OutField {
    type V = OutFieldV;

    open spec fn view(&self) -> OutFieldV {
        match self {
            OutField::Text(s) => OutFieldV::Text(s@),
            OutField::FloatBits(b) => OutFieldV::FloatBits(*b),
        }
    }
}

impl DeepView for OutField {
    type V = OutFieldV;

    open spec fn deep_view(&self) -> OutFieldV {
        self.view()
    }
}

/// The float key an input field denotes, if any.
pub open spec fn field_float(f: RawFieldV) -> Option<FloatKey> {
    match f.float_bits {
        Some(b) => Some(key_of_bits(b)),
        None => None,
    }
}

/// The float keys of a whole record, or `None` where any field is not a
/// float.
pub open spec fn parse_floats(fs: Seq<RawFieldV>) -> Option<Seq<FloatKey>>
    decreases fs.len(),
{
    if fs.len() == 0 {
        Some(Seq::empty())
    } else {
        match (parse_floats(fs.drop_last()), field_float(fs.last())) {
            (Some(v), Some(k)) => Some(v.push(k)),
            _ => None,
        }
    }
}

/// The signed integers of a whole record, or `None` where any field is not
/// a signed decimal.
pub open spec fn parse_ints(fs: Seq<RawFieldV>) -> Option<Seq<i64>>
    decreases fs.len(),
{
    if fs.len() == 0 {
        Some(Seq::empty())
    } else {
        match (parse_ints(fs.drop_last()), parse_i64_spec(fs.last().text)) {
            (Some(v), Some(n)) => Some(v.push(n)),
            _ => None,
        }
    }
}

/// The unsigned integers of a whole record, or `None` where any field is not
/// an unsigned decimal.
pub open spec fn parse_uints(fs: Seq<RawFieldV>) -> Option<Seq<u64>>
    decreases fs.len(),
{
    if fs.len() == 0 {
        Some(Seq::empty())
    } else {
        match (parse_uints(fs.drop_last()), parse_u64_spec(fs.last().text)) {
            (Some(v), Some(n)) => Some(v.push(n)),
            _ => None,
        }
    }
}

/// What parsing a record into the given shape yields: `None` exactly on a
/// field-count or type mismatch. Vector shapes accept any arity.
pub open spec fn parse_row_spec(shape: RowShape, fs: Seq<RawFieldV>) -> Option<RowV> {
    match shape {
        RowShape::PriceVolume => {
            if fs.len() == 2 {
                match (field_float(fs[0]), parse_u64_spec(fs[1].text)) {
                    (Some(p), Some(v)) => Some(RowV::PriceVolume { price: p, volume: v }),
                    _ => None,
                }
            } else {
                None
            }
        },
        RowShape::Ohlc => {
            if fs.len() == 4 {
                match (field_float(fs[0]), field_float(fs[1]), field_float(fs[2]), field_float(
                    fs[3],
                )) {
                    (Some(o), Some(h), Some(l), Some(c)) => Some(
                        RowV::Ohlc { open: o, high: h, low: l, close: c },
                    ),
                    _ => None,
                }
            } else {
                None
            }
        },
        RowShape::Ohlcv => {
            if fs.len() == 5 {
                match (field_float(fs[0]), field_float(fs[1]), field_float(fs[2]), field_float(
                    fs[3],
                ), parse_u64_spec(fs[4].text)) {
                    (Some(o), Some(h), Some(l), Some(c), Some(v)) => Some(
                        RowV::Ohlcv { open: o, high: h, low: l, close: c, volume: v },
                    ),
                    _ => None,
                }
            } else {
                None
            }
        },
        RowShape::FloatVector => match parse_floats(fs) {
            Some(v) => Some(RowV::FloatVector(v)),
            None => None,
        },
        RowShape::IntVector => match parse_ints(fs) {
            Some(v) => Some(RowV::IntVector(v)),
            None => None,
        },
        RowShape::UintVector => match parse_uints(fs) {
            Some(v) => Some(RowV::UintVector(v)),
            None => None,
        },
    }
}

/// What rendering a row yields: its fields in order, floats as bit patterns,
/// integers as decimal text.
pub open spec fn render_row_spec(r: RowV) -> Seq<OutFieldV> {
    match r {
        RowV::PriceVolume { price, volume } => seq![
            OutFieldV::FloatBits(price.spec_bits()),
            OutFieldV::Text(u64_dec(volume)),
        ],
        RowV::Ohlc { open, high, low, close } => seq![
            OutFieldV::FloatBits(open.spec_bits()),
            OutFieldV::FloatBits(high.spec_bits()),
            OutFieldV::FloatBits(low.spec_bits()),
            OutFieldV::FloatBits(close.spec_bits()),
        ],
        RowV::Ohlcv { open, high, low, close, volume } => seq![
            OutFieldV::FloatBits(open.spec_bits()),
            OutFieldV::FloatBits(high.spec_bits()),
            OutFieldV::FloatBits(low.spec_bits()),
            OutFieldV::FloatBits(close.spec_bits()),
            OutFieldV::Text(u64_dec(volume)),
        ],
        RowV::FloatVector(s) => s.map_values(|k: FloatKey| OutFieldV::FloatBits(k.spec_bits())),
        RowV::IntVector(s) => s.map_values(|n: i64| OutFieldV::Text(i64_dec(n))),
        RowV::UintVector(s) => s.map_values(|n: u64| OutFieldV::Text(u64_dec(n))),
    }
}

/// An output record as a faithful text layer hands it back in: rendered text
/// returned as written, and a float's bit pattern recovered exactly (Rust's
/// float formatting prints the shortest text that parses back to the same
/// value).
pub open spec fn relex(out: Seq<OutFieldV>) -> Seq<RawFieldV> {
    out.map_values(
        |f: OutFieldV|
            match f {
                OutFieldV::Text(s) => RawFieldV { text: s, float_bits: None },
                OutFieldV::FloatBits(b) => RawFieldV { text: Seq::empty(), float_bits: Some(b) },
            },
    )
}

/// Whether every float key a row holds is in canonical form. Every key the
/// codec constructs is.
pub open spec fn row_v_wf(r: RowV) -> bool {
    match r {
        RowV::PriceVolume { price, .. } => price.canonical(),
        RowV::Ohlc { open, high, low, close } => open.canonical() && high.canonical()
            && low.canonical() && close.canonical(),
        RowV::Ohlcv { open, high, low, close, .. } => open.canonical() && high.canonical()
            && low.canonical() && close.canonical(),
        RowV::FloatVector(s) => forall|i: int| 0 <= i < s.len() ==> (#[trigger] s[i]).canonical(),
        RowV::IntVector(_) => true,
        RowV::UintVector(_) => true,
    }
}

/// A canonical key comes back unchanged through render and relex.
proof fn lemma_key_round_trip(k: FloatKey)
    requires
        k.canonical(),
    ensures
        key_of_bits(k.spec_bits()) == k,
{
    lemma_canonical_fixpoint(k);
    lemma_key_of_bits(k.spec_bits());
    lemma_key_eq(key_of_bits(k.spec_bits()), k);
}

proof fn lemma_floats_round_trip(s: Seq<FloatKey>)
    requires
        forall|i: int| 0 <= i < s.len() ==> (#[trigger] s[i]).canonical(),
    ensures
        parse_floats(relex(s.map_values(|k: FloatKey| OutFieldV::FloatBits(k.spec_bits()))))
            == Some(s),
    decreases s.len(),
{
    let fs = relex(s.map_values(|k: FloatKey| OutFieldV::FloatBits(k.spec_bits())));
    if s.len() == 0 {
        assert(fs.len() == 0);
        assert(Seq::<FloatKey>::empty() =~= s);
    } else {
        let pre = s.drop_last();
        assert(forall|i: int| 0 <= i < pre.len() ==> pre[i] == #[trigger] s[i]);
        lemma_floats_round_trip(pre);
        let fpre = relex(pre.map_values(|k: FloatKey| OutFieldV::FloatBits(k.spec_bits())));
        assert(fs.drop_last() =~= fpre);
        assert(fs.last() == RawFieldV {
            text: Seq::empty(),
            float_bits: Some(s.last().spec_bits()),
        });
        lemma_key_round_trip(s.last());
        assert(pre.push(s.last()) =~= s);
    }
}

proof fn lemma_ints_round_trip(s: Seq<i64>)
    ensures
        parse_ints(relex(s.map_values(|n: i64| OutFieldV::Text(i64_dec(n))))) == Some(s),
    decreases s.len(),
{
    let fs = relex(s.map_values(|n: i64| OutFieldV::Text(i64_dec(n))));
    if s.len() == 0 {
        assert(fs.len() == 0);
        assert(Seq::<i64>::empty() =~= s);
    } else {
        let pre = s.drop_last();
        lemma_ints_round_trip(pre);
        let fpre = relex(pre.map_values(|n: i64| OutFieldV::Text(i64_dec(n))));
        assert(fs.drop_last() =~= fpre);
        assert(fs.last().text == i64_dec(s.last()));
        lemma_i64_round_trip(s.last());
        assert(pre.push(s.last()) =~= s);
    }
}

proof fn lemma_uints_round_trip(s: Seq<u64>)
    ensures
        parse_uints(relex(s.map_values(|n: u64| OutFieldV::Text(u64_dec(n))))) == Some(s),
    decreases s.len(),
{
    let fs = relex(s.map_values(|n: u64| OutFieldV::Text(u64_dec(n))));
    if s.len() == 0 {
        assert(fs.len() == 0);
        assert(Seq::<u64>::empty() =~= s);
    } else {
        let pre = s.drop_last();
        lemma_uints_round_trip(pre);
        let fpre = relex(pre.map_values(|n: u64| OutFieldV::Text(u64_dec(n))));
        assert(fs.drop_last() =~= fpre);
        assert(fs.last().text == u64_dec(s.last()));
        lemma_u64_round_trip(s.last());
        assert(pre.push(s.last()) =~= s);
    }
}

/// Round trip: rendering any row and parsing the record back through a
/// faithful text layer yields a value equal to the original. Float fields
/// hold canonical keys (NaN collapsed), so the round trip is exact.
pub proof fn lemma_row_round_trip(r: RowV)
    requires
        row_v_wf(r),
    ensures
        parse_row_spec(shape_of(r), relex(render_row_spec(r))) == Some(r),
{
    let fs = relex(render_row_spec(r));
    match r {
        RowV::PriceVolume { price, volume } => {
            assert(fs.len() == 2);
            assert(fs[0].float_bits == Some(price.spec_bits()));
            assert(fs[1].text == u64_dec(volume));
            lemma_key_round_trip(price);
            lemma_u64_round_trip(volume);
        },
        RowV::Ohlc { open, high, low, close } => {
            assert(fs.len() == 4);
            lemma_key_round_trip(open);
            lemma_key_round_trip(high);
            lemma_key_round_trip(low);
            lemma_key_round_trip(close);
            assert(fs[0].float_bits == Some(open.spec_bits()));
            assert(fs[1].float_bits == Some(high.spec_bits()));
            assert(fs[2].float_bits == Some(low.spec_bits()));
            assert(fs[3].float_bits == Some(close.spec_bits()));
        },
        RowV::Ohlcv { open, high, low, close, volume } => {
            assert(fs.len() == 5);
            lemma_key_round_trip(open);
            lemma_key_round_trip(high);
            lemma_key_round_trip(low);
            lemma_key_round_trip(close);
            lemma_u64_round_trip(volume);
            assert(fs[0].float_bits == Some(open.spec_bits()));
            assert(fs[1].float_bits == Some(high.spec_bits()));
            assert(fs[2].float_bits == Some(low.spec_bits()));
            assert(fs[3].float_bits == Some(close.spec_bits()));
            assert(fs[4].text == u64_dec(volume));
        },
        RowV::FloatVector(s) => {
            lemma_floats_round_trip(s);
        },
        RowV::IntVector(s) => {
            lemma_ints_round_trip(s);
        },
        RowV::UintVector(s) => {
            lemma_uints_round_trip(s);
        },
    }
}


proof fn lemma_parse_floats_none(fs: Seq<RawFieldV>, i: int)
    requires
        0 <= i < fs.len(),
        field_float(fs[i]) is None,
    ensures
        parse_floats(fs) is None,
    decreases fs.len(),
{
    if i < fs.len() - 1 {
        assert(fs.drop_last()[i] == fs[i]);
        lemma_parse_floats_none(fs.drop_last(), i);
    }
}

proof fn lemma_parse_ints_none(fs: Seq<RawFieldV>, i: int)
    requires
        0 <= i < fs.len(),
        parse_i64_spec(fs[i].text) is None,
    ensures
        parse_ints(fs) is None,
    decreases fs.len(),
{
    if i < fs.len() - 1 {
        assert(fs.drop_last()[i] == fs[i]);
        lemma_parse_ints_none(fs.drop_last(), i);
    }
}

proof fn lemma_parse_uints_none(fs: Seq<RawFieldV>, i: int)
    requires
        0 <= i < fs.len(),
        parse_u64_spec(fs[i].text) is None,
    ensures
        parse_uints(fs) is None,
    decreases fs.len(),
{
    if i < fs.len() - 1 {
        assert(fs.drop_last()[i] == fs[i]);
        lemma_parse_uints_none(fs.drop_last(), i);
    }
}

/// The float key an input field denotes, if any, in canonical form.
fn field_float_exec(f: &RawField) -> (r: Option<FloatKey>)
    ensures
        r == field_float(f@),
{
    match f.float_bits {
        Some(b) => Some(FloatKey::from_bits(b)),
        None => None,
    }
}

/// Parses one delimited-text record (as pre-lexed fields) into the active
/// shape; fails exactly on a field-count or type mismatch. Vector shapes
/// accept any arity: each record carries its own.
pub fn parse_row(shape: RowShape, fields: &Vec<RawField>) -> (r: Result<Row, MarkyError>)
    ensures
        match parse_row_spec(shape, fields.deep_view()) {
            Some(v) => r matches Ok(row) && row@ == v,
            None => r matches Err(e) && e == MarkyError::MalformedRecord,
        },
{
    let ghost fsv = fields.deep_view();
    match shape {
        RowShape::PriceVolume => {
            if fields.len() != 2 {
                return Err(MarkyError::MalformedRecord);
            }
            let price = match field_float_exec(&fields[0]) {
                Some(k) => k,
                None => {
                    return Err(MarkyError::MalformedRecord);
                },
            };
            let volume = match parse_u64(fields[1].text.as_str()) {
                Some(v) => v,
                None => {
                    return Err(MarkyError::MalformedRecord);
                },
            };
            Ok(Row::PriceVolume { price, volume })
        },
        RowShape::Ohlc => {
            if fields.len() != 4 {
                return Err(MarkyError::MalformedRecord);
            }
            let open = match field_float_exec(&fields[0]) {
                Some(k) => k,
                None => {
                    return Err(MarkyError::MalformedRecord);
                },
            };
            let high = match field_float_exec(&fields[1]) {
                Some(k) => k,
                None => {
                    return Err(MarkyError::MalformedRecord);
                },
            };
            let low = match field_float_exec(&fields[2]) {
                Some(k) => k,
                None => {
                    return Err(MarkyError::MalformedRecord);
                },
            };
            let close = match field_float_exec(&fields[3]) {
                Some(k) => k,
                None => {
                    return Err(MarkyError::MalformedRecord);
                },
            };
            Ok(Row::Ohlc { open, high, low, close })
        },
        RowShape::Ohlcv => {
            if fields.len() != 5 {
                return Err(MarkyError::MalformedRecord);
            }
            let open = match field_float_exec(&fields[0]) {
                Some(k) => k,
                None => {
                    return Err(MarkyError::MalformedRecord);
                },
            };
            let high = match field_float_exec(&fields[1]) {
                Some(k) => k,
                None => {
                    return Err(MarkyError::MalformedRecord);
                },
            };
            let low = match field_float_exec(&fields[2]) {
                Some(k) => k,
                None => {
                    return Err(MarkyError::MalformedRecord);
                },
            };
            let close = match field_float_exec(&fields[3]) {
                Some(k) => k,
                None => {
                    return Err(MarkyError::MalformedRecord);
                },
            };
            let volume = match parse_u64(fields[4].text.as_str()) {
                Some(v) => v,
                None => {
                    return Err(MarkyError::MalformedRecord);
                },
            };
            Ok(Row::Ohlcv { open, high, low, close, volume })
        },
        RowShape::FloatVector => {
            let mut keys: Vec<FloatKey> = Vec::new();
            let mut i: usize = 0;
            while i < fields.len()
                invariant
                    0 <= i <= fields@.len(),
                    fsv == fields.deep_view(),
                    fsv.len() == fields@.len(),
                    shape == RowShape::FloatVector,
                    parse_floats(fsv.subrange(0, i as int)) == Some(keys@),
                decreases fields@.len() - i,
            {
                proof {
                    assert(fsv.subrange(0, i + 1).drop_last() =~= fsv.subrange(0, i as int));
                    assert(fsv.subrange(0, i + 1).last() == fsv[i as int]);
                }
                match field_float_exec(&fields[i]) {
                    Some(k) => {
                        keys.push(k);
                    },
                    None => {
                        proof {
                            lemma_parse_floats_none(fsv, i as int);
                        }
                        return Err(MarkyError::MalformedRecord);
                    },
                }
                i += 1;
            }
            proof {
                assert(fsv.subrange(0, i as int) =~= fsv);
            }
            Ok(Row::FloatVector(keys))
        },
        RowShape::IntVector => {
            let mut vals: Vec<i64> = Vec::new();
            let mut i: usize = 0;
            while i < fields.len()
                invariant
                    0 <= i <= fields@.len(),
                    fsv == fields.deep_view(),
                    fsv.len() == fields@.len(),
                    shape == RowShape::IntVector,
                    parse_ints(fsv.subrange(0, i as int)) == Some(vals@),
                decreases fields@.len() - i,
            {
                proof {
                    assert(fsv.subrange(0, i + 1).drop_last() =~= fsv.subrange(0, i as int));
                    assert(fsv.subrange(0, i + 1).last() == fsv[i as int]);
                }
                match parse_i64(fields[i].text.as_str()) {
                    Some(n) => {
                        vals.push(n);
                    },
                    None => {
                        proof {
                            lemma_parse_ints_none(fsv, i as int);
                        }
                        return Err(MarkyError::MalformedRecord);
                    },
                }
                i += 1;
            }
            proof {
                assert(fsv.subrange(0, i as int) =~= fsv);
            }
            Ok(Row::IntVector(vals))
        },
        RowShape::UintVector => {
            let mut vals: Vec<u64> = Vec::new();
            let mut i: usize = 0;
            while i < fields.len()
                invariant
                    0 <= i <= fields@.len(),
                    fsv == fields.deep_view(),
                    fsv.len() == fields@.len(),
                    shape == RowShape::UintVector,
                    parse_uints(fsv.subrange(0, i as int)) == Some(vals@),
                decreases fields@.len() - i,
            {
                proof {
                    assert(fsv.subrange(0, i + 1).drop_last() =~= fsv.subrange(0, i as int));
                    assert(fsv.subrange(0, i + 1).last() == fsv[i as int]);
                }
                match parse_u64(fields[i].text.as_str()) {
                    Some(n) => {
                        vals.push(n);
                    },
                    None => {
                        proof {
                            lemma_parse_uints_none(fsv, i as int);
                        }
                        return Err(MarkyError::MalformedRecord);
                    },
                }
                i += 1;
            }
            proof {
                assert(fsv.subrange(0, i as int) =~= fsv);
            }
            Ok(Row::UintVector(vals))
        },
    }
}

/// Renders a row back into one record, field order and the shape's arity
/// preserved. Parsing the rendered record back through a faithful text layer
/// yields the row again: the codec's round trip, stated here for every row.
pub fn render_row(row: &Row) -> (out: Vec<OutField>)
    ensures
        out.deep_view() == render_row_spec(row@),
        parse_row_spec(shape_of(row@), relex(out.deep_view())) == Some(row@),
{
    let mut out: Vec<OutField> = Vec::new();
    match row {
        Row::PriceVolume { price, volume } => {
            proof {
                use_type_invariant(*price);
            }
            out.push(OutField::FloatBits(price.bits()));
            out.push(OutField::Text(u64_to_dec(*volume)));
            proof {
                assert(out.deep_view() =~= render_row_spec(row@));
                lemma_row_round_trip(row@);
            }
        },
        Row::Ohlc { open, high, low, close } => {
            proof {
                use_type_invariant(*open);
                use_type_invariant(*high);
                use_type_invariant(*low);
                use_type_invariant(*close);
            }
            out.push(OutField::FloatBits(open.bits()));
            out.push(OutField::FloatBits(high.bits()));
            out.push(OutField::FloatBits(low.bits()));
            out.push(OutField::FloatBits(close.bits()));
            proof {
                assert(out.deep_view() =~= render_row_spec(row@));
                lemma_row_round_trip(row@);
            }
        },
        Row::Ohlcv { open, high, low, close, volume } => {
            proof {
                use_type_invariant(*open);
                use_type_invariant(*high);
                use_type_invariant(*low);
                use_type_invariant(*close);
            }
            out.push(OutField::FloatBits(open.bits()));
            out.push(OutField::FloatBits(high.bits()));
            out.push(OutField::FloatBits(low.bits()));
            out.push(OutField::FloatBits(close.bits()));
            out.push(OutField::Text(u64_to_dec(*volume)));
            proof {
                assert(out.deep_view() =~= render_row_spec(row@));
                lemma_row_round_trip(row@);
            }
        },
        Row::FloatVector(v) => {
            let ghost sv = v@;
            let mut i: usize = 0;
            while i < v.len()
                invariant
                    0 <= i <= v@.len(),
                    sv == v@,
                    out.deep_view() =~= sv.subrange(0, i as int).map_values(
                        |k: FloatKey| OutFieldV::FloatBits(k.spec_bits()),
                    ),
                    forall|j: int| 0 <= j < i ==> (#[trigger] sv[j]).canonical(),
                decreases v@.len() - i,
            {
                let k = v[i];
                proof {
                    use_type_invariant(k);
                }
                let ghost before = out.deep_view();
                out.push(OutField::FloatBits(k.bits()));
                proof {
                    assert(out.deep_view() =~= before.push(OutFieldV::FloatBits(k.spec_bits())));
                    assert(out.deep_view() =~= sv.subrange(0, i + 1).map_values(
                        |k: FloatKey| OutFieldV::FloatBits(k.spec_bits()),
                    ));
                }
                i += 1;
            }
            proof {
                assert(sv.subrange(0, i as int) =~= sv);
                assert(out.deep_view() =~= render_row_spec(row@));
                assert(row_v_wf(row@));
                lemma_row_round_trip(row@);
            }
        },
        Row::IntVector(v) => {
            let ghost sv = v@;
            let mut i: usize = 0;
            while i < v.len()
                invariant
                    0 <= i <= v@.len(),
                    sv == v@,
                    out.deep_view() =~= sv.subrange(0, i as int).map_values(
                        |n: i64| OutFieldV::Text(i64_dec(n)),
                    ),
                decreases v@.len() - i,
            {
                let ghost before = out.deep_view();
                out.push(OutField::Text(i64_to_dec(v[i])));
                proof {
                    assert(out.deep_view() =~= before.push(OutFieldV::Text(i64_dec(sv[i as int]))));
                    assert(out.deep_view() =~= sv.subrange(0, i + 1).map_values(
                        |n: i64| OutFieldV::Text(i64_dec(n)),
                    ));
                }
                i += 1;
            }
            proof {
                assert(sv.subrange(0, i as int) =~= sv);
                assert(out.deep_view() =~= render_row_spec(row@));
                lemma_row_round_trip(row@);
            }
        },
        Row::UintVector(v) => {
            let ghost sv = v@;
            let mut i: usize = 0;
            while i < v.len()
                invariant
                    0 <= i <= v@.len(),
                    sv == v@,
                    out.deep_view() =~= sv.subrange(0, i as int).map_values(
                        |n: u64| OutFieldV::Text(u64_dec(n)),
                    ),
                decreases v@.len() - i,
            {
                let ghost before = out.deep_view();
                out.push(OutField::Text(u64_to_dec(v[i])));
                proof {
                    assert(out.deep_view() =~= before.push(OutFieldV::Text(u64_dec(sv[i as int]))));
                    assert(out.deep_view() =~= sv.subrange(0, i + 1).map_values(
                        |n: u64| OutFieldV::Text(u64_dec(n)),
                    ));
                }
                i += 1;
            }
            proof {
                assert(sv.subrange(0, i as int) =~= sv);
                assert(out.deep_view() =~= render_row_spec(row@));
                lemma_row_round_trip(row@);
            }
        },
    }
    out
}

/// The field count of a row.
pub open spec fn arity_of(r: RowV) -> nat {
    match r {
        RowV::PriceVolume { .. } => 2,
        RowV::Ohlc { .. } => 4,
        RowV::Ohlcv { .. } => 5,
        RowV::FloatVector(s) => s.len(),
        RowV::IntVector(s) => s.len(),
        RowV::UintVector(s) => s.len(),
    }
}

/// The field count of a row.
pub fn row_arity(row: &Row) -> (r: usize)
    ensures
        r as nat == arity_of(row@),
{
    match row {
        Row::PriceVolume { .. } => 2,
        Row::Ohlc { .. } => 4,
        Row::Ohlcv { .. } => 5,
        Row::FloatVector(v) => v.len(),
        Row::IntVector(v) => v.len(),
        Row::UintVector(v) => v.len(),
    }
}

/// Whether a shape has variable arity.
pub open spec fn is_vector_shape(shape: RowShape) -> bool {
    shape == RowShape::FloatVector || shape == RowShape::IntVector || shape
        == RowShape::UintVector
}

/// Parses a record and, when an expected arity is given, additionally
/// rejects a vector record whose arity differs from it. By default ragged
/// vector records are accepted row by row; this is the strict option.
pub fn parse_row_checked(
    shape: RowShape,
    expected_arity: Option<usize>,
    fields: &Vec<RawField>,
) -> (r: Result<Row, MarkyError>)
    ensures
        (is_vector_shape(shape) && (expected_arity matches Some(a) && fields.deep_view().len()
            != a)) ==> (r matches Err(e) && e == MarkyError::MalformedRecord),
        !(is_vector_shape(shape) && (expected_arity matches Some(a) && fields.deep_view().len()
            != a)) ==> match parse_row_spec(shape, fields.deep_view()) {
            Some(v) => r matches Ok(row) && row@ == v,
            None => r matches Err(e) && e == MarkyError::MalformedRecord,
        },
{
    let vector = match shape {
        RowShape::FloatVector => true,
        RowShape::IntVector => true,
        RowShape::UintVector => true,
        _ => false,
    };
    if vector {
        match expected_arity {
            Some(a) => {
                if fields.len() != a {
                    return Err(MarkyError::MalformedRecord);
                }
            },
            None => {},
        }
    }
    parse_row(shape, fields)
}

/// How many shape flags are set.
pub open spec fn selected_shapes(
    price_volume: bool,
    ohlc: bool,
    ohlcv: bool,
    float_vector: bool,
    int_vector: bool,
    uint_vector: bool,
) -> int {
    (if price_volume {
        1int
    } else {
        0
    }) + (if ohlc {
        1int
    } else {
        0
    }) + (if ohlcv {
        1int
    } else {
        0
    }) + (if float_vector {
        1int
    } else {
        0
    }) + (if int_vector {
        1int
    } else {
        0
    }) + (if uint_vector {
        1int
    } else {
        0
    })
}

/// What the row-shape selection flags resolve to: a configuration conflict
/// exactly when more than one flag is set; otherwise the one selected shape,
/// with the numeric-vector shape as the default when none is set.
pub open spec fn select_shape_spec(
    price_volume: bool,
    ohlc: bool,
    ohlcv: bool,
    float_vector: bool,
    int_vector: bool,
    uint_vector: bool,
) -> Result<RowShape, MarkyError> {
    if selected_shapes(price_volume, ohlc, ohlcv, float_vector, int_vector, uint_vector) > 1 {
        Err(MarkyError::ConfigConflict)
    } else if price_volume {
        Ok(RowShape::PriceVolume)
    } else if ohlc {
        Ok(RowShape::Ohlc)
    } else if ohlcv {
        Ok(RowShape::Ohlcv)
    } else if int_vector {
        Ok(RowShape::IntVector)
    } else if uint_vector {
        Ok(RowShape::UintVector)
    } else {
        Ok(RowShape::FloatVector)
    }
}

/// Resolves the row-shape selection flags: at most one shape may be
/// requested; none means the default numeric-vector shape.
pub fn select_shape(
    price_volume: bool,
    ohlc: bool,
    ohlcv: bool,
    float_vector: bool,
    int_vector: bool,
    uint_vector: bool,
) -> (r: Result<RowShape, MarkyError>)
    ensures
        r == select_shape_spec(price_volume, ohlc, ohlcv, float_vector, int_vector, uint_vector),
{
    if !price_volume && !ohlc && !ohlcv && !float_vector && !int_vector && !uint_vector {
        Ok(RowShape::FloatVector)
    } else if price_volume && !ohlc && !ohlcv && !float_vector && !int_vector && !uint_vector {
        Ok(RowShape::PriceVolume)
    } else if !price_volume && ohlc && !ohlcv && !float_vector && !int_vector && !uint_vector {
        Ok(RowShape::Ohlc)
    } else if !price_volume && !ohlc && ohlcv && !float_vector && !int_vector && !uint_vector {
        Ok(RowShape::Ohlcv)
    } else if !price_volume && !ohlc && !ohlcv && float_vector && !int_vector && !uint_vector {
        Ok(RowShape::FloatVector)
    } else if !price_volume && !ohlc && !ohlcv && !float_vector && int_vector && !uint_vector {
        Ok(RowShape::IntVector)
    } else if !price_volume && !ohlc && !ohlcv && !float_vector && !int_vector && uint_vector {
        Ok(RowShape::UintVector)
    } else {
        Err(MarkyError::ConfigConflict)
    }
}

} // verus!
