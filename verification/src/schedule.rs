//! The multi-scale chunk scheduler.
//!
//! Training makes one full pass over the history per scheduled chunk size.
//! The schedule is a strictly ascending geometric sequence: it starts at the
//! initial chunk size, multiplies by a rational growth factor `num/den > 1`
//! at each step (advancing by at least one, so a slow factor still makes
//! progress), and stops strictly before the first value at or above
//! `history_len / divisor`.

use vstd::prelude::*;

use crate::errors::MarkyError;
use vstd::arithmetic::power::pow;

verus! {

/// The chunk size after one growth step: the rational product, floored, but
/// always at least one more than the current size.
pub open spec fn next_chunk(c: int, num: int, den: int) -> int {
    let grown = (c * num) / den;
    if grown <= c {
        c + 1
    } else {
        grown
    }
}

/// The ascending chunk sizes from `c` up to (strictly below) `ceiling`.
pub open spec fn plan_spec(c: int, ceiling: int, num: int, den: int) -> Seq<usize>
    decreases ceiling - c,
{
    if c >= ceiling {
        Seq::empty()
    } else {
        let stepped = next_chunk(c, num, den);
        let clamped = if stepped >= ceiling {
            ceiling
        } else {
            stepped
        };
        seq![c as usize] + plan_spec(clamped, ceiling, num, den)
    }
}

/// Whether a chunking configuration is accepted.
pub open spec fn schedule_valid(
    init_chunk_size: usize,
    growth_num: u64,
    growth_den: u64,
    divisor: usize,
) -> bool {
    init_chunk_size >= 1 && growth_den >= 1 && growth_num > growth_den && divisor >= 1
}

/// Produces the chunk schedule for a history of `history_len` rows, or
/// reports a degenerate configuration.
pub fn plan(
    history_len: usize,
    init_chunk_size: usize,
    growth_num: u64,
    growth_den: u64,
    divisor: usize,
) -> (r: Result<Vec<usize>, MarkyError>)
    ensures
        r.is_ok() <==> schedule_valid(init_chunk_size, growth_num, growth_den, divisor),
        r matches Err(e) ==> e == MarkyError::InvalidSchedule,
        r matches Ok(v) ==> v@ == plan_spec(
            init_chunk_size as int,
            (history_len / divisor as usize) as int,
            growth_num as int,
            growth_den as int,
        ),
{
    if init_chunk_size == 0 || divisor == 0 || growth_den == 0 || growth_num <= growth_den {
        return Err(MarkyError::InvalidSchedule);
    }
    let ceiling: usize = history_len / divisor;
    let ghost ceil_i = ceiling as int;
    let ghost num_i = growth_num as int;
    let ghost den_i = growth_den as int;
    let mut out: Vec<usize> = Vec::new();
    let mut c: usize = init_chunk_size;
    proof {
        assert(out@ + plan_spec(c as int, ceil_i, num_i, den_i) =~= plan_spec(
            c as int,
            ceil_i,
            num_i,
            den_i,
        ));
    }
    while c < ceiling
        invariant
            1 <= den_i < num_i,
            ceil_i == ceiling,
            num_i == growth_num,
            den_i == growth_den,
            plan_spec(init_chunk_size as int, ceil_i, num_i, den_i) == out@ + plan_spec(
                c as int,
                ceil_i,
                num_i,
                den_i,
            ),
        decreases ceiling - c,
    {
        let ghost c_i = c as int;
        let ghost out_before = out@;
        out.push(c);
        proof {
            assert(c_i * num_i <= 0xffff_ffff_ffff_ffff * 0xffff_ffff_ffff_ffff)
                by (nonlinear_arith)
                requires
                    0 <= c_i <= 0xffff_ffff_ffff_ffff,
                    0 <= num_i <= 0xffff_ffff_ffff_ffff,
            ;
        }
        let prod: u128 = (c as u128) * (growth_num as u128);
        let q: u128 = prod / (growth_den as u128);
        let stepped: u128 = if q <= c as u128 {
            (c + 1) as u128
        } else {
            q
        };
        proof {
            assert(stepped == next_chunk(c_i, num_i, den_i));
        }
        let next: usize = if stepped >= ceiling as u128 {
            ceiling
        } else {
            stepped as usize
        };
        proof {
            let clamped = if next_chunk(c_i, num_i, den_i) >= ceil_i {
                ceil_i
            } else {
                next_chunk(c_i, num_i, den_i)
            };
            assert(next == clamped);
            let rest = plan_spec(next as int, ceil_i, num_i, den_i);
            assert(plan_spec(c_i, ceil_i, num_i, den_i) == seq![c_i as usize] + rest);
            assert(out@ =~= out_before + seq![c_i as usize]);
            assert(out@ + rest =~= out_before + (seq![c_i as usize] + rest));
        }
        c = next;
    }
    proof {
        assert(plan_spec(c as int, ceil_i, num_i, den_i) =~= Seq::<usize>::empty());
        assert(out@ + Seq::<usize>::empty() =~= out@);
    }
    Ok(out)
}

/// The schedule starts at its base, stays strictly below the ceiling, and
/// strictly ascends.
pub proof fn lemma_plan_ascending(c: int, ceiling: int, num: int, den: int)
    requires
        1 <= c <= usize::MAX,
        ceiling <= usize::MAX,
        1 <= den < num,
    ensures
        plan_spec(c, ceiling, num, den).len() > 0 ==> plan_spec(c, ceiling, num, den)[0] == c,
        forall|i: int|
            0 <= i < plan_spec(c, ceiling, num, den).len() ==> c <= #[trigger] plan_spec(
                c,
                ceiling,
                num,
                den,
            )[i] < ceiling,
        forall|i: int|
            0 <= i && i + 1 < plan_spec(c, ceiling, num, den).len() ==> #[trigger] plan_spec(
                c,
                ceiling,
                num,
                den,
            )[i] < plan_spec(c, ceiling, num, den)[i + 1],
    decreases ceiling - c,
{
    let p = plan_spec(c, ceiling, num, den);
    if c < ceiling {
        let stepped = next_chunk(c, num, den);
        let clamped = if stepped >= ceiling {
            ceiling
        } else {
            stepped
        };
        lemma_plan_ascending(clamped, ceiling, num, den);
        let q = plan_spec(clamped, ceiling, num, den);
        assert(p == seq![c as usize] + q);
        assert(p[0] == c);
        assert(c < clamped);
        assert forall|i: int| 0 <= i < p.len() implies c <= #[trigger] p[i] < ceiling by {
            if i > 0 {
                assert(p[i] == q[i - 1]);
                assert(clamped <= q[i - 1] < ceiling);
            }
        }
        assert forall|i: int| 0 <= i && i + 1 < p.len() implies #[trigger] p[i] < p[i + 1] by {
            assert(p.len() == 1 + q.len());
            if i == 0 {
                assert(p[1] == (seq![c as usize] + q)[1]);
                assert(p[1] == q[0]);
                assert(q[0] == clamped);
            } else {
                assert(p[i] == (seq![c as usize] + q)[i]);
                assert(p[i] == q[i - 1]);
                assert(p[i + 1] == (seq![c as usize] + q)[i + 1]);
                assert(p[i + 1] == q[i]);
                assert(q[i - 1] < q[i]);
            }
        }
    }
}

/// The schedule is finite: its length never exceeds the gap between base and
/// ceiling.
pub proof fn lemma_plan_len(c: int, ceiling: int, num: int, den: int)
    requires
        1 <= c,
        1 <= den < num,
    ensures
        plan_spec(c, ceiling, num, den).len() <= if ceiling - c >= 0 {
            ceiling - c
        } else {
            0
        },
    decreases ceiling - c,
{
    if c < ceiling {
        let stepped = next_chunk(c, num, den);
        let clamped = if stepped >= ceiling {
            ceiling
        } else {
            stepped
        };
        lemma_plan_len(clamped, ceiling, num, den);
    }
}

/// For a whole-number growth factor the schedule is geometric, so its length
/// is logarithmic in the ceiling: the base times the factor raised to the
/// last index stays below the ceiling.
pub proof fn lemma_plan_geometric(c: int, ceiling: int, num: int)
    requires
        1 <= c,
        2 <= num,
    ensures
        plan_spec(c, ceiling, num, 1).len() > 0 ==> c * pow(
            num,
            (plan_spec(c, ceiling, num, 1).len() - 1) as nat,
        ) < ceiling,
    decreases ceiling - c,
{
    let p = plan_spec(c, ceiling, num, 1);
    if c < ceiling {
        let stepped = next_chunk(c, num, 1);
        assert(c * num > c) by (nonlinear_arith)
            requires
                1 <= c,
                2 <= num,
        ;
        assert((c * num) / 1 == c * num);
        assert(stepped == c * num);
        let clamped = if stepped >= ceiling {
            ceiling
        } else {
            stepped
        };
        lemma_plan_geometric(clamped, ceiling, num);
        let q = plan_spec(clamped, ceiling, num, 1);
        if q.len() == 0 {
            assert(p.len() == 1);
            assert(pow(num, 0) == 1) by {
                vstd::arithmetic::power::lemma_pow0(num);
            }
        } else {
            assert(clamped < ceiling);
            assert(clamped == c * num);
            let k = (q.len() - 1) as nat;
            assert((c * num) * pow(num, k) < ceiling);
            assert(c * pow(num, k + 1) == (c * num) * pow(num, k)) by {
                reveal(pow);
                assert(pow(num, k + 1) == num * pow(num, k));
                assert(c * (num * pow(num, k)) == (c * num) * pow(num, k)) by (nonlinear_arith);
            }
            assert(p.len() - 1 == k + 1);
        }
    }
}

} // verus!
