use vstd::prelude::*;
use vstd::arithmetic::power::pow;

verus! {

/// The value of a little-endian mixed-radix counter whose digits range over
/// `lo ..= lo + base - 1`: the first digit is the least significant.
pub open spec fn rank(d: Seq<int>, lo: int, base: int) -> int
    decreases d.len(),
{
    if d.len() == 0 {
        0
    } else {
        (d[0] - lo) + base * rank(d.drop_first(), lo, base)
    }
}

pub open spec fn digits_in(d: Seq<int>, lo: int, hi: int) -> bool {
    forall|k: int| 0 <= k < d.len() ==> lo <= #[trigger] d[k] <= hi
}

pub open spec fn operand_digits(s: Seq<i64>) -> Seq<int> {
    s.map_values(|x: i64| x as int)
}

pub open spec fn operator_digits(s: Seq<usize>) -> Seq<int> {
    s.map_values(|x: usize| x as int)
}

/// Every counter value lies below `base` to the number of digits.
pub proof fn lemma_rank_bound(d: Seq<int>, lo: int, hi: int)
    requires
        lo <= hi,
        digits_in(d, lo, hi),
    ensures
        0 <= rank(d, lo, hi - lo + 1) < pow(hi - lo + 1, d.len()),
    decreases d.len(),
{
    let b = hi - lo + 1;
    if d.len() > 0 {
        let t = d.drop_first();
        assert(digits_in(t, lo, hi)) by {
            assert forall|k: int| 0 <= k < t.len() implies lo <= #[trigger] t[k] <= hi by {
                assert(t[k] == d[k + 1]);
            }
        }
        lemma_rank_bound(t, lo, hi);
        assert(lo <= d[0] <= hi);
        let x = d[0] - lo;
        let y = rank(t, lo, b);
        let p = pow(b, t.len());
        assert(pow(b, d.len()) == b * p) by {
            reveal(pow);
        }
        assert(0 <= x + b * y < b * p) by (nonlinear_arith)
            requires
                0 <= x < b,
                0 <= y < p,
        ;
    } else {
        assert(pow(b, 0) == 1) by {
            reveal(pow);
        }
    }
}

/// Two counters with the same digits count and the same value have the same digits.
pub proof fn lemma_rank_injective(x: Seq<int>, y: Seq<int>, lo: int, hi: int)
    requires
        lo <= hi,
        x.len() == y.len(),
        digits_in(x, lo, hi),
        digits_in(y, lo, hi),
        rank(x, lo, hi - lo + 1) == rank(y, lo, hi - lo + 1),
    ensures
        x == y,
    decreases x.len(),
{
    let b = hi - lo + 1;
    if x.len() > 0 {
        let tx = x.drop_first();
        let ty = y.drop_first();
        assert(digits_in(tx, lo, hi)) by {
            assert forall|k: int| 0 <= k < tx.len() implies lo <= #[trigger] tx[k] <= hi by {
                assert(tx[k] == x[k + 1]);
            }
        }
        assert(digits_in(ty, lo, hi)) by {
            assert forall|k: int| 0 <= k < ty.len() implies lo <= #[trigger] ty[k] <= hi by {
                assert(ty[k] == y[k + 1]);
            }
        }
        lemma_rank_bound(tx, lo, hi);
        lemma_rank_bound(ty, lo, hi);
        assert(lo <= x[0] <= hi && lo <= y[0] <= hi);
        let p = rank(tx, lo, b);
        let q = rank(ty, lo, b);
        let u = x[0] - lo;
        let v = y[0] - lo;
        assert(u == v && p == q) by (nonlinear_arith)
            requires
                0 <= u < b,
                0 <= v < b,
                0 <= p,
                0 <= q,
                u + b * p == v + b * q,
        {
            if p < q {
                assert(b * p + b <= b * q);
            } else if q < p {
                assert(b * q + b <= b * p);
            }
        }
        lemma_rank_injective(tx, ty, lo, hi);
        assert(x =~= seq![x[0]] + tx);
        assert(y =~= seq![y[0]] + ty);
    } else {
        assert(x =~= y);
    }
}

/// No counter value exceeds the one with every digit at `hi`.
pub proof fn lemma_rank_le_max(x: Seq<int>, y: Seq<int>, lo: int, hi: int)
    requires
        lo <= hi,
        x.len() == y.len(),
        digits_in(x, lo, hi),
        forall|k: int| 0 <= k < y.len() ==> y[k] == hi,
    ensures
        rank(x, lo, hi - lo + 1) <= rank(y, lo, hi - lo + 1),
    decreases x.len(),
{
    let b = hi - lo + 1;
    if x.len() > 0 {
        let tx = x.drop_first();
        let ty = y.drop_first();
        assert(digits_in(tx, lo, hi)) by {
            assert forall|k: int| 0 <= k < tx.len() implies lo <= #[trigger] tx[k] <= hi by {
                assert(tx[k] == x[k + 1]);
            }
        }
        assert forall|k: int| 0 <= k < ty.len() implies ty[k] == hi by {
            assert(ty[k] == y[k + 1]);
        }
        lemma_rank_le_max(tx, ty, lo, hi);
        assert(lo <= x[0] <= hi);
        let p = rank(tx, lo, b);
        let q = rank(ty, lo, b);
        assert(b * p <= b * q) by (nonlinear_arith)
            requires
                b >= 1,
                p <= q,
        ;
    }
}

/// One step of the counter: the leading run of digits at `hi` goes back to
/// `lo` and the next digit goes up by one. The value goes up by one.
pub proof fn lemma_rank_step(a: Seq<int>, b: Seq<int>, i: int, lo: int, hi: int)
    requires
        lo <= hi,
        a.len() == b.len(),
        0 <= i < a.len(),
        forall|j: int| 0 <= j < i ==> a[j] == hi && b[j] == lo,
        a[i] < hi,
        b[i] == a[i] + 1,
        forall|j: int| i < j < a.len() ==> b[j] == a[j],
    ensures
        rank(b, lo, hi - lo + 1) == rank(a, lo, hi - lo + 1) + 1,
    decreases i,
{
    let base = hi - lo + 1;
    if i == 0 {
        assert(b.drop_first() =~= a.drop_first());
    } else {
        let ta = a.drop_first();
        let tb = b.drop_first();
        assert forall|j: int| 0 <= j < i - 1 implies ta[j] == hi && tb[j] == lo by {
            assert(a[j + 1] == hi && b[j + 1] == lo);
        }
        assert forall|j: int| i - 1 < j < ta.len() implies tb[j] == ta[j] by {
            assert(b[j + 1] == a[j + 1]);
        }
        lemma_rank_step(ta, tb, i - 1, lo, hi);
        let y = rank(ta, lo, base);
        assert(base * (y + 1) == base * y + base) by (nonlinear_arith);
    }
}

/// Steps the operand counter: every digit ranges over `1 ..= max_number`.
/// Returns `false`, with every digit back at 1, when the counter was at its
/// last value (every digit at `max_number`).
pub fn next_operands(ints: &mut Vec<i64>, max_number: i64) -> (more: bool)
    requires
        max_number >= 1,
        digits_in(operand_digits(old(ints)@), 1, max_number as int),
    ensures
        final(ints)@.len() == old(ints)@.len(),
        digits_in(operand_digits(final(ints)@), 1, max_number as int),
        more ==> rank(operand_digits(final(ints)@), 1, max_number as int) == rank(operand_digits(old(ints)@), 1, max_number as int) + 1,
        !more <==> forall|k: int| 0 <= k < old(ints)@.len() ==> old(ints)@[k] == max_number,
        !more ==> forall|k: int| 0 <= k < final(ints)@.len() ==> final(ints)@[k] == 1,
{
    let ghost start = ints@;
    let n = ints.len();
    let mut i: usize = 0;
    while i < n && ints[i] == max_number
        invariant
            n == ints@.len(),
            i <= ints@.len(),
            ints@.len() == start.len(),
            forall|j: int| 0 <= j < i ==> ints@[j] == 1,
            forall|j: int| 0 <= j < i ==> start[j] == max_number,
            forall|j: int| i <= j < ints@.len() ==> ints@[j] == start[j],
        decreases ints@.len() - i,
    {
        let ghost pre = ints@;
        ints.set(i, 1);
        proof {
            assert(pre[i as int] == start[i as int]);
            assert forall|j: int| 0 <= j <= i implies ints@[j] == 1 && start[j] == max_number by {
                if j < i {
                    assert(pre[j] == 1);
                }
            }
        }
        i += 1;
    }
    proof {
        assert(digits_in(operand_digits(start), 1, max_number as int));
        assert forall|k: int| 0 <= k < start.len() implies 1 <= #[trigger] start[k] <= max_number by {
            assert(operand_digits(start)[k] == start[k] as int);
        }
    }
    if i < ints.len() {
        let c = ints[i];
        assert(c == start[i as int] && c != max_number);
        ints.set(i, c + 1);
        proof {
            assert(!(start[i as int] == max_number));
            assert forall|k: int| 0 <= k < ints@.len() implies 1 <= #[trigger] operand_digits(ints@)[k] <= max_number by {
                assert(operand_digits(ints@)[k] == ints@[k] as int);
                assert(operand_digits(start)[k] == start[k] as int);
            }
            lemma_rank_step(operand_digits(start), operand_digits(ints@), i as int, 1, max_number as int);
            assert(!(start[i as int] == max_number));
        }
        true
    } else {
        proof {
            assert forall|k: int| 0 <= k < ints@.len() implies 1 <= #[trigger] operand_digits(ints@)[k] <= max_number by {
                assert(operand_digits(ints@)[k] == ints@[k] as int);
            }
        }
        false
    }
}

/// Steps the operator counter: every digit ranges over `0 ..= max_index`.
/// Returns `false`, with every digit back at 0, when the counter was at its
/// last value (every digit at `max_index`).
pub fn next_operators(ops: &mut Vec<usize>, max_index: usize) -> (more: bool)
    requires
        digits_in(operator_digits(old(ops)@), 0, max_index as int),
    ensures
        final(ops)@.len() == old(ops)@.len(),
        digits_in(operator_digits(final(ops)@), 0, max_index as int),
        more ==> rank(operator_digits(final(ops)@), 0, max_index + 1) == rank(operator_digits(old(ops)@), 0, max_index + 1) + 1,
        !more <==> forall|k: int| 0 <= k < old(ops)@.len() ==> old(ops)@[k] == max_index,
        !more ==> forall|k: int| 0 <= k < final(ops)@.len() ==> final(ops)@[k] == 0,
{
    let ghost start = ops@;
    let mut i: usize = 0;
    while i < ops.len() && ops[i] == max_index
        invariant
            i <= ops@.len(),
            ops@.len() == start.len(),
            forall|j: int| 0 <= j < i ==> ops@[j] == 0,
            forall|j: int| 0 <= j < i ==> start[j] == max_index,
            forall|j: int| i <= j < ops@.len() ==> ops@[j] == start[j],
        decreases ops@.len() - i,
    {
        let ghost pre = ops@;
        ops.set(i, 0);
        proof {
            assert(pre[i as int] == start[i as int]);
            assert forall|j: int| 0 <= j <= i implies ops@[j] == 0 && start[j] == max_index by {
                if j < i {
                    assert(pre[j] == 0);
                }
            }
        }
        i += 1;
    }
    proof {
        assert forall|k: int| 0 <= k < start.len() implies #[trigger] start[k] <= max_index by {
            assert(operator_digits(start)[k] == start[k] as int);
        }
    }
    if i < ops.len() {
        let c = ops[i];
        assert(c == start[i as int] && c != max_index);
        ops.set(i, c + 1);
        proof {
            assert(!(start[i as int] == max_index));
            assert forall|k: int| 0 <= k < ops@.len() implies 0 <= #[trigger] operator_digits(ops@)[k] <= max_index by {
                assert(operator_digits(ops@)[k] == ops@[k] as int);
                assert(operator_digits(start)[k] == start[k] as int);
            }
            lemma_rank_step(operator_digits(start), operator_digits(ops@), i as int, 0, max_index as int);
        }
        true
    } else {
        proof {
            assert forall|k: int| 0 <= k < ops@.len() implies 0 <= #[trigger] operator_digits(ops@)[k] <= max_index by {
                assert(operator_digits(ops@)[k] == ops@[k] as int);
            }
        }
        false
    }
}

} // verus!
