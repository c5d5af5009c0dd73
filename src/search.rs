use vstd::prelude::*;
use vstd::arithmetic::power::pow;
use crate::odometer::{
    digits_in, lemma_rank_bound, lemma_rank_injective, lemma_rank_le_max, next_operands, next_operators, operand_digits,
    operator_digits, rank,
};
use crate::operation::{Operation, OperationDictionary, fits_i64};
use crate::shapes::{has_all_shapes, lemma_shape_determines, make_options, roots_over, shapes_of, to_shape};
use crate::table::{ResultTable, recorded, texts};
use crate::tree::{Node, divides_by_zero, eval, eval_spec, lemma_defined_has_no_division_by_zero, render, render_spec, span, tree_ok};

verus! {

broadcast use vstd::std_specs::hash::group_hash_axioms;

/// `nodes`, `id`, `ints` and `ops` make an expression of `size` operands,
/// each in `1 ..= max_number`, with operators from `operations`, whose value
/// is `value` and whose text is `text`.
pub open spec fn is_expression(
    max_number: int,
    operations: Seq<Operation>,
    size: int,
    value: int,
    text: Seq<char>,
    nodes: Seq<Node>,
    id: int,
    ints: Seq<i64>,
    ops: Seq<Operation>,
) -> bool {
    &&& tree_ok(nodes, id)
    &&& span(nodes, id) == (0int, size)
    &&& ints.len() == size
    &&& forall|k: int| 0 <= k < size ==> 1 <= #[trigger] ints[k] <= max_number
    &&& ops.len() == size - 1
    &&& forall|k: int| 0 <= k < size - 1 ==> operations.contains(#[trigger] ops[k])
    &&& eval_spec(nodes, id, ints, ops) == Some(value)
    &&& render_spec(nodes, id, ints, ops) == text
}

/// Some expression of `size` operands evaluates to `value` and reads `text`.
pub open spec fn expressible(max_number: int, operations: Seq<Operation>, size: int, value: int, text: Seq<char>) -> bool {
    exists|nodes: Seq<Node>, id: int, ints: Seq<i64>, ops: Seq<Operation>|
        #[trigger] is_expression(max_number, operations, size, value, text, nodes, id, ints, ops)
}

/// Every entry of the table has a size in `1 ..= max_size` and distinct texts,
/// each that of an expression of that size with the entry's value; the
/// largest value is at least every key, and is 1 or a key.
pub open spec fn sound(t: ResultTable, max_number: int, operations: Seq<Operation>, max_size: int) -> bool {
    &&& forall|v: i64| #[trigger] t.entries@.contains_key(v) ==> {
        &&& 1 <= t.entries@[v].size <= max_size
        &&& texts(t.entries@[v]).len() >= 1
        &&& texts(t.entries@[v]).no_duplicates()
        &&& forall|j: int| 0 <= j < texts(t.entries@[v]).len() ==> expressible(
            max_number,
            operations,
            t.entries@[v].size as int,
            v as int,
            #[trigger] texts(t.entries@[v])[j],
        )
    }
    &&& t.max_observed >= 1
    &&& forall|v: i64| #[trigger] t.entries@.contains_key(v) ==> v <= t.max_observed
    &&& t.max_observed == 1 || t.entries@.contains_key(t.max_observed)
}

/// The table holds `value` with a smaller size, or with this size and this text.
pub open spec fn covers(t: ResultTable, size: int, value: i64, text: Seq<char>) -> bool {
    &&& t.entries@.contains_key(value)
    &&& t.entries@[value].size < size || (t.entries@[value].size == size && texts(t.entries@[value]).contains(text))
}

/// Every expression of at most `upto` operands is covered by the table.
pub open spec fn complete(t: ResultTable, max_number: int, operations: Seq<Operation>, upto: int) -> bool {
    forall|s: int, v: i64, text: Seq<char>, nodes: Seq<Node>, id: int, ints: Seq<i64>, ops: Seq<Operation>|
        1 <= s <= upto && #[trigger] is_expression(max_number, operations, s, v as int, text, nodes, id, ints, ops)
            ==> covers(t, s, v, text)
}

/// A value recorded with size `s` comes from no expression of fewer
/// operands: every expression with that value has at least `s` operands.
pub proof fn lemma_recorded_size_is_minimal(
    t: ResultTable,
    max_number: int,
    operations: Seq<Operation>,
    max_size: int,
    v: i64,
    s: int,
    text: Seq<char>,
    nodes: Seq<Node>,
    id: int,
    ints: Seq<i64>,
    ops: Seq<Operation>,
)
    requires
        sound(t, max_number, operations, max_size),
        complete(t, max_number, operations, max_size),
        1 <= s <= max_size,
        is_expression(max_number, operations, s, v as int, text, nodes, id, ints, ops),
    ensures
        t.entries@.contains_key(v),
        t.entries@[v].size <= s,
{
}

/// The outcome of a search is determined by its settings: two sound and
/// complete tables of one configuration hold the same values, with the same
/// sizes, the same texts (in any order) and the same largest value.
pub proof fn lemma_search_determined(t: ResultTable, u: ResultTable, max_number: int, operations: Seq<Operation>, max_size: int)
    requires
        sound(t, max_number, operations, max_size),
        complete(t, max_number, operations, max_size),
        sound(u, max_number, operations, max_size),
        complete(u, max_number, operations, max_size),
    ensures
        t.entries@.dom() == u.entries@.dom(),
        forall|v: i64| #[trigger] t.entries@.contains_key(v) ==> t.entries@[v].size == u.entries@[v].size
            && texts(t.entries@[v]).to_set() == texts(u.entries@[v]).to_set(),
        t.max_observed == u.max_observed,
{
    lemma_sound_complete_within(t, u, max_number, operations, max_size);
    lemma_sound_complete_within(u, t, max_number, operations, max_size);
    assert(t.entries@.dom() =~= u.entries@.dom());
    assert forall|v: i64| #[trigger] t.entries@.contains_key(v) implies t.entries@[v].size == u.entries@[v].size
        && texts(t.entries@[v]).to_set() == texts(u.entries@[v]).to_set() by {
        assert(texts(t.entries@[v]).to_set() =~= texts(u.entries@[v]).to_set());
    }
}

/// Each value of `t` is a value of `u` with no larger size, its texts are
/// among those of `u` where the sizes agree, and its largest value is no larger.
proof fn lemma_sound_complete_within(t: ResultTable, u: ResultTable, max_number: int, operations: Seq<Operation>, max_size: int)
    requires
        sound(t, max_number, operations, max_size),
        sound(u, max_number, operations, max_size),
        complete(u, max_number, operations, max_size),
    ensures
        forall|v: i64| #[trigger] t.entries@.contains_key(v) ==> u.entries@.contains_key(v) && u.entries@[v].size <= t.entries@[v].size,
        forall|v: i64, x: Seq<char>| t.entries@.contains_key(v) && u.entries@.contains_key(v) && u.entries@[v].size == t.entries@[v].size
            && #[trigger] texts(t.entries@[v]).contains(x) ==> texts(u.entries@[v]).contains(x),
        t.max_observed <= u.max_observed,
{
    assert forall|v: i64, x: Seq<char>| t.entries@.contains_key(v) && #[trigger] texts(t.entries@[v]).contains(x)
        implies covers(u, t.entries@[v].size as int, v, x) by {
        let j = choose|j: int| 0 <= j < texts(t.entries@[v]).len() && texts(t.entries@[v])[j] == x;
        assert(expressible(max_number, operations, t.entries@[v].size as int, v as int, texts(t.entries@[v])[j]));
        let (nodes, id, ints, ops) = choose|nodes: Seq<Node>, id: int, ints: Seq<i64>, ops: Seq<Operation>|
            is_expression(max_number, operations, t.entries@[v].size as int, v as int, x, nodes, id, ints, ops);
    }
    assert forall|v: i64| #[trigger] t.entries@.contains_key(v) implies u.entries@.contains_key(v) && u.entries@[v].size <= t.entries@[v].size by {
        assert(texts(t.entries@[v]).contains(texts(t.entries@[v])[0]));
        assert(covers(u, t.entries@[v].size as int, v, texts(t.entries@[v])[0]));
    }
    if t.max_observed != 1 {
        assert(t.entries@.contains_key(t.max_observed));
    }
}

/// The expression read from these slots, if defined, is covered at `size`.
pub open spec fn reached(t: ResultTable, size: int, nodes: Seq<Node>, id: int, ints: Seq<i64>, ops: Seq<Operation>) -> bool {
    match eval_spec(nodes, id, ints, ops) {
        Some(v) => fits_i64(v) ==> covers(t, size, v as i64, render_spec(nodes, id, ints, ops)),
        None => true,
    }
}

/// The operators that a sequence of positions of `operations` selects.
pub open spec fn op_seq(operations: Seq<Operation>, d: Seq<int>) -> Seq<Operation> {
    d.map_values(|k: int| operations[k])
}

/// Every operator assignment below `below` (or every one, with `all`) has
/// been tried with every operand assignment and every shape.
pub open spec fn operators_done(
    t: ResultTable,
    size: int,
    max_number: int,
    operations: Seq<Operation>,
    nodes: Seq<Node>,
    alts: Seq<usize>,
    below: int,
    all: bool,
) -> bool {
    forall|d: Seq<int>, ints: Seq<i64>, j: int|
        d.len() == size - 1 && digits_in(d, 0, operations.len() - 1) && (all || rank(d, 0, operations.len() as int) < below)
            && ints.len() == size && digits_in(operand_digits(ints), 1, max_number) && 0 <= j < alts.len()
            ==> #[trigger] reached(t, size, nodes, alts[j] as int, ints, op_seq(operations, d))
}

/// Every operand assignment below `below` (or every one, with `all`) has
/// been tried with the operators `ops` and every shape.
pub open spec fn operands_done(
    t: ResultTable,
    size: int,
    max_number: int,
    ops: Seq<Operation>,
    nodes: Seq<Node>,
    alts: Seq<usize>,
    below: int,
    all: bool,
) -> bool {
    forall|ints: Seq<i64>, j: int|
        ints.len() == size && digits_in(operand_digits(ints), 1, max_number) && (all || rank(operand_digits(ints), 1, max_number) < below)
            && 0 <= j < alts.len() ==> #[trigger] reached(t, size, nodes, alts[j] as int, ints, ops)
}

proof fn lemma_record_keeps(t: ResultTable, u: ResultTable, value: i64, size: usize, text: Seq<char>)
    requires
        recorded(t, u, value, size, text),
    ensures
        covers(u, size as int, value, text),
        forall|s: int, v: i64, x: Seq<char>| covers(t, s, v, x) ==> #[trigger] covers(u, s, v, x),
        forall|s: int, nodes: Seq<Node>, id: int, ints: Seq<i64>, ops: Seq<Operation>|
            reached(t, s, nodes, id, ints, ops) ==> #[trigger] reached(u, s, nodes, id, ints, ops),
{
    assert forall|s: int, v: i64, x: Seq<char>| covers(t, s, v, x) implies #[trigger] covers(u, s, v, x) by {
        if v == value && t.entries@[v].size == size && !texts(t.entries@[v]).contains(text) {
            let j = choose|j: int| 0 <= j < texts(t.entries@[v]).len() && texts(t.entries@[v])[j] == x;
            if t.entries@[v].size == s {
                assert(texts(u.entries@[v])[j] == x);
            }
        }
    }
    if t.entries@.contains_key(value) && t.entries@[value].size == size && !texts(t.entries@[value]).contains(text) {
        assert(texts(u.entries@[value])[texts(t.entries@[value]).len() as int] == text);
    }
    if !t.entries@.contains_key(value) || t.entries@[value].size > size {
        assert(texts(u.entries@[value])[0] == text);
    }
    assert forall|s: int, nodes: Seq<Node>, id: int, ints: Seq<i64>, ops: Seq<Operation>|
        reached(t, s, nodes, id, ints, ops) implies #[trigger] reached(u, s, nodes, id, ints, ops) by {
        if let Some(v) = eval_spec(nodes, id, ints, ops) {
            if fits_i64(v) {
                assert(covers(t, s, v as i64, render_spec(nodes, id, ints, ops)));
            }
        }
    }
}

proof fn lemma_complete_kept(t: ResultTable, u: ResultTable, max_number: int, operations: Seq<Operation>, upto: int)
    requires
        complete(t, max_number, operations, upto),
        forall|s: int, v: i64, x: Seq<char>| covers(t, s, v, x) ==> #[trigger] covers(u, s, v, x),
    ensures
        complete(u, max_number, operations, upto),
{
}

proof fn lemma_rank_zero(d: Seq<int>, lo: int, base: int)
    requires
        forall|k: int| 0 <= k < d.len() ==> d[k] == lo,
    ensures
        rank(d, lo, base) == 0,
    decreases d.len(),
{
    if d.len() > 0 {
        let t = d.drop_first();
        assert(d[0] == lo);
        assert forall|k: int| 0 <= k < t.len() implies t[k] == lo by {
            assert(t[k] == d[k + 1]);
        }
        lemma_rank_zero(t, lo, base);
    }
}

/// No text recorded in a sound table comes from an expression that divides
/// by zero: each text is that of an expression with the entry's value in which
/// no divisor evaluates to zero.
pub proof fn lemma_no_division_by_zero_recorded(t: ResultTable, max_number: int, operations: Seq<Operation>, max_size: int, v: i64, j: int)
    requires
        sound(t, max_number, operations, max_size),
        t.entries@.contains_key(v),
        0 <= j < texts(t.entries@[v]).len(),
    ensures
        exists|nodes: Seq<Node>, id: int, ints: Seq<i64>, ops: Seq<Operation>|
            #[trigger] is_expression(max_number, operations, t.entries@[v].size as int, v as int, texts(t.entries@[v])[j], nodes, id, ints, ops)
            && !divides_by_zero(nodes, id, ints, ops),
{
    let text = texts(t.entries@[v])[j];
    let size = t.entries@[v].size as int;
    assert(expressible(max_number, operations, size, v as int, text));
    let (nodes, id, ints, ops) = choose|nodes: Seq<Node>, id: int, ints: Seq<i64>, ops: Seq<Operation>|
        is_expression(max_number, operations, size, v as int, text, nodes, id, ints, ops);
    lemma_defined_has_no_division_by_zero(nodes, id, ints, ops);
}

proof fn lemma_record_sound(
    t: ResultTable,
    u: ResultTable,
    value: i64,
    size: usize,
    text: Seq<char>,
    max_number: int,
    operations: Seq<Operation>,
    max_size: int,
)
    requires
        sound(t, max_number, operations, max_size),
        recorded(t, u, value, size, text),
        1 <= size <= max_size,
        expressible(max_number, operations, size as int, value as int, text),
    ensures
        sound(u, max_number, operations, max_size),
{
    let m = t.entries@;
    let n = u.entries@;
    assert forall|v: i64| #[trigger] n.contains_key(v) implies {
        &&& 1 <= n[v].size <= max_size
        &&& texts(n[v]).len() >= 1
        &&& texts(n[v]).no_duplicates()
        &&& forall|j: int| 0 <= j < texts(n[v]).len() ==> expressible(
            max_number,
            operations,
            n[v].size as int,
            v as int,
            #[trigger] texts(n[v])[j],
        )
    } by {
        if v != value {
            assert(m.contains_key(v));
        } else if !m.contains_key(value) || m[value].size > size {
            assert(texts(n[v]).len() == 1);
            assert forall|j: int| 0 <= j < texts(n[v]).len() implies expressible(
                max_number,
                operations,
                n[v].size as int,
                v as int,
                #[trigger] texts(n[v])[j],
            ) by {
                assert(texts(n[v])[j] == text);
            }
        } else if m[value].size == size {
            let old_t = texts(m[value]);
            if !old_t.contains(text) {
                let new_t = old_t.push(text);
                assert forall|j: int| 0 <= j < new_t.len() implies expressible(
                    max_number,
                    operations,
                    size as int,
                    v as int,
                    #[trigger] new_t[j],
                ) by {
                    if j < old_t.len() {
                        assert(new_t[j] == old_t[j]);
                    }
                }
                assert forall|a: int, b: int| 0 <= a < b < new_t.len() implies new_t[a] != new_t[b] by {
                    if b == old_t.len() {
                        assert(new_t[a] == old_t[a]);
                    } else {
                        assert(old_t[a] != old_t[b]);
                    }
                }
            }
        }
    }
    assert forall|v: i64| #[trigger] n.contains_key(v) implies v <= u.max_observed by {
        if v != value {
            assert(m.contains_key(v));
        }
    }
}

/// Positions in `operations` that select the operators `ops`.
pub open spec fn positions_of(operations: Seq<Operation>, ops: Seq<Operation>) -> Seq<int> {
    Seq::new(ops.len(), |k: int| choose|i: int| 0 <= i < operations.len() && operations[i] == ops[k])
}

/// Evaluates every shape of `size` operands under every operator and operand
/// assignment, and records each defined result.
fn search_size(table: &mut ResultTable, size: usize, max_number: i64, dictionary: &OperationDictionary, Ghost(max_size): Ghost<int>)
    requires
        1 <= size <= max_size,
        max_number >= 1,
        size == 1 || dictionary.operations@.len() >= 1,
        sound(*old(table), max_number as int, dictionary.operations@, max_size),
        complete(*old(table), max_number as int, dictionary.operations@, size - 1),
    ensures
        sound(*final(table), max_number as int, dictionary.operations@, max_size),
        complete(*final(table), max_number as int, dictionary.operations@, size as int),
{
    let ghost operations = dictionary.operations@;
    let ghost mn = max_number as int;
    let n_ops = dictionary.operations.len();
    let mut composed = make_options(size);
    let ghost ops_total = pow(n_ops as int, (size - 1) as nat);
    let ghost ints_total = pow(max_number as int, size as nat);
    let ghost nodes0 = composed.nodes@;
    let ghost alts0 = composed.alternatives@;
    proof {
        assert(digits_in(operator_digits(composed.ops@), 0, n_ops - 1)) by {
            assert forall|k: int| 0 <= k < composed.ops@.len() implies 0 <= #[trigger] operator_digits(composed.ops@)[k] <= n_ops - 1 by {
                assert(operator_digits(composed.ops@)[k] == composed.ops@[k] as int);
            }
        }
        if n_ops >= 1 {
            lemma_rank_bound(operator_digits(composed.ops@), 0, n_ops - 1);
        } else {
            assert(composed.ops@.len() == 0);
            assert(operator_digits(composed.ops@).len() == 0);
            assert(pow(0, 0) == 1) by {
                reveal(pow);
            }
        }
        assert forall|k: int| 0 <= k < size - 1 implies #[trigger] operator_digits(composed.ops@)[k] == 0 by {
            assert(operator_digits(composed.ops@)[k] == composed.ops@[k] as int);
        }
        lemma_rank_zero(operator_digits(composed.ops@), 0, n_ops as int);
        assert forall|d: Seq<int>, ints: Seq<i64>, j: int|
            d.len() == size - 1 && digits_in(d, 0, operations.len() - 1) && rank(d, 0, operations.len() as int) < 0
                && ints.len() == size && digits_in(operand_digits(ints), 1, mn) && 0 <= j < alts0.len()
            implies #[trigger] reached(*table, size as int, nodes0, alts0[j] as int, ints, op_seq(operations, d)) by {
            if n_ops >= 1 {
                lemma_rank_bound(d, 0, n_ops - 1);
            } else {
                assert(d.len() == 0);
            }
        }
    }
    let mut op_finished = false;
    while !op_finished
        invariant
            1 <= size <= max_size,
            max_number >= 1,
            mn == max_number,
            n_ops == operations.len(),
            size == 1 || n_ops >= 1,
            operations == dictionary.operations@,
            ops_total == pow(n_ops as int, (size - 1) as nat),
            ints_total == pow(max_number as int, size as nat),
            composed.nodes@ == nodes0,
            composed.alternatives@ == alts0,
            composed.ints@.len() == size,
            composed.ops@.len() == size - 1,
            digits_in(operator_digits(composed.ops@), 0, n_ops - 1),
            !op_finished ==> 0 <= rank(operator_digits(composed.ops@), 0, n_ops as int) < ops_total,
            forall|j: int| 0 <= j < alts0.len() ==> alts0[j] < nodes0.len(),
            roots_over(nodes0, alts0, 0, size as int),
            has_all_shapes(shapes_of(nodes0, alts0), size as nat),
            sound(*table, mn, operations, max_size),
            complete(*table, mn, operations, size - 1),
            operators_done(*table, size as int, mn, operations, nodes0, alts0, rank(operator_digits(composed.ops@), 0, n_ops as int), op_finished),
        decreases (if op_finished { 0 } else { ops_total - rank(operator_digits(composed.ops@), 0, n_ops as int) }),
    {
        let ghost ops_now = composed.ops@;
        let mut k: usize = 0;
        while k < size
            invariant
                k <= size,
                composed.nodes@ == nodes0,
                composed.alternatives@ == alts0,
                composed.ops@ == ops_now,
                max_number >= 1,
                composed.ints@.len() == size,
                forall|x: int| 0 <= x < k ==> composed.ints@[x] == 1,
            decreases size - k,
        {
            composed.ints.set(k, 1);
            k += 1;
        }
        let mut current: Vec<Operation> = Vec::new();
        let mut o: usize = 0;
        while o < size - 1
            invariant
                o <= size - 1,
                composed.nodes@ == nodes0,
                composed.alternatives@ == alts0,
                composed.ops@ == ops_now,
                composed.ops@.len() == size - 1,
                n_ops == operations.len(),
                operations == dictionary.operations@,
                digits_in(operator_digits(composed.ops@), 0, n_ops - 1),
                current@.len() == o,
                forall|x: int| 0 <= x < o ==> operations.contains(#[trigger] current@[x]),
                forall|x: int| 0 <= x < o ==> #[trigger] current@[x] == operations[composed.ops@[x] as int],
            decreases size - 1 - o,
        {
            let d = composed.ops[o];
            proof {
                assert(operator_digits(composed.ops@)[o as int] == d as int);
            }
            let op = dictionary.operation(d);
            current.push(op);
            proof {
                assert(operations[d as int] == op);
                assert(operations.contains(current@[o as int]));
            }
            o += 1;
        }
        proof {
            assert(current@ =~= op_seq(operations, operator_digits(composed.ops@)));
            assert(digits_in(operand_digits(composed.ints@), 1, max_number as int)) by {
                assert forall|x: int| 0 <= x < composed.ints@.len() implies 1 <= #[trigger] operand_digits(composed.ints@)[x] <= max_number by {
                    assert(operand_digits(composed.ints@)[x] == composed.ints@[x] as int);
                }
            }
            lemma_rank_bound(operand_digits(composed.ints@), 1, max_number as int);
            assert forall|ints: Seq<i64>, j: int|
                ints.len() == size && digits_in(operand_digits(ints), 1, mn) && rank(operand_digits(ints), 1, mn) < rank(operand_digits(composed.ints@), 1, mn)
                    && 0 <= j < alts0.len() implies #[trigger] reached(*table, size as int, nodes0, alts0[j] as int, ints, current@) by {
                lemma_rank_bound(operand_digits(ints), 1, mn);
                assert forall|x: int| 0 <= x < size implies #[trigger] operand_digits(composed.ints@)[x] == 1 by {
                    assert(operand_digits(composed.ints@)[x] == composed.ints@[x] as int);
                }
                lemma_rank_zero(operand_digits(composed.ints@), 1, mn);
            }
        }
        let ghost ops_digits = operator_digits(composed.ops@);
        let mut finished = false;
        while !finished
            invariant
                1 <= size <= max_size,
                max_number >= 1,
                mn == max_number,
                n_ops == operations.len(),
                composed.nodes@ == nodes0,
                composed.alternatives@ == alts0,
                composed.ops@ == ops_now,
                ops_digits == operator_digits(composed.ops@),
                operations == dictionary.operations@,
                ints_total == pow(max_number as int, size as nat),
                composed.ints@.len() == size,
                digits_in(operand_digits(composed.ints@), 1, max_number as int),
                !finished ==> 0 <= rank(operand_digits(composed.ints@), 1, max_number as int) < ints_total,
                current@ == op_seq(operations, ops_digits),
                current@.len() == size - 1,
                forall|x: int| 0 <= x < size - 1 ==> operations.contains(#[trigger] current@[x]),
                forall|j: int| 0 <= j < alts0.len() ==> alts0[j] < nodes0.len(),
                roots_over(nodes0, alts0, 0, size as int),
                sound(*table, mn, operations, max_size),
                complete(*table, mn, operations, size - 1),
                operators_done(*table, size as int, mn, operations, nodes0, alts0, rank(ops_digits, 0, n_ops as int), false),
                operands_done(*table, size as int, mn, current@, nodes0, alts0, rank(operand_digits(composed.ints@), 1, mn), finished),
            decreases (if finished { 0 } else { ints_total - rank(operand_digits(composed.ints@), 1, max_number as int) }),
        {
            proof {
                assert forall|x: int| 0 <= x < size implies 1 <= #[trigger] composed.ints@[x] <= max_number by {
                    assert(operand_digits(composed.ints@)[x] == composed.ints@[x] as int);
                }
            }
            let ghost ints_now = composed.ints@;
            let mut a: usize = 0;
            while a < composed.alternatives.len()
                invariant
                    1 <= size <= max_size,
                    max_number >= 1,
                    mn == max_number,
                    composed.nodes@ == nodes0,
                    composed.alternatives@ == alts0,
                    composed.ops@ == ops_now,
                    composed.ints@ == ints_now,
                    composed.ints@.len() == size,
                    forall|x: int| 0 <= x < size ==> 1 <= #[trigger] composed.ints@[x] <= max_number,
                    current@.len() == size - 1,
                    forall|x: int| 0 <= x < size - 1 ==> operations.contains(#[trigger] current@[x]),
                    forall|j: int| 0 <= j < alts0.len() ==> alts0[j] < nodes0.len(),
                    roots_over(nodes0, alts0, 0, size as int),
                    sound(*table, mn, operations, max_size),
                    complete(*table, mn, operations, size - 1),
                    operators_done(*table, size as int, mn, operations, nodes0, alts0, rank(ops_digits, 0, n_ops as int), false),
                    operands_done(*table, size as int, mn, current@, nodes0, alts0, rank(operand_digits(ints_now), 1, mn), false),
                    forall|j: int| 0 <= j < a ==> #[trigger] reached(*table, size as int, nodes0, alts0[j] as int, ints_now, current@),
                decreases alts0.len() - a,
            {
                let root = composed.alternatives[a];
                proof {
                    assert(tree_ok(nodes0, root as int));
                }
                match eval(&composed.nodes, root, &composed.ints, &current) {
                    Some(v) => {
                        let text = render(&composed.nodes, root, &composed.ints, &current);
                        let ghost before = *table;
                        proof {
                            assert(is_expression(max_number as int, operations, size as int, v as int, text@,
                                composed.nodes@, root as int, composed.ints@, current@));
                        }
                        table.record(v, size, text);
                        proof {
                            lemma_record_sound(before, *table, v, size, text@, max_number as int, operations, max_size);
                            lemma_record_keeps(before, *table, v, size, text@);
                            lemma_complete_kept(before, *table, mn, operations, size - 1);
                            assert(operators_done(*table, size as int, mn, operations, nodes0, alts0, rank(ops_digits, 0, n_ops as int), false)) by {
                                assert forall|d: Seq<int>, ints: Seq<i64>, j: int|
                                    d.len() == size - 1 && digits_in(d, 0, operations.len() - 1) && (false || rank(d, 0, operations.len() as int) < rank(ops_digits, 0, n_ops as int))
                                        && ints.len() == size && digits_in(operand_digits(ints), 1, mn) && 0 <= j < alts0.len()
                                    implies #[trigger] reached(*table, size as int, nodes0, alts0[j] as int, ints, op_seq(operations, d)) by {
                                    assert(reached(before, size as int, nodes0, alts0[j] as int, ints, op_seq(operations, d)));
                                }
                            }
                            assert(operands_done(*table, size as int, mn, current@, nodes0, alts0, rank(operand_digits(ints_now), 1, mn), false)) by {
                                assert forall|ints: Seq<i64>, j: int|
                                    ints.len() == size && digits_in(operand_digits(ints), 1, mn) && (false || rank(operand_digits(ints), 1, mn) < rank(operand_digits(ints_now), 1, mn))
                                        && 0 <= j < alts0.len() implies #[trigger] reached(*table, size as int, nodes0, alts0[j] as int, ints, current@) by {
                                    assert(reached(before, size as int, nodes0, alts0[j] as int, ints, current@));
                                }
                            }
                            assert forall|j: int| 0 <= j < a + 1 implies #[trigger] reached(*table, size as int, nodes0, alts0[j] as int, ints_now, current@) by {
                                if j < a {
                                    assert(reached(before, size as int, nodes0, alts0[j] as int, ints_now, current@));
                                }
                            }
                        }
                    },
                    None => {},
                }
                a += 1;
            }
            let ghost old_digits = operand_digits(composed.ints@);
            finished = !next_operands(&mut composed.ints, max_number);
            proof {
                lemma_rank_bound(operand_digits(composed.ints@), 1, max_number as int);
                let below = rank(operand_digits(composed.ints@), 1, mn);
                assert forall|ints: Seq<i64>, j: int|
                    ints.len() == size && digits_in(operand_digits(ints), 1, mn) && (finished || rank(operand_digits(ints), 1, mn) < below)
                        && 0 <= j < alts0.len() implies #[trigger] reached(*table, size as int, nodes0, alts0[j] as int, ints, current@) by {
                    let x = operand_digits(ints);
                    if finished {
                        assert forall|k: int| 0 <= k < old_digits.len() implies old_digits[k] == mn by {
                            assert(old_digits[k] == ints_now[k] as int);
                        }
                        lemma_rank_le_max(x, old_digits, 1, mn);
                    }
                    if rank(x, 1, mn) == rank(old_digits, 1, mn) {
                        lemma_rank_injective(x, old_digits, 1, mn);
                        assert(ints =~= ints_now) by {
                            assert forall|k: int| 0 <= k < ints.len() implies ints[k] == ints_now[k] by {
                                assert(x[k] == ints[k] as int);
                                assert(old_digits[k] == ints_now[k] as int);
                            }
                        }
                    }
                }
            }
        }
        if n_ops == 0 {
            op_finished = true;
            proof {
                assert forall|d: Seq<int>, ints: Seq<i64>, j: int|
                    d.len() == size - 1 && digits_in(d, 0, operations.len() - 1) && (op_finished || rank(d, 0, operations.len() as int) < 0)
                        && ints.len() == size && digits_in(operand_digits(ints), 1, mn) && 0 <= j < alts0.len()
                    implies #[trigger] reached(*table, size as int, nodes0, alts0[j] as int, ints, op_seq(operations, d)) by {
                    assert(d =~= ops_digits);
                }
            }
        } else {
            op_finished = !next_operators(&mut composed.ops, n_ops - 1);
            proof {
                lemma_rank_bound(operator_digits(composed.ops@), 0, n_ops - 1);
                let below = rank(operator_digits(composed.ops@), 0, n_ops as int);
                assert forall|d: Seq<int>, ints: Seq<i64>, j: int|
                    d.len() == size - 1 && digits_in(d, 0, operations.len() - 1) && (op_finished || rank(d, 0, operations.len() as int) < below)
                        && ints.len() == size && digits_in(operand_digits(ints), 1, mn) && 0 <= j < alts0.len()
                    implies #[trigger] reached(*table, size as int, nodes0, alts0[j] as int, ints, op_seq(operations, d)) by {
                    if op_finished {
                        assert forall|k: int| 0 <= k < ops_digits.len() implies ops_digits[k] == n_ops - 1 by {
                            assert(ops_digits[k] == ops_now[k] as int);
                        }
                        lemma_rank_le_max(d, ops_digits, 0, n_ops - 1);
                    }
                    if rank(d, 0, n_ops as int) == rank(ops_digits, 0, n_ops as int) {
                        lemma_rank_injective(d, ops_digits, 0, n_ops - 1);
                    }
                }
            }
        }
    }
    proof {
        assert forall|s: int, v: i64, text: Seq<char>, nodes: Seq<Node>, id: int, ints: Seq<i64>, ops: Seq<Operation>|
            1 <= s <= size && #[trigger] is_expression(mn, operations, s, v as int, text, nodes, id, ints, ops)
            implies covers(*table, s, v, text) by {
            if s == size {
                let shape = to_shape(nodes, id);
                lemma_shape_determines(nodes, id, ints, ops);
                assert(shapes_of(nodes0, alts0).contains(shape));
                let j = choose|j: int| 0 <= j < shapes_of(nodes0, alts0).len() && shapes_of(nodes0, alts0)[j] == shape;
                assert(tree_ok(nodes0, alts0[j] as int));
                lemma_shape_determines(nodes0, alts0[j] as int, ints, ops);
                let d = positions_of(operations, ops);
                assert forall|k: int| 0 <= k < d.len() implies 0 <= #[trigger] d[k] <= operations.len() - 1 && operations[d[k]] == ops[k] by {
                    assert(operations.contains(ops[k]));
                }
                assert(op_seq(operations, d) =~= ops);
                assert(digits_in(operand_digits(ints), 1, mn)) by {
                    assert forall|k: int| 0 <= k < ints.len() implies 1 <= #[trigger] operand_digits(ints)[k] <= mn by {
                        assert(operand_digits(ints)[k] == ints[k] as int);
                    }
                }
                assert(reached(*table, size as int, nodes0, alts0[j] as int, ints, op_seq(operations, d)));
            }
        }
    }
}

/// Runs the whole search: for every size from 1 to `max_size`, every shape
/// under every assignment of operands in `1 ..= max_number` and of operators
/// from the dictionary. Sizes of two or more operands yield nothing when the
/// dictionary is empty.
pub fn search(max_number: i64, max_size: usize, dictionary: &OperationDictionary) -> (t: ResultTable)
    requires
        max_number >= 1,
    ensures
        sound(t, max_number as int, dictionary.operations@, max_size as int),
        complete(t, max_number as int, dictionary.operations@, max_size as int),
{
    let mut table = ResultTable::new();
    let mut size: usize = 0;
    while size < max_size
        invariant
            size <= max_size,
            max_number >= 1,
            sound(table, max_number as int, dictionary.operations@, max_size as int),
            complete(table, max_number as int, dictionary.operations@, size as int),
        decreases max_size - size,
    {
        size += 1;
        if size == 1 || dictionary.operations.len() >= 1 {
            search_size(&mut table, size, max_number, dictionary, Ghost(max_size as int));
        } else {
            proof {
                let operations = dictionary.operations@;
                assert forall|s: int, v: i64, text: Seq<char>, nodes: Seq<Node>, id: int, ints: Seq<i64>, ops: Seq<Operation>|
                    1 <= s <= size && #[trigger] is_expression(max_number as int, operations, s, v as int, text, nodes, id, ints, ops)
                    implies covers(table, s, v, text) by {
                    if s == size {
                        assert(operations.contains(ops[0]));
                    }
                }
            }
        }
    }
    table
}

} // verus!
