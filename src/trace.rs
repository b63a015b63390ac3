//! The execution trace of a Merkle inclusion claim: one row per path step,
//! built by folding the leaf digest through the path.
use vstd::prelude::*;
use crate::bits::{
    all_bits, decode_spec, encode_spec, lemma_decode_encode, lemma_encode_is_bits,
    push_hash_as_bits, DIGEST_BYTES,
};
use crate::field::{field_matrix, matrix_entries, matrix_width};
use crate::hashing::{sha256, sha256_of};
use p3_matrix::dense::RowMajorMatrix;
use p3_mersenne_31::Mersenne31;

verus! {

/// First column of a row's left-operand bits.
pub const LEFT_COLUMN: usize = 0;

/// First column of a row's right-operand bits.
pub const RIGHT_COLUMN: usize = 256;

/// The column of a row's direction bit.
pub const DIRECTION_COLUMN: usize = 512;

/// First column of a row's result bits.
pub const RESULT_COLUMN: usize = 513;

/// Number of scalars in a row.
pub const ROW_WIDTH: usize = 769;

/// The operands `(left, right)` of a step from `current`: the current digest
/// comes first when the direction bit is 0, the sibling first otherwise.
pub open spec fn operands(current: [u8; 32], step: (u8, [u8; 32])) -> ([u8; 32], [u8; 32]) {
    if step.0 == 0 {
        (current, step.1)
    } else {
        (step.1, current)
    }
}

/// The digest that a step produces from `current`.
pub open spec fn step_hash(current: [u8; 32], step: (u8, [u8; 32])) -> [u8; 32] {
    let (left, right) = operands(current, step);
    sha256_of(left@ + right@)
}

/// The digest reached by folding `leaf` through `path`, leaf to root.
pub open spec fn fold_root(leaf: [u8; 32], path: Seq<(u8, [u8; 32])>) -> [u8; 32]
    decreases path.len(),
{
    if path.len() == 0 {
        leaf
    } else {
        step_hash(fold_root(leaf, path.drop_last()), path.last())
    }
}

/// Row `i` of the trace of `leaf` and `path`.
pub open spec fn trace_row(leaf: [u8; 32], path: Seq<(u8, [u8; 32])>, i: int) -> Seq<u8> {
    let current = fold_root(leaf, path.take(i));
    let (left, right) = operands(current, path[i]);
    encode_spec(left@) + encode_spec(right@) + seq![path[i].0] + encode_spec(
        step_hash(current, path[i])@,
    )
}

/// The trace of `leaf` and `path`, row after row in path order.
pub open spec fn trace_spec(leaf: [u8; 32], path: Seq<(u8, [u8; 32])>) -> Seq<u8>
    decreases path.len(),
{
    if path.len() == 0 {
        Seq::empty()
    } else {
        trace_spec(leaf, path.drop_last()) + trace_row(leaf, path, path.len() - 1)
    }
}

/// The scalars of row `i` of a row-major table.
pub open spec fn row(trace: Seq<u8>, i: int) -> Seq<u8> {
    trace.subrange(i * ROW_WIDTH, (i + 1) * ROW_WIDTH)
}

/// Every direction bit of the path is 0 or 1.
pub open spec fn directions_are_bits(path: Seq<(u8, [u8; 32])>) -> bool {
    forall|i: int| 0 <= i < path.len() ==> #[trigger] path[i].0 <= 1
}

fn concat_digests(left: &[u8; 32], right: &[u8; 32]) -> (r: Vec<u8>)
    ensures
        r@ == left@ + right@,
{
    let mut r: Vec<u8> = Vec::new();
    let mut i: usize = 0;
    while i < DIGEST_BYTES
        invariant
            i <= DIGEST_BYTES,
            r@ == left@.take(i as int),
        decreases DIGEST_BYTES - i,
    {
        r.push(left[i]);
        assert(left@.take(i as int + 1) =~= left@.take(i as int).push(left@[i as int]));
        i = i + 1;
    }
    assert(left@.take(32) =~= left@);
    let mut j: usize = 0;
    while j < DIGEST_BYTES
        invariant
            j <= DIGEST_BYTES,
            r@ == left@ + right@.take(j as int),
        decreases DIGEST_BYTES - j,
    {
        r.push(right[j]);
        assert(right@.take(j as int + 1) =~= right@.take(j as int).push(right@[j as int]));
        j = j + 1;
    }
    assert(right@.take(32) =~= right@);
    r
}

/// The digest reached by folding `hashed_leaf` through `inclusion_proof`:
/// the root that the path claims.
pub fn compute_root(
    hashed_leaf: [u8; 32],
    inclusion_proof: &Vec<(u8, [u8; 32])>,
) -> (r: [u8; 32])
    ensures
        r == fold_root(hashed_leaf, inclusion_proof@),
{
    let mut current = hashed_leaf;
    let mut i: usize = 0;
    while i < inclusion_proof.len()
        invariant
            i <= inclusion_proof@.len(),
            current == fold_root(hashed_leaf, inclusion_proof@.take(i as int)),
        decreases inclusion_proof@.len() - i,
    {
        let step = inclusion_proof[i];
        let (left, right) = if step.0 == 0 {
            (current, step.1)
        } else {
            (step.1, current)
        };
        let concat = concat_digests(&left, &right);
        current = sha256(&concat);
        assert(inclusion_proof@.take(i as int + 1).drop_last() =~= inclusion_proof@.take(i as int));
        i = i + 1;
    }
    assert(inclusion_proof@.take(i as int) =~= inclusion_proof@);
    current
}

/// Appends one row: the bits of `left`, the bits of `right`, the direction
/// bit `flip`, and the bits of `next_hash`, the digest the step produced.
pub fn push_row(
    values: &mut Vec<u8>,
    left: [u8; 32],
    right: [u8; 32],
    flip: u8,
    next_hash: [u8; 32],
)
    requires
        old(values).len() + ROW_WIDTH <= usize::MAX,
    ensures
        final(values)@ == old(values)@ + encode_spec(left@) + encode_spec(right@) + seq![flip]
            + encode_spec(next_hash@),
{
    push_hash_as_bits(values, left);
    push_hash_as_bits(values, right);
    values.push(flip);
    push_hash_as_bits(values, next_hash);
}

/// The execution trace of `hashed_leaf` folded through `inclusion_proof`, as
/// a row-major table of `ROW_WIDTH` columns: for each step, in path order, the
/// bits of its left operand, of its right operand, its direction bit, and the
/// bits of the digest the step produces.
pub fn generate_trace_values(
    hashed_leaf: [u8; 32],
    inclusion_proof: &Vec<(u8, [u8; 32])>,
) -> (r: Vec<u8>)
    requires
        inclusion_proof@.len() > 0,
        inclusion_proof@.len() * ROW_WIDTH <= usize::MAX,
    ensures
        r@ == trace_spec(hashed_leaf, inclusion_proof@),
        r@.len() == inclusion_proof@.len() * ROW_WIDTH,
{
    let ghost path = inclusion_proof@;
    let mut values: Vec<u8> = Vec::new();
    let mut current = hashed_leaf;
    let mut i: usize = 0;
    while i < inclusion_proof.len()
        invariant
            path == inclusion_proof@,
            i <= path.len(),
            path.len() * ROW_WIDTH <= usize::MAX,
            current == fold_root(hashed_leaf, path.take(i as int)),
            values@ == trace_spec(hashed_leaf, path.take(i as int)),
            values@.len() == i * ROW_WIDTH,
        decreases path.len() - i,
    {
        let (flip, sibling) = inclusion_proof[i];
        let (left, right) = if flip == 0 {
            (current, sibling)
        } else {
            (sibling, current)
        };
        let concat = concat_digests(&left, &right);
        let next_hash = sha256(&concat);
        assert((i + 1) * ROW_WIDTH <= path.len() * ROW_WIDTH) by (nonlinear_arith)
            requires
                i < path.len(),
        ;
        push_row(&mut values, left, right, flip, next_hash);
        proof {
            let next = path.take(i as int + 1);
            assert(next.drop_last() =~= path.take(i as int));
            assert(next.take(i as int) =~= path.take(i as int));
            assert(next[i as int] == path[i as int]);
            assert(values@ =~= trace_spec(hashed_leaf, next));
        }
        current = next_hash;
        i = i + 1;
    }
    assert(path.take(i as int) =~= path);
    values
}

/// The execution trace of the claim that `hashed_leaf` lies under
/// `merkle_root` along `inclusion_proof`, as a table of Mersenne31 elements of
/// `ROW_WIDTH` columns, each entry the scalar of `generate_trace_values`. The
/// trace is built from the path alone: `merkle_root` is checked by the
/// constraints, not here.
pub fn generate_inclusion_trace(
    hashed_leaf: [u8; 32],
    inclusion_proof: Vec<(u8, [u8; 32])>,
    merkle_root: [u8; 32],
) -> (r: RowMajorMatrix<Mersenne31>)
    requires
        inclusion_proof@.len() > 0,
        inclusion_proof@.len() * ROW_WIDTH <= usize::MAX,
    ensures
        matrix_entries(r) == trace_spec(hashed_leaf, inclusion_proof@).map_values(
            |x: u8| x as u32,
        ),
        matrix_width(r) == ROW_WIDTH,
{
    let values = generate_trace_values(hashed_leaf, &inclusion_proof);
    proof {
        let n = inclusion_proof@.len();
        assert((n * ROW_WIDTH) % (ROW_WIDTH as int) == 0) by (nonlinear_arith);
    }
    field_matrix(&values, ROW_WIDTH)
}

/// The left-operand bits of a row.
pub open spec fn left_bits(r: Seq<u8>) -> Seq<u8> {
    r.subrange(LEFT_COLUMN as int, RIGHT_COLUMN as int)
}

/// The right-operand bits of a row.
pub open spec fn right_bits(r: Seq<u8>) -> Seq<u8> {
    r.subrange(RIGHT_COLUMN as int, DIRECTION_COLUMN as int)
}

/// The result bits of a row.
pub open spec fn result_bits(r: Seq<u8>) -> Seq<u8> {
    r.subrange(RESULT_COLUMN as int, ROW_WIDTH as int)
}

/// The operand of a row that its direction bit marks as the digest carried
/// up from below: the left one when the bit is 0, the right one otherwise.
pub open spec fn current_bits(r: Seq<u8>) -> Seq<u8> {
    if r[DIRECTION_COLUMN as int] == 0 {
        left_bits(r)
    } else {
        right_bits(r)
    }
}

proof fn lemma_row_parts(leaf: [u8; 32], path: Seq<(u8, [u8; 32])>, i: int)
    requires
        0 <= i < path.len(),
    ensures
        ({
            let r = trace_row(leaf, path, i);
            let current = fold_root(leaf, path.take(i));
            let (left, right) = operands(current, path[i]);
            &&& r.len() == ROW_WIDTH
            &&& left_bits(r) == encode_spec(left@)
            &&& right_bits(r) == encode_spec(right@)
            &&& r[DIRECTION_COLUMN as int] == path[i].0
            &&& result_bits(r) == encode_spec(step_hash(current, path[i])@)
        }),
{
    let r = trace_row(leaf, path, i);
    let current = fold_root(leaf, path.take(i));
    let (left, right) = operands(current, path[i]);
    lemma_encode_is_bits(left@);
    lemma_encode_is_bits(right@);
    lemma_encode_is_bits(step_hash(current, path[i])@);
    assert(left_bits(r) =~= encode_spec(left@));
    assert(right_bits(r) =~= encode_spec(right@));
    assert(result_bits(r) =~= encode_spec(step_hash(current, path[i])@));
}

proof fn lemma_row_of_prefix(leaf: [u8; 32], path: Seq<(u8, [u8; 32])>, n: int, i: int)
    requires
        0 <= i < n <= path.len(),
    ensures
        trace_row(leaf, path.take(n), i) == trace_row(leaf, path, i),
{
    assert(path.take(n).take(i) =~= path.take(i));
}

/// The trace of a path has one row of `ROW_WIDTH` scalars per step, and row
/// `i` is the row that step `i` emits.
pub proof fn lemma_trace_layout(leaf: [u8; 32], path: Seq<(u8, [u8; 32])>)
    ensures
        trace_spec(leaf, path).len() == path.len() * ROW_WIDTH,
        forall|i: int| 0 <= i < path.len() ==> #[trigger] row(trace_spec(leaf, path), i)
            == trace_row(leaf, path, i),
    decreases path.len(),
{
    if path.len() > 0 {
        let n = path.len() - 1;
        let prev = path.drop_last();
        lemma_trace_layout(leaf, prev);
        lemma_row_parts(leaf, path, n);
        let t = trace_spec(leaf, path);
        let tp = trace_spec(leaf, prev);
        assert(path.len() * ROW_WIDTH == n * ROW_WIDTH + ROW_WIDTH) by (nonlinear_arith)
            requires
                n == path.len() - 1,
        ;
        assert forall|i: int| 0 <= i < path.len() implies #[trigger] row(t, i) == trace_row(
            leaf,
            path,
            i,
        ) by {
            if i < n {
                assert((i + 1) * ROW_WIDTH <= n * ROW_WIDTH) by (nonlinear_arith)
                    requires
                        i < n,
                ;
                assert(i * ROW_WIDTH >= 0) by (nonlinear_arith)
                    requires
                        i >= 0,
                ;
                assert(row(t, i) =~= row(tp, i));
                assert(prev =~= path.take(n));
                lemma_row_of_prefix(leaf, path, n, i);
            } else {
                assert(row(t, i) =~= trace_row(leaf, path, n));
            }
        }
    }
}

/// Every row of the trace of a path whose direction bits are 0 or 1 holds
/// `ROW_WIDTH` scalars, each of them 0 or 1; there are as many rows as steps.
pub proof fn lemma_trace_shape(leaf: [u8; 32], path: Seq<(u8, [u8; 32])>)
    requires
        path.len() > 0,
        directions_are_bits(path),
    ensures
        trace_spec(leaf, path).len() == path.len() * ROW_WIDTH,
        forall|i: int|
            0 <= i < path.len() ==> {
                &&& (#[trigger] row(trace_spec(leaf, path), i)).len() == ROW_WIDTH
                &&& row(trace_spec(leaf, path), i)[DIRECTION_COLUMN as int] <= 1
                &&& all_bits(row(trace_spec(leaf, path), i))
            },
{
    lemma_trace_layout(leaf, path);
    assert forall|i: int| 0 <= i < path.len() implies {
        &&& (#[trigger] row(trace_spec(leaf, path), i)).len() == ROW_WIDTH
        &&& row(trace_spec(leaf, path), i)[DIRECTION_COLUMN as int] <= 1
        &&& all_bits(row(trace_spec(leaf, path), i))
    } by {
        let r = row(trace_spec(leaf, path), i);
        let current = fold_root(leaf, path.take(i));
        let (left, right) = operands(current, path[i]);
        lemma_row_parts(leaf, path, i);
        lemma_encode_is_bits(left@);
        lemma_encode_is_bits(right@);
        lemma_encode_is_bits(step_hash(current, path[i])@);
        assert(path[i].0 <= 1);
        assert forall|k: int| 0 <= k < r.len() implies #[trigger] r[k] <= 1 by {
            if k < RIGHT_COLUMN {
                assert(r[k] == left_bits(r)[k]);
            } else if k < DIRECTION_COLUMN {
                assert(r[k] == right_bits(r)[k - RIGHT_COLUMN]);
            } else if k > DIRECTION_COLUMN {
                assert(r[k] == result_bits(r)[k - RESULT_COLUMN]);
            }
        }
    }
}

proof fn lemma_fold_step(leaf: [u8; 32], path: Seq<(u8, [u8; 32])>, i: int)
    requires
        0 <= i < path.len(),
    ensures
        fold_root(leaf, path.take(i + 1)) == step_hash(fold_root(leaf, path.take(i)), path[i]),
{
    assert(path.take(i + 1).drop_last() =~= path.take(i));
}

/// Chain property: the operand that the direction bit of row `i` marks as the
/// carried digest decodes to the digest whose bits row `i - 1` holds as its
/// result; both are the fold of the leaf through the first `i` steps.
pub proof fn lemma_trace_chain(leaf: [u8; 32], path: Seq<(u8, [u8; 32])>, i: int)
    requires
        1 <= i < path.len(),
    ensures
        decode_spec(current_bits(row(trace_spec(leaf, path), i))) == decode_spec(
            result_bits(row(trace_spec(leaf, path), i - 1)),
        ),
        decode_spec(current_bits(row(trace_spec(leaf, path), i))) == fold_root(
            leaf,
            path.take(i),
        )@,
{
    lemma_trace_layout(leaf, path);
    lemma_row_parts(leaf, path, i);
    lemma_row_parts(leaf, path, i - 1);
    lemma_fold_step(leaf, path, i - 1);
    let current = fold_root(leaf, path.take(i));
    let (left, right) = operands(current, path[i]);
    lemma_decode_encode(current@);
    lemma_decode_encode(left@);
    lemma_decode_encode(right@);
}

/// Root binding: the result bits of the last row are the bits of the fold of
/// the leaf through the whole path, and decode to it.
pub proof fn lemma_trace_root(leaf: [u8; 32], path: Seq<(u8, [u8; 32])>)
    requires
        path.len() > 0,
    ensures
        result_bits(row(trace_spec(leaf, path), path.len() - 1)) == encode_spec(
            fold_root(leaf, path)@,
        ),
        decode_spec(result_bits(row(trace_spec(leaf, path), path.len() - 1))) == fold_root(
            leaf,
            path,
        )@,
{
    let n = path.len() - 1;
    lemma_trace_layout(leaf, path);
    lemma_row_parts(leaf, path, n);
    lemma_fold_step(leaf, path, n);
    assert(path.take(n + 1) =~= path);
    lemma_decode_encode(fold_root(leaf, path)@);
}

} // verus!
