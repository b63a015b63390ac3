//! The constraint set of a Merkle inclusion claim, parameterised by the root
//! that the claim binds.
use vstd::prelude::*;
use crate::bits::{decode_spec, encode_digest, encode_spec, lemma_decode_encode};
use crate::trace::{
    directions_are_bits, fold_root, lemma_trace_layout, lemma_trace_root, lemma_trace_shape,
    result_bits, row, trace_spec, DIRECTION_COLUMN, RESULT_COLUMN, ROW_WIDTH,
};

verus! {

/// A Merkle inclusion claim: the leaf digest, the inclusion path (direction
/// bit and sibling digest per step, leaf to root) and the root that the
/// constraints bind.
pub struct MmrAir {
    pub hashed_leaf: [u8; 32],
    pub inclusion_proof: Vec<(u8, [u8; 32])>,
    pub merkle_root: [u8; 32],
}

/// The constraints on one row: its direction bit `b` satisfies
/// `b * (1 - b) == 0`, and on the last row the result bits are those of `root`.
pub open spec fn row_constraints_hold(root: [u8; 32], r: Seq<u8>, is_last_row: bool) -> bool {
    let b = r[DIRECTION_COLUMN as int] as int;
    &&& b * (1 - b) == 0
    &&& is_last_row ==> result_bits(r) == encode_spec(root@)
}

/// Number of whole rows in a row-major table.
pub open spec fn row_count(trace: Seq<u8>) -> int {
    trace.len() as int / (ROW_WIDTH as int)
}

/// A table of at least one whole row, every row of which meets the
/// constraints, the last one with the root binding.
pub open spec fn trace_accepted(root: [u8; 32], trace: Seq<u8>) -> bool {
    &&& trace.len() > 0
    &&& trace.len() as int % (ROW_WIDTH as int) == 0
    &&& forall|i: int|
        0 <= i < row_count(trace) ==> row_constraints_hold(
            root,
            #[trigger] row(trace, i),
            i == row_count(trace) - 1,
        )
}

proof fn lemma_boolean_constraint(b: u8)
    ensures
        (b as int) * (1 - (b as int)) == 0 <==> b <= 1,
{
    let x = b as int;
    if x >= 2 {
        assert(x * (1 - x) < 0) by (nonlinear_arith)
            requires
                x >= 2,
        ;
    }
}

/// Checks the constraints on the row that starts at `start` of `table`.
fn check_row(
    table: &[u8],
    start: usize,
    is_last_row: bool,
    root: [u8; 32],
    root_bits: &Vec<u8>,
) -> (r: bool)
    requires
        start + ROW_WIDTH <= table@.len(),
        start + ROW_WIDTH <= usize::MAX,
        root_bits@ == encode_spec(root@),
    ensures
        r == row_constraints_hold(
            root,
            table@.subrange(start as int, start + ROW_WIDTH),
            is_last_row,
        ),
{
    let ghost rw = table@.subrange(start as int, start + ROW_WIDTH);
    let flip = table[start + DIRECTION_COLUMN];
    proof {
        lemma_boolean_constraint(flip);
        assert(rw[DIRECTION_COLUMN as int] == flip);
    }
    if flip > 1 {
        return false;
    }
    if !is_last_row {
        return true;
    }
    assert(root_bits@.len() == 256);
    let mut k: usize = 0;
    while k < root_bits.len()
        invariant
            k <= root_bits@.len(),
            root_bits@.len() == 256,
            root_bits@ == encode_spec(root@),
            row_constraints_hold(root, rw, is_last_row) <==> result_bits(rw) == root_bits@,
            start + ROW_WIDTH <= table@.len(),
            start + ROW_WIDTH <= usize::MAX,
            rw == table@.subrange(start as int, start + ROW_WIDTH),
            forall|j: int| 0 <= j < k ==> result_bits(rw)[j] == root_bits@[j],
        decreases root_bits@.len() - k,
    {
        assert(result_bits(rw)[k as int] == table@[start + RESULT_COLUMN + k]);
        if table[start + RESULT_COLUMN + k] != root_bits[k] {
            assert(result_bits(rw) != encode_spec(root@));
            return false;
        }
        k = k + 1;
    }
    assert(result_bits(rw) =~= root_bits@);
    true
}

impl MmrAir {
    /// The claim that `hashed_leaf` lies under `merkle_root` along `inclusion_proof`.
    pub fn new(
        hashed_leaf: [u8; 32],
        inclusion_proof: Vec<(u8, [u8; 32])>,
        merkle_root: [u8; 32],
    ) -> (r: Self)
        ensures
            r.hashed_leaf == hashed_leaf,
            r.inclusion_proof@ == inclusion_proof@,
            r.merkle_root == merkle_root,
    {
        MmrAir { hashed_leaf, inclusion_proof, merkle_root }
    }

    /// Number of columns of the trace that the constraints read.
    pub fn width(&self) -> (r: usize)
        ensures
            r == ROW_WIDTH,
    {
        ROW_WIDTH
    }

    /// Whether `row` meets the constraints: the direction bit is boolean and,
    /// on the last row, the result bits are those of the bound root.
    pub fn eval(&self, row: &[u8], is_last_row: bool) -> (r: bool)
        requires
            row@.len() == ROW_WIDTH,
        ensures
            r == row_constraints_hold(self.merkle_root, row@, is_last_row),
    {
        let root_bits = encode_digest(&self.merkle_root);
        let r = check_row(row, 0, is_last_row, self.merkle_root, &root_bits);
        assert(row@.subrange(0, ROW_WIDTH as int) =~= row@);
        r
    }

    /// Whether `trace`, read as a row-major table of `width()` columns, has at
    /// least one row and meets the constraints on every row.
    pub fn accepts_trace(&self, trace: &Vec<u8>) -> (r: bool)
        ensures
            r == trace_accepted(self.merkle_root, trace@),
    {
        if trace.len() == 0 || trace.len() % ROW_WIDTH != 0 {
            return false;
        }
        let rows = trace.len() / ROW_WIDTH;
        let root_bits = encode_digest(&self.merkle_root);
        let table = trace.as_slice();
        let mut i: usize = 0;
        while i < rows
            invariant
                rows as int == row_count(trace@),
                rows * ROW_WIDTH == trace@.len(),
                trace@.len() <= usize::MAX,
                table@ == trace@,
                root_bits@ == encode_spec(self.merkle_root@),
                i <= rows,
                forall|j: int|
                    0 <= j < i ==> row_constraints_hold(
                        self.merkle_root,
                        #[trigger] row(trace@, j),
                        j == rows - 1,
                    ),
            decreases rows - i,
        {
            assert((i + 1) * ROW_WIDTH <= rows * ROW_WIDTH) by (nonlinear_arith)
                requires
                    i < rows,
            ;
            let start = i * ROW_WIDTH;
            if !check_row(table, start, i + 1 == rows, self.merkle_root, &root_bits) {
                assert(!row_constraints_hold(
                    self.merkle_root,
                    row(trace@, i as int),
                    i == rows - 1,
                ));
                return false;
            }
            i = i + 1;
        }
        true
    }
}

proof fn lemma_row_count(n: int)
    requires
        n >= 0,
    ensures
        (n * ROW_WIDTH) / (ROW_WIDTH as int) == n,
        (n * ROW_WIDTH) % (ROW_WIDTH as int) == 0,
{
    assert((n * ROW_WIDTH) / (ROW_WIDTH as int) == n && (n * ROW_WIDTH) % (ROW_WIDTH as int) == 0)
        by (nonlinear_arith)
        requires
            n >= 0,
    ;
}

/// Completeness: the trace of a path whose direction bits are 0 or 1 meets
/// the constraints bound to the root that the path folds the leaf to.
pub proof fn lemma_honest_trace_accepted(leaf: [u8; 32], path: Seq<(u8, [u8; 32])>)
    requires
        path.len() > 0,
        directions_are_bits(path),
    ensures
        trace_accepted(fold_root(leaf, path), trace_spec(leaf, path)),
{
    let t = trace_spec(leaf, path);
    let root = fold_root(leaf, path);
    lemma_trace_shape(leaf, path);
    lemma_row_count(path.len() as int);
    assert forall|i: int| 0 <= i < row_count(t) implies row_constraints_hold(
        root,
        #[trigger] row(t, i),
        i == row_count(t) - 1,
    ) by {
        let b = row(t, i)[DIRECTION_COLUMN as int];
        lemma_boolean_constraint(b);
        if i == row_count(t) - 1 {
            lemma_trace_root(leaf, path);
        }
    }
}

/// Root binding of the constraints: a trace that meets them has, as the
/// result bits of its last row, bits that decode to the bound root.
pub proof fn lemma_accepted_trace_binds_root(root: [u8; 32], trace: Seq<u8>)
    requires
        trace_accepted(root, trace),
    ensures
        decode_spec(result_bits(row(trace, row_count(trace) - 1))) == root@,
{
    assert(row_count(trace) >= 1) by (nonlinear_arith)
        requires
            trace.len() > 0,
            trace.len() as int % (ROW_WIDTH as int) == 0,
            row_count(trace) == trace.len() as int / (ROW_WIDTH as int),
    ;
    assert(row_constraints_hold(root, row(trace, row_count(trace) - 1), true));
    lemma_decode_encode(root@);
}

/// The trace of a path meets no constraint set bound to a root other than
/// the one the path folds the leaf to.
pub proof fn lemma_wrong_root_rejected(
    leaf: [u8; 32],
    path: Seq<(u8, [u8; 32])>,
    root: [u8; 32],
)
    requires
        path.len() > 0,
        root != fold_root(leaf, path),
    ensures
        !trace_accepted(root, trace_spec(leaf, path)),
{
    let t = trace_spec(leaf, path);
    let honest = fold_root(leaf, path);
    if trace_accepted(root, t) {
        lemma_trace_layout(leaf, path);
        lemma_row_count(path.len() as int);
        lemma_accepted_trace_binds_root(root, t);
        lemma_trace_root(leaf, path);
        assert(root@ == honest@);
        assert(root =~= honest);
    }
}

/// A table in which some row holds a direction bit other than 0 or 1 meets
/// no constraint set, whatever its root.
pub proof fn lemma_non_boolean_direction_rejected(root: [u8; 32], trace: Seq<u8>, i: int)
    requires
        0 <= i < row_count(trace),
        row(trace, i)[DIRECTION_COLUMN as int] > 1,
    ensures
        !trace_accepted(root, trace),
{
    lemma_boolean_constraint(row(trace, i)[DIRECTION_COLUMN as int]);
}

} // verus!
