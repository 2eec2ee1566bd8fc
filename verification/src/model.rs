use vstd::prelude::*;

verus! {

/// Row `i` of the causal mask over `total` key positions: key `j` is visible to query `i`
/// when `j <= i + offset`.
pub open spec fn mask_row(i: int, total: int, offset: int) -> Seq<bool> {
    Seq::new(total as nat, |j: int| j <= i + offset)
}

/// The first `rows` rows of the causal mask, row after row.
pub open spec fn mask_rows(rows: int, total: int, offset: int) -> Seq<bool>
    decreases rows,
{
    if rows <= 0 {
        seq![]
    } else {
        mask_rows(rows - 1, total, offset) + mask_row(rows - 1, total, offset)
    }
}

/// Which key positions each of `seq` new query positions may attend to, row by row, when
/// `offset` positions precede them: `seq` rows of `seq + offset` entries, entry `j` of row
/// `i` set when `j <= i + offset`.
pub fn causal_mask_visibility(seq: usize, offset: usize) -> (r: Vec<bool>)
    requires
        seq + offset <= usize::MAX,
        seq * (seq + offset) <= usize::MAX,
    ensures
        r@ == mask_rows(seq as int, (seq + offset) as int, offset as int),
{
    let total = seq + offset;
    let mut r: Vec<bool> = Vec::new();
    let mut i: usize = 0;
    while i < seq
        invariant
            total == seq + offset,
            i <= seq,
            r@ == mask_rows(i as int, total as int, offset as int),
        decreases seq - i,
    {
        let ghost before = r@;
        let mut j: usize = 0;
        while j < total
            invariant
                total == seq + offset,
                i < seq,
                j <= total,
                r@ == before + mask_row(i as int, total as int, offset as int).take(j as int),
            decreases total - j,
        {
            r.push(j <= i + offset);
            assert(r@ =~= before + mask_row(i as int, total as int, offset as int).take(j + 1));
            j = j + 1;
        }
        assert(mask_row(i as int, total as int, offset as int).take(total as int) =~= mask_row(
            i as int,
            total as int,
            offset as int,
        ));
        i = i + 1;
    }
    r
}

/// The mask has `rows * total` entries, and entry `i * total + j` tells whether query `i`
/// sees key `j`.
pub proof fn law_mask_entries(rows: int, total: int, offset: int)
    requires
        rows >= 0,
        total >= 0,
    ensures
        mask_rows(rows, total, offset).len() == rows * total,
        forall|i: int, j: int|
            0 <= i < rows && 0 <= j < total ==> #[trigger] mask_rows(rows, total, offset)[i * total + j]
                == (j <= i + offset),
    decreases rows,
{
    if rows > 0 {
        law_mask_entries(rows - 1, total, offset);
        assert((rows - 1) * total + total == rows * total) by (nonlinear_arith);
        assert forall|i: int, j: int|
            0 <= i < rows && 0 <= j < total implies #[trigger] mask_rows(rows, total, offset)[i * total + j]
                == (j <= i + offset) by {
            if i < rows - 1 {
                assert(i * total + j < (rows - 1) * total) by (nonlinear_arith)
                    requires
                        i < rows - 1,
                        0 <= j < total,
                ;
            } else {
                assert(i * total == (rows - 1) * total);
            }
        }
    } else {
        assert(rows * total == 0) by (nonlinear_arith)
            requires
                rows == 0,
        ;
    }
}

} // verus!
