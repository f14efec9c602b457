use vstd::prelude::*;
use crate::direct_keyboard::KeyCheck;

verus! {

/// Index of the first key at column `c` and row `r` in `keys` (pairs of
/// column and row), or -1 when no key sits there.
pub open spec fn first_key_at(keys: Seq<(usize, usize)>, c: int, r: int) -> int
    decreases keys.len(),
{
    if keys.len() == 0 {
        -1
    } else {
        let k = first_key_at(keys.drop_last(), c, r);
        if k >= 0 {
            k
        } else if keys.last().0 == c && keys.last().1 == r {
            keys.len() - 1
        } else {
            -1
        }
    }
}

/// The reads of column `c`: for each row, in row order, the row's pin and
/// the first key at that column and row, when there is one.
pub open spec fn column_checks(keys: Seq<(usize, usize)>, rows: Seq<u8>, c: int) -> Seq<KeyCheck>
    decreases rows.len(),
{
    if rows.len() == 0 {
        Seq::empty()
    } else {
        let prev = column_checks(keys, rows.drop_last(), c);
        let k = first_key_at(keys, c, rows.len() - 1);
        if k >= 0 {
            prev.push(KeyCheck { row_pin: rows.last(), index: k as u8 })
        } else {
            prev
        }
    }
}

/// The pins of the rows of column `c` that hold a key, one bit each.
pub open spec fn column_mask(keys: Seq<(usize, usize)>, rows: Seq<u8>, c: int) -> u32
    decreases rows.len(),
{
    if rows.len() == 0 {
        0
    } else {
        let prev = column_mask(keys, rows.drop_last(), c);
        if first_key_at(keys, c, rows.len() - 1) >= 0 {
            prev | (1u32 << rows.last())
        } else {
            prev
        }
    }
}

/// How one column of the matrix is read, as a model.
pub struct ColumnModel {
    pub column: usize,
    pub checks: Seq<KeyCheck>,
    pub settle_mask: u32,
}

/// How the first `ncols` columns are read: the columns that hold a key, in
/// column order.
pub open spec fn matrix_model(keys: Seq<(usize, usize)>, rows: Seq<u8>, ncols: nat) -> Seq<
    ColumnModel,
>
    decreases ncols,
{
    if ncols == 0 {
        Seq::empty()
    } else {
        let prev = matrix_model(keys, rows, (ncols - 1) as nat);
        let c = ncols - 1;
        let checks = column_checks(keys, rows, c);
        if checks.len() > 0 {
            prev.push(ColumnModel { column: c as usize, checks, settle_mask: column_mask(keys, rows, c) })
        } else {
            prev
        }
    }
}

/// How one column of the matrix is read: drive the column's pin low, read
/// the rows of `checks`, then wait until the rows of `settle_mask` read
/// high again.
pub struct ColumnScan {
    pub column: usize,
    pub checks: Vec<KeyCheck>,
    pub settle_mask: u32,
}

impl ColumnScan {
    /// The model of the column's reads.
    pub open spec fn model(&self) -> ColumnModel {
        ColumnModel { column: self.column, checks: self.checks@, settle_mask: self.settle_mask }
    }
}

/// The first key at column `c` and row `r`.
fn find_key(keys: &Vec<(usize, usize)>, c: usize, r: usize) -> (k: Option<usize>)
    ensures
        match k {
            Some(i) => i == first_key_at(keys@, c as int, r as int) && i >= 0,
            None => first_key_at(keys@, c as int, r as int) == -1,
        },
{
    let mut i: usize = 0;
    while i < keys.len()
        invariant
            i <= keys.len(),
            first_key_at(keys@.take(i as int), c as int, r as int) == -1,
        decreases keys.len() - i,
    {
        assert(keys@.take(i + 1).drop_last() =~= keys@.take(i as int));
        if keys[i].0 == c && keys[i].1 == r {
            proof {
                lemma_first_key_prefix(keys@, c as int, r as int, i + 1);
            }
            return Some(i);
        }
        i += 1;
    }
    assert(keys@.take(keys.len() as int) =~= keys@);
    None
}

/// A key found in a prefix is the first in the whole sequence.
proof fn lemma_first_key_prefix(keys: Seq<(usize, usize)>, c: int, r: int, n: int)
    requires
        0 <= n <= keys.len(),
        first_key_at(keys.take(n), c, r) >= 0,
    ensures
        first_key_at(keys, c, r) == first_key_at(keys.take(n), c, r),
    decreases keys.len() - n,
{
    if n < keys.len() {
        assert(keys.take(n + 1).drop_last() =~= keys.take(n));
        lemma_first_key_prefix(keys, c, r, n + 1);
    } else {
        assert(keys.take(n) =~= keys);
    }
}

/// `first_key_at` is -1 or an index of `keys`.
proof fn lemma_first_key_bounds(keys: Seq<(usize, usize)>, c: int, r: int)
    ensures
        -1 <= first_key_at(keys, c, r) < keys.len(),
    decreases keys.len(),
{
    if keys.len() > 0 {
        lemma_first_key_bounds(keys.drop_last(), c, r);
    }
}

/// Whether each key found at a column below `ncols` and a row of `rows`
/// sits on a row whose pin is one of the 32 of the GPIO bank and is
/// numbered below 128, so that an event byte can carry it. Rows and keys
/// that no read finds are free.
pub open spec fn found_keys_fit(keys: Seq<(usize, usize)>, rows: Seq<u8>, ncols: nat) -> bool {
    forall|c: int, r: int|
        0 <= c < ncols && 0 <= r < rows.len() && #[trigger] first_key_at(keys, c, r) >= 0 ==> rows[r]
            < 32 && first_key_at(keys, c, r) < 128
}

/// How the matrix with `ncols` columns and the row pins `rows` is read, for
/// the keys `keys` (pairs of column and row, numbered in order): the
/// columns that hold a key, in column order.
pub fn matrix_plan(ncols: usize, rows: &Vec<u8>, keys: &Vec<(usize, usize)>) -> (plan: Vec<ColumnScan>)
    requires
        found_keys_fit(keys@, rows@, ncols as nat),
    ensures
        plan@.map_values(|s: ColumnScan| s.model()) == matrix_model(keys@, rows@, ncols as nat),
{
    let mut plan: Vec<ColumnScan> = Vec::new();
    let mut c: usize = 0;
    while c < ncols
        invariant
            c <= ncols,
            found_keys_fit(keys@, rows@, ncols as nat),
            plan@.map_values(|s: ColumnScan| s.model()) == matrix_model(keys@, rows@, c as nat),
        decreases ncols - c,
    {
        let mut checks: Vec<KeyCheck> = Vec::new();
        let mut col_settle_mask: u32 = 0;
        let mut r: usize = 0;
        while r < rows.len()
            invariant
                r <= rows.len(),
                c < ncols,
                found_keys_fit(keys@, rows@, ncols as nat),
                checks@ == column_checks(keys@, rows@.take(r as int), c as int),
                col_settle_mask == column_mask(keys@, rows@.take(r as int), c as int),
            decreases rows.len() - r,
        {
            proof {
                assert(rows@.take(r + 1).drop_last() =~= rows@.take(r as int));
                assert(rows@.take(r + 1).last() == rows[r as int]);
                lemma_first_key_bounds(keys@, c as int, r as int);
            }
            if let Some(index) = find_key(keys, c, r) {
                let row = rows[r];
                col_settle_mask |= 1 << row;
                checks.push(KeyCheck { row_pin: row, index: index as u8 });
            }
            r += 1;
        }
        proof {
            assert(rows@.take(rows.len() as int) =~= rows@);
        }
        let ghost before = plan@;
        if checks.len() > 0 {
            plan.push(ColumnScan { column: c, checks, settle_mask: col_settle_mask });
            proof {
                let f = |s: ColumnScan| s.model();
                assert(plan@.map_values(f) =~= before.map_values(f).push(plan@.last().model()));
            }
        }
        c += 1;
    }
    plan
}

/// Whether the rows of `mask` read high in `bank`, so that the next column
/// can be driven.
pub fn column_settled(bank: u32, mask: u32) -> (settled: bool)
    ensures
        settled == (bank & mask == mask),
{
    bank & mask == mask
}

} // verus!
