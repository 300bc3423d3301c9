//! Blocks of cells visited column by column, and two facts about sequences
//! that drawing loops lean on.

use vstd::arithmetic::div_mod::lemma_fundamental_div_mod_converse;
use vstd::prelude::*;

verus! {

/// The first `k + 1` entries of a sequence are its first `k` entries and
/// entry `k`.
pub proof fn lemma_take_next<T>(s: Seq<T>, k: int)
    requires
        0 <= k < s.len(),
    ensures
        s.take(k + 1) == s.take(k).push(s[k]),
{
    assert(s.take(k + 1) =~= s.take(k).push(s[k]));
}

/// One column of a block `rows` high, from its first row down: `cell(a, b)`
/// is what stands in column `a`, row `b`.
pub open spec fn column_of<T>(a: int, rows: nat, cell: spec_fn(int, int) -> T) -> Seq<T> {
    Seq::new(rows, |b: int| cell(a, b))
}

/// A block `columns` wide and `rows` high, visited column by column and each
/// column from its first row down.
pub open spec fn column_scan<T>(columns: nat, rows: nat, cell: spec_fn(int, int) -> T) -> Seq<T> {
    Seq::new(columns * rows, |i: int| cell(i / (rows as int), i % (rows as int)))
}

/// Row `b` of column `a` is entry `a * rows + b` of the scan, and no other
/// entry.
pub proof fn lemma_scan_position(columns: nat, rows: nat, a: int, b: int)
    requires
        0 <= a < columns,
        0 <= b < rows,
    ensures
        0 <= a * rows + b < columns * rows,
        (a * rows + b) / (rows as int) == a,
        (a * rows + b) % (rows as int) == b,
{
    assert(0 <= a * rows && a * rows + rows <= columns * rows) by (nonlinear_arith)
        requires
            0 <= a < columns,
            0 < rows,
    ;
    lemma_fundamental_div_mod_converse(a * rows + b, rows as int, a, b);
}

/// Entry `i` of the scan stands in column `i / rows`, row `i % rows`, both
/// inside the block.
pub proof fn lemma_scan_offsets(columns: nat, rows: nat, i: int)
    requires
        0 <= i < columns * rows,
    ensures
        rows > 0,
        0 <= i / (rows as int) < columns,
        0 <= i % (rows as int) < rows,
        i == (i / (rows as int)) * rows + i % (rows as int),
{
    assert(rows > 0) by (nonlinear_arith)
        requires
            0 <= i < columns * rows,
    ;
    let d: int = rows as int;
    assert(0 <= i / d < columns && 0 <= i % d < d && i == (i / d) * d + i % d)
        by (nonlinear_arith)
        requires
            0 <= i < columns * d,
            d > 0,
    ;
}

/// A scan of one more column is the scan so far followed by that column.
pub proof fn lemma_scan_next_column<T>(columns: nat, rows: nat, cell: spec_fn(int, int) -> T)
    ensures
        column_scan(columns + 1, rows, cell) == column_scan(columns, rows, cell) + column_of(
            columns as int,
            rows,
            cell,
        ),
{
    let wide = column_scan(columns + 1, rows, cell);
    let narrow = column_scan(columns, rows, cell);
    let last = column_of(columns as int, rows, cell);
    assert((columns + 1) * rows == columns * rows + rows) by (nonlinear_arith);
    assert forall|i: int| 0 <= i < wide.len() implies wide[i] == (narrow + last)[i] by {
        if i >= narrow.len() {
            let b: int = i - columns * rows;
            lemma_scan_position(columns + 1, rows, columns as int, b);
        }
    }
    assert(wide =~= narrow + last);
}

/// Filtering a sequence of which no entry is kept leaves nothing.
pub proof fn lemma_filter_nothing<T>(s: Seq<T>, keep: spec_fn(T) -> bool)
    requires
        forall|i: int| 0 <= i < s.len() ==> !keep(#[trigger] s[i]),
    ensures
        s.filter(keep) == Seq::<T>::empty(),
    decreases s.len(),
{
    reveal(Seq::filter);
    if s.len() > 0 {
        assert forall|i: int| 0 <= i < s.drop_last().len() implies !keep(
            #[trigger] s.drop_last()[i],
        ) by {
            assert(s.drop_last()[i] == s[i]);
        }
        lemma_filter_nothing(s.drop_last(), keep);
    }
}

} // verus!
