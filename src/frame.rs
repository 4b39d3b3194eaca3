//! The frame buffer as a mathematical object: a base buffer with delivered
//! rows written over it, and the fact that the order of delivery does not
//! matter.
use vstd::prelude::*;

verus! {

/// `buf` with `row` written over it starting at byte `start`.
pub open spec fn place_row(buf: Seq<u8>, start: int, row: Seq<u8>) -> Seq<u8> {
    Seq::new(
        buf.len(),
        |i: int|
            if start <= i < start + row.len() {
                row[i - start]
            } else {
                buf[i]
            },
    )
}

/// The buffer obtained from `base` by writing each delivered row `(y, bytes)`,
/// in the order given, at byte offset `y * row_len`.
pub open spec fn assemble(base: Seq<u8>, row_len: nat, rows: Seq<(nat, Seq<u8>)>) -> Seq<u8>
    decreases rows.len(),
{
    if rows.len() == 0 {
        base
    } else {
        let last = rows.last();
        place_row(assemble(base, row_len, rows.drop_last()), (last.0 * row_len) as int, last.1)
    }
}

/// Every delivered row has a row index below `height` and exactly `row_len` bytes.
pub open spec fn rows_fit(rows: Seq<(nat, Seq<u8>)>, row_len: nat, height: nat) -> bool {
    forall|k: int| 0 <= k < rows.len() ==> {
        &&& (#[trigger] rows[k]).0 < height
        &&& rows[k].1.len() == row_len
    }
}

/// No row index is delivered twice.
pub open spec fn distinct_rows(rows: Seq<(nat, Seq<u8>)>) -> bool {
    forall|j: int, k: int|
        0 <= j < rows.len() && 0 <= k < rows.len() && j != k ==> (#[trigger] rows[j]).0 != (
        #[trigger] rows[k]).0
}

/// Byte `i` lies in the span of row `y`.
pub open spec fn in_row(i: int, y: nat, row_len: nat) -> bool {
    y * row_len <= i < y * row_len + row_len
}

proof fn lemma_rows_disjoint(i: int, y1: nat, y2: nat, row_len: nat)
    requires
        y1 != y2,
        in_row(i, y1, row_len),
    ensures
        !in_row(i, y2, row_len),
{
    if y1 < y2 {
        assert(y1 * row_len + row_len <= y2 * row_len) by (nonlinear_arith)
            requires
                y1 < y2,
        ;
    } else {
        assert(y2 * row_len + row_len <= y1 * row_len) by (nonlinear_arith)
            requires
                y2 < y1,
        ;
    }
}

proof fn lemma_row_in_buffer(i: int, y: nat, row_len: nat, height: nat)
    requires
        y < height,
        in_row(i, y, row_len),
    ensures
        0 <= i < height * row_len,
{
    assert(y * row_len + row_len <= height * row_len) by (nonlinear_arith)
        requires
            y < height,
    ;
}

/// Assembling keeps the length of the base buffer.
pub proof fn lemma_assemble_len(base: Seq<u8>, row_len: nat, rows: Seq<(nat, Seq<u8>)>)
    ensures
        assemble(base, row_len, rows).len() == base.len(),
    decreases rows.len(),
{
    if rows.len() > 0 {
        lemma_assemble_len(base, row_len, rows.drop_last());
    }
}

/// Within the span of a delivered row, the assembled buffer holds that row.
proof fn lemma_assemble_in_row(
    base: Seq<u8>,
    row_len: nat,
    height: nat,
    rows: Seq<(nat, Seq<u8>)>,
    k: int,
    i: int,
)
    requires
        base.len() == height * row_len,
        rows_fit(rows, row_len, height),
        distinct_rows(rows),
        0 <= k < rows.len(),
        in_row(i, rows[k].0, row_len),
    ensures
        assemble(base, row_len, rows)[i] == rows[k].1[i - rows[k].0 * row_len],
    decreases rows.len(),
{
    let prefix = rows.drop_last();
    lemma_assemble_len(base, row_len, prefix);
    lemma_row_in_buffer(i, rows[k].0, row_len, height);
    if k < rows.len() - 1 {
        assert(rows[k] == prefix[k]);
        assert(rows.last() == rows[rows.len() - 1]);
        lemma_rows_disjoint(i, rows[k].0, rows.last().0, row_len);
        assert(rows_fit(prefix, row_len, height)) by {
            assert forall|j: int| 0 <= j < prefix.len() implies (#[trigger] prefix[j]).0 < height
                && prefix[j].1.len() == row_len by {
                assert(prefix[j] == rows[j]);
            }
        }
        assert(distinct_rows(prefix)) by {
            assert forall|a: int, b: int|
                0 <= a < prefix.len() && 0 <= b < prefix.len() && a != b implies (
            #[trigger] prefix[a]).0 != (#[trigger] prefix[b]).0 by {
                assert(prefix[a] == rows[a]);
                assert(prefix[b] == rows[b]);
            }
        }
        lemma_assemble_in_row(base, row_len, height, prefix, k, i);
    }
}

/// Outside the spans of all delivered rows, the assembled buffer keeps the base.
proof fn lemma_assemble_outside(
    base: Seq<u8>,
    row_len: nat,
    height: nat,
    rows: Seq<(nat, Seq<u8>)>,
    i: int,
)
    requires
        0 <= i < base.len(),
        rows_fit(rows, row_len, height),
        forall|k: int| 0 <= k < rows.len() ==> !in_row(i, (#[trigger] rows[k]).0, row_len),
    ensures
        assemble(base, row_len, rows)[i] == base[i],
    decreases rows.len(),
{
    if rows.len() > 0 {
        let prefix = rows.drop_last();
        lemma_assemble_len(base, row_len, prefix);
        assert(rows.last() == rows[rows.len() - 1]);
        assert(!in_row(i, rows[rows.len() - 1].0, row_len));
        assert forall|k: int| 0 <= k < prefix.len() implies !in_row(
            i,
            (#[trigger] prefix[k]).0,
            row_len,
        ) && prefix[k].0 < height && prefix[k].1.len() == row_len by {
            assert(prefix[k] == rows[k]);
        }
        lemma_assemble_outside(base, row_len, height, prefix, i);
    }
}

/// Rows delivered in any order assemble into the same buffer: two deliveries
/// of the same rows, each row index at most once, give equal buffers.
pub proof fn lemma_row_order_independent(
    base: Seq<u8>,
    row_len: nat,
    height: nat,
    rows1: Seq<(nat, Seq<u8>)>,
    rows2: Seq<(nat, Seq<u8>)>,
)
    requires
        base.len() == height * row_len,
        rows_fit(rows1, row_len, height),
        rows_fit(rows2, row_len, height),
        distinct_rows(rows1),
        distinct_rows(rows2),
        rows1.to_multiset() == rows2.to_multiset(),
    ensures
        assemble(base, row_len, rows1) == assemble(base, row_len, rows2),
{
    broadcast use vstd::seq_lib::to_multiset_contains;

    let a1 = assemble(base, row_len, rows1);
    let a2 = assemble(base, row_len, rows2);
    lemma_assemble_len(base, row_len, rows1);
    lemma_assemble_len(base, row_len, rows2);
    assert forall|i: int| 0 <= i < a1.len() implies a1[i] == a2[i] by {
        if exists|k: int| 0 <= k < rows1.len() && in_row(i, (#[trigger] rows1[k]).0, row_len) {
            let k = choose|k: int| 0 <= k < rows1.len() && in_row(i, (#[trigger] rows1[k]).0, row_len);
            assert(rows1.contains(rows1[k]));
            assert(rows1.to_multiset().count(rows1[k]) > 0);
            assert(rows2.contains(rows1[k]));
            let k2 = choose|k2: int| 0 <= k2 < rows2.len() && rows2[k2] == rows1[k];
            lemma_assemble_in_row(base, row_len, height, rows1, k, i);
            lemma_assemble_in_row(base, row_len, height, rows2, k2, i);
        } else {
            assert forall|k: int| 0 <= k < rows2.len() implies !in_row(
                i,
                (#[trigger] rows2[k]).0,
                row_len,
            ) by {
                assert(rows2.contains(rows2[k]));
                assert(rows2.to_multiset().count(rows2[k]) > 0);
                assert(rows1.contains(rows2[k]));
            }
            lemma_assemble_outside(base, row_len, height, rows1, i);
            lemma_assemble_outside(base, row_len, height, rows2, i);
        }
    }
    assert(a1 =~= a2);
}

} // verus!
