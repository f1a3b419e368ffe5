//! What holds of every rewrite: where pointers lead, what decodes back, and
//! what is left as it was.

use vstd::prelude::*;
use crate::binary::{le_bytes_of, put4};
use vstd::utf8::{
    decode_utf8, decode_utf8_encode_utf8, encode_utf8, encode_utf8_decode_utf8,
    encode_utf8_valid_utf8,
};
use crate::binary::{
    cstr_at, fits, lemma_le_bytes_round_trip, lemma_terminator_unique, terminated_at, u32_at,
};
use crate::error::NxdError;
use crate::nxd::{
    NXD_MAGIC, cell_at, index_of, key_of, keyed_texts, lemma_row_cells_entry, row_index_at,
    row_info_at, stride, row_cells, row_start, rows_of,
    table_texts, text_area_start, RowInfo,
};
use crate::rewrite::{
    StrCell, cell_fits, cell_from, distance, effective_text, lemma_pool_keeps,
    lemma_rows_columns_rise, lemma_rows_of_ok, lemma_str_cells_keys, lemma_str_cells_origin, patched,
    pointer_base, pool_after, pool_init, rewritten, str_cells, Pool,
};
use crate::schema::{Cell, TableColumns, columns_of};

verus! {

/// No two of the cells `cs` share a byte of their 4-byte fields.
pub open spec fn fields_apart(cs: Seq<StrCell>) -> bool {
    forall|i: int, j: int|
        0 <= i < cs.len() && 0 <= j < cs.len() && i != j ==> (#[trigger] cs[i]).field + 4
            <= (#[trigger] cs[j]).field || cs[j].field + 4 <= cs[i].field
}

/// Every field of `cs` lies inside a buffer of `len` bytes.
pub open spec fn fields_within(cs: Seq<StrCell>, len: int) -> bool {
    forall|i: int| 0 <= i < cs.len() ==> 0 <= (#[trigger] cs[i]).field && cs[i].field + 4 <= len
}

/// Setting fields keeps the length and every byte outside the fields.
proof fn lemma_patched_outside(base: Seq<u8>, text_area: int, pool: Pool, cs: Seq<StrCell>, n: int)
    requires
        0 <= n <= cs.len(),
        fields_within(cs, base.len() as int),
    ensures
        patched(base, text_area, pool, cs, n).len() == base.len(),
        forall|k: int|
            0 <= k < base.len() && (forall|i: int|
                0 <= i < n ==> !((#[trigger] cs[i]).field <= k < cs[i].field + 4)) ==> #[trigger] patched(
                base,
                text_area,
                pool,
                cs,
                n,
            )[k] == base[k],
    decreases n,
{
    if n > 0 {
        lemma_patched_outside(base, text_area, pool, cs, n - 1);
        let prev = patched(base, text_area, pool, cs, n - 1);
        let c = cs[n - 1];
        let b = le_bytes_of(distance(text_area, pool, c));
        assert(put4(prev, c.field, b).len() == prev.len());
        assert forall|k: int|
            0 <= k < base.len() && (forall|i: int|
                0 <= i < n ==> !((#[trigger] cs[i]).field <= k < cs[i].field + 4)) implies #[trigger] patched(
            base,
            text_area,
            pool,
            cs,
            n,
        )[k] == base[k] by {
            assert(!(cs[n - 1].field <= k < cs[n - 1].field + 4));
            if k < c.field {
                assert(put4(prev, c.field, b)[k] == prev[k]);
            } else {
                assert(put4(prev, c.field, b)[k] == prev[k]);
            }
        }
    }
}

/// Each field set holds the offset computed for its cell, when no two
/// fields overlap.
proof fn lemma_patched_field(
    base: Seq<u8>,
    text_area: int,
    pool: Pool,
    cs: Seq<StrCell>,
    n: int,
    i: int,
)
    requires
        0 <= i < n <= cs.len(),
        fields_within(cs, base.len() as int),
        fields_apart(cs),
    ensures
        patched(base, text_area, pool, cs, n).subrange(cs[i].field, cs[i].field + 4)
            == le_bytes_of(distance(text_area, pool, cs[i])),
    decreases n,
{
    lemma_patched_outside(base, text_area, pool, cs, n - 1);
    let prev = patched(base, text_area, pool, cs, n - 1);
    let c = cs[n - 1];
    let b = le_bytes_of(distance(text_area, pool, c));
    let now = put4(prev, c.field, b);
    let f = cs[i].field;
    if i == n - 1 {
        assert(now.subrange(f, f + 4) =~= b);
    } else {
        lemma_patched_field(base, text_area, pool, cs, n - 1, i);
        assert(now.subrange(f, f + 4) =~= prev.subrange(f, f + 4));
    }
}

/// A key in the pool is one it started with or one of a cell before.
proof fn lemma_pool_keys(init: Pool, cs: Seq<StrCell>, n: int, k: Seq<char>)
    requires
        0 <= n <= cs.len(),
        pool_after(init, cs, n).offsets.contains_key(k),
    ensures
        init.offsets.contains_key(k) || exists|j: int| 0 <= j < n && (#[trigger] cs[j]).key == k,
    decreases n,
{
    if n > 0 {
        if pool_after(init, cs, n - 1).offsets.contains_key(k) {
            lemma_pool_keys(init, cs, n - 1, k);
        } else {
            assert(cs[n - 1].key == k);
        }
    }
}

/// The pool only grows at its end.
proof fn lemma_pool_prefix(init: Pool, cs: Seq<StrCell>, n: int, m: int)
    requires
        0 <= n <= m <= cs.len(),
    ensures
        pool_after(init, cs, n).bytes.len() <= pool_after(init, cs, m).bytes.len(),
        pool_after(init, cs, m).bytes.subrange(0, pool_after(init, cs, n).bytes.len() as int)
            == pool_after(init, cs, n).bytes,
    decreases m - n,
{
    let bn = pool_after(init, cs, n).bytes;
    if n == m {
        assert(bn.subrange(0, bn.len() as int) =~= bn);
    } else {
        lemma_pool_prefix(init, cs, n, m - 1);
        let bp = pool_after(init, cs, m - 1).bytes;
        let bm = pool_after(init, cs, m).bytes;
        assert(bm.subrange(0, bn.len() as int) =~= bp.subrange(0, bn.len() as int));
    }
}

/// Where cell keys are distinct and new to the pool, each cell's text is
/// stored, null-terminated, at the offset recorded for its key.
pub proof fn lemma_pool_string(init: Pool, cs: Seq<StrCell>, i: int)
    requires
        0 <= i < cs.len(),
        forall|a: int, b: int| 0 <= a < b < cs.len() ==> (#[trigger] cs[a]).key != (#[trigger] cs[b]).key,
        !init.offsets.contains_key(cs[i].key),
    ensures
        ({
            let fin = pool_after(init, cs, cs.len() as int);
            let off = fin.offsets[cs[i].key];
            let t = encode_utf8(cs[i].text);
            &&& fin.offsets.contains_key(cs[i].key)
            &&& 0 <= off
            &&& off + t.len() + 1 <= fin.bytes.len()
            &&& fin.bytes.subrange(off, off + t.len() + 1) == t + seq![0u8]
        }),
{
    let before = pool_after(init, cs, i);
    let after = pool_after(init, cs, i + 1);
    let t = encode_utf8(cs[i].text);
    if before.offsets.contains_key(cs[i].key) {
        lemma_pool_keys(init, cs, i, cs[i].key);
        let j = choose|j: int| 0 <= j < i && (#[trigger] cs[j]).key == cs[i].key;
        assert(cs[j].key != cs[i].key);
    }
    assert(after.bytes == before.bytes + t + seq![0u8]);
    assert(after.offsets[cs[i].key] == before.bytes.len());
    lemma_pool_keeps(init, cs, i + 1, cs.len() as int, cs[i].key);
    lemma_pool_prefix(init, cs, i + 1, cs.len() as int);
    let fin = pool_after(init, cs, cs.len() as int);
    let off = before.bytes.len() as int;
    assert(fin.bytes.subrange(off, off + t.len() + 1) =~= after.bytes.subrange(off, off + t.len() + 1));
    assert(after.bytes.subrange(off, off + t.len() + 1) =~= t + seq![0u8]);
}

/// `cells`, `infos` (ending at `index_end`) and `rows` are what reading the
/// table called `name` in `d` finds: its layout, its row index, its rows.
pub open spec fn decoded(
    d: Seq<u8>,
    tables: Seq<TableColumns>,
    name: Seq<char>,
    cells: Seq<Cell>,
    infos: Seq<RowInfo>,
    index_end: int,
    rows: Seq<Seq<(int, Seq<char>)>>,
) -> bool {
    &&& columns_of(tables, name) == Some(cells)
    &&& index_of(d) == Ok::<(Seq<RowInfo>, int), NxdError>((infos, index_end))
    &&& rows_of(d, cells, infos, infos.len() as int) == Ok::<
        Seq<Seq<(int, Seq<char>)>>,
        NxdError,
    >(rows)
}

/// The string cells that a rewrite sets, in order.
pub open spec fn cells_to_rewrite(
    name: Seq<char>,
    cells: Seq<Cell>,
    ov: Map<Seq<char>, Seq<char>>,
    infos: Seq<RowInfo>,
    rows: Seq<Seq<(int, Seq<char>)>>,
) -> Seq<StrCell> {
    str_cells(name, cells, ov, infos, rows, infos.len() as int)
}

/// The pool that a rewrite appends.
pub open spec fn final_pool(cells: Seq<Cell>, cs: Seq<StrCell>) -> Pool {
    pool_after(pool_init(cells), cs, cs.len() as int)
}

/// The UTF-8 bytes of `t` hold no zero byte.
pub open spec fn zero_free(t: Seq<char>) -> bool {
    forall|k: int| 0 <= k < encode_utf8(t).len() ==> #[trigger] encode_utf8(t)[k] != 0
}

/// A rewrite copies everything before the new pool but the string cells'
/// fields, then appends the pool; every string cell lies before the pool.
#[verifier::rlimit(40)]
pub proof fn lemma_rewrite_layout(
    d: Seq<u8>,
    tables: Seq<TableColumns>,
    name: Seq<char>,
    ov: Map<Seq<char>, Seq<char>>,
    cells: Seq<Cell>,
    infos: Seq<RowInfo>,
    index_end: int,
    rows: Seq<Seq<(int, Seq<char>)>>,
    out: Seq<u8>,
)
    requires
        decoded(d, tables, name, cells, infos, index_end, rows),
        rewritten(d, tables, name, ov) == Ok::<Seq<u8>, NxdError>(out),
    ensures
        ({
            let ta = text_area_start(cells, infos, index_end);
            let cs = cells_to_rewrite(name, cells, ov, infos, rows);
            let pool = final_pool(cells, cs);
            &&& ta <= d.len()
            &&& out.len() == ta + pool.bytes.len()
            &&& out.subrange(ta, out.len() as int) == pool.bytes
            &&& fields_within(cs, ta)
            &&& forall|i: int| 0 <= i < cs.len() ==> cell_fits(ta, pool, #[trigger] cs[i])
            &&& forall|k: int|
                0 <= k < ta && (forall|i: int|
                    0 <= i < cs.len() ==> !((#[trigger] cs[i]).field <= k < cs[i].field + 4))
                    ==> #[trigger] out[k] == d[k]
        }),
{
    let ta = text_area_start(cells, infos, index_end);
    let cs = cells_to_rewrite(name, cells, ov, infos, rows);
    let pool = final_pool(cells, cs);
    let base = d.subrange(0, ta);
    assert(forall|i: int| 0 <= i < cs.len() ==> cell_fits(ta, pool, #[trigger] cs[i]));
    lemma_patched_outside(base, ta, pool, cs, cs.len() as int);
    let p = patched(base, ta, pool, cs, cs.len() as int);
    assert(out == p + pool.bytes);
    assert(out.subrange(ta, out.len() as int) =~= pool.bytes);
    assert forall|k: int|
        0 <= k < ta && (forall|i: int|
            0 <= i < cs.len() ==> !((#[trigger] cs[i]).field <= k < cs[i].field + 4)) implies #[trigger] out[k]
        == d[k] by {
        assert(p[k] == base[k]);
    }
}

/// Every string cell that a rewrite sets now holds the distance from its
/// base to its own text in the new pool, stored there null-terminated
/// (where no two string cells share field bytes).
#[verifier::rlimit(40)]
pub proof fn lemma_rewrite_pointers(
    d: Seq<u8>,
    tables: Seq<TableColumns>,
    name: Seq<char>,
    ov: Map<Seq<char>, Seq<char>>,
    cells: Seq<Cell>,
    infos: Seq<RowInfo>,
    index_end: int,
    rows: Seq<Seq<(int, Seq<char>)>>,
    out: Seq<u8>,
)
    requires
        decoded(d, tables, name, cells, infos, index_end, rows),
        rewritten(d, tables, name, ov) == Ok::<Seq<u8>, NxdError>(out),
        fields_apart(cells_to_rewrite(name, cells, ov, infos, rows)),
    ensures
        ({
            let ta = text_area_start(cells, infos, index_end);
            let cs = cells_to_rewrite(name, cells, ov, infos, rows);
            let pool = final_pool(cells, cs);
            forall|i: int|
                0 <= i < cs.len() ==> {
                    let c = #[trigger] cs[i];
                    let target = ta + pool.offsets[c.key];
                    let t = encode_utf8(c.text);
                    &&& pointer_base(c) + u32_at(out, c.field) == target
                    &&& ta <= target
                    &&& target + t.len() + 1 <= out.len()
                    &&& out.subrange(target, target + t.len() + 1) == t + seq![0u8]
                }
        }),
{
    let ta = text_area_start(cells, infos, index_end);
    let cs = cells_to_rewrite(name, cells, ov, infos, rows);
    let init = pool_init(cells);
    let pool = final_pool(cells, cs);
    let n = infos.len() as int;
    lemma_rewrite_layout(d, tables, name, ov, cells, infos, index_end, rows, out);
    lemma_rows_of_ok(d, cells, infos, n);
    lemma_rows_columns_rise(d, cells, infos, n);
    lemma_str_cells_keys(name, cells, ov, infos, rows, n);
    let p = patched(d.subrange(0, ta), ta, pool, cs, cs.len() as int);
    lemma_patched_outside(d.subrange(0, ta), ta, pool, cs, cs.len() as int);
    assert forall|i: int| 0 <= i < cs.len() implies {
        let c = #[trigger] cs[i];
        let target = ta + pool.offsets[c.key];
        let t = encode_utf8(c.text);
        &&& pointer_base(c) + u32_at(out, c.field) == target
        &&& ta <= target
        &&& target + t.len() + 1 <= out.len()
        &&& out.subrange(target, target + t.len() + 1) == t + seq![0u8]
    } by {
        let c = cs[i];
        let t = encode_utf8(c.text);
        assert(c.key.len() > 0);
        assert(!init.offsets.contains_key(c.key));
        lemma_pool_string(init, cs, i);
        let off = pool.offsets[c.key];
        assert(out == p + pool.bytes);
        assert(out.subrange(ta + off, ta + off + t.len() + 1) =~= pool.bytes.subrange(
            off,
            off + t.len() + 1,
        ));
        lemma_patched_field(d.subrange(0, ta), ta, pool, cs, cs.len() as int, i);
        assert(cell_fits(ta, pool, c));
        assert(out.subrange(c.field, c.field + 4) =~= p.subrange(c.field, c.field + 4));
        lemma_le_bytes_round_trip(distance(ta, pool, c));
    }
}

/// The text of a decoded string holds no zero byte.
proof fn lemma_decoded_zero_free(d: Seq<u8>, start: int)
    requires
        cstr_at(d, start) is Ok,
    ensures
        zero_free(cstr_at(d, start)->Ok_0),
{
    let e = choose|e: int| terminated_at(d, start, e);
    let b = d.subrange(start, e);
    decode_utf8_encode_utf8(b);
    assert(encode_utf8(decode_utf8(b)) == b);
}

/// A string cell whose pointer leads to the null-terminated bytes of `text`
/// decodes to `text`.
proof fn lemma_cell_reads_back(out: Seq<u8>, field: int, shift: i32, target: int, text: Seq<char>)
    requires
        fits(out, field, 4),
        0 <= field + 4 * shift <= u64::MAX,
        0 <= target <= u64::MAX,
        0 <= u32_at(out, field) < 0x8000_0000,
        field + 4 * shift + u32_at(out, field) == target,
        zero_free(text),
        target + encode_utf8(text).len() + 1 <= out.len(),
        out.subrange(target, target + encode_utf8(text).len() + 1) == encode_utf8(text) + seq![0u8],
    ensures
        cell_at(out, Cell::Str(shift), field) == Ok::<Option<Seq<char>>, NxdError>(Some(text)),
{
    let t = encode_utf8(text);
    let end = target + t.len();
    assert(out[end] == (t + seq![0u8])[t.len() as int]);
    assert forall|k: int| target <= k < end implies out[k] != 0 by {
        assert(out[k] == (t + seq![0u8])[k - target]);
    }
    assert(terminated_at(out, target, end));
    let e = choose|e: int| terminated_at(out, target, e);
    lemma_terminator_unique(out, target, e, end);
    assert(out.subrange(target, end) =~= t);
    encode_utf8_valid_utf8(text);
    encode_utf8_decode_utf8(text);
}

/// Decoding a rewritten string cell gives the replacement text where its key
/// has one, else its text before (where no two string cells share field
/// bytes, no text holds a zero byte, and each stored distance is below 2^31,
/// the reach of a signed offset).
#[verifier::rlimit(40)]
pub proof fn lemma_rewrite_decodes(
    d: Seq<u8>,
    tables: Seq<TableColumns>,
    name: Seq<char>,
    ov: Map<Seq<char>, Seq<char>>,
    cells: Seq<Cell>,
    infos: Seq<RowInfo>,
    index_end: int,
    rows: Seq<Seq<(int, Seq<char>)>>,
    out: Seq<u8>,
)
    requires
        decoded(d, tables, name, cells, infos, index_end, rows),
        rewritten(d, tables, name, ov) == Ok::<Seq<u8>, NxdError>(out),
        fields_apart(cells_to_rewrite(name, cells, ov, infos, rows)),
        forall|i: int|
            0 <= i < cells_to_rewrite(name, cells, ov, infos, rows).len() ==> {
                let c = #[trigger] cells_to_rewrite(name, cells, ov, infos, rows)[i];
                &&& zero_free(c.text)
                &&& distance(
                    text_area_start(cells, infos, index_end),
                    final_pool(cells, cells_to_rewrite(name, cells, ov, infos, rows)),
                    c,
                ) < 0x8000_0000
            },
    ensures
        ({
            let cs = cells_to_rewrite(name, cells, ov, infos, rows);
            forall|i: int|
                0 <= i < cs.len() ==> {
                    let c = #[trigger] cs[i];
                    let before = cell_at(d, cells[c.col], c.field);
                    &&& before is Ok && before->Ok_0 is Some
                    &&& cell_at(out, cells[c.col], c.field) == Ok::<Option<Seq<char>>, NxdError>(
                        Some(effective_text(ov, c.key, before->Ok_0->Some_0)),
                    )
                }
        }),
{
    let ta = text_area_start(cells, infos, index_end);
    let cs = cells_to_rewrite(name, cells, ov, infos, rows);
    let pool = final_pool(cells, cs);
    let n = infos.len() as int;
    lemma_rewrite_layout(d, tables, name, ov, cells, infos, index_end, rows, out);
    lemma_rewrite_pointers(d, tables, name, ov, cells, infos, index_end, rows, out);
    lemma_rows_of_ok(d, cells, infos, n);
    lemma_str_cells_origin(name, cells, ov, infos, rows, n);
    assert forall|i: int| 0 <= i < cs.len() implies {
        let c = #[trigger] cs[i];
        let before = cell_at(d, cells[c.col], c.field);
        &&& before is Ok && before->Ok_0 is Some
        &&& cell_at(out, cells[c.col], c.field) == Ok::<Option<Seq<char>>, NxdError>(
            Some(effective_text(ov, c.key, before->Ok_0->Some_0)),
        )
    } by {
        let c = cs[i];
        let j = choose|j: int| cell_from(c, j, cells, ov, infos, rows);
        assert(row_start(infos[c.row]) is Ok);
        let start = row_start(infos[c.row])->Ok_0 as int;
        assert(rows[c.row] == row_cells(d, cells, start, cells.len() as int)->Ok_0);
        lemma_row_cells_entry(d, cells, start, cells.len() as int, j);
        let shift = match cells[c.col] {
            Cell::Str(s) => s,
            _ => 0,
        };
        assert(cells[c.col] == Cell::Str(shift));
        assert(cell_fits(ta, pool, c));
        lemma_cell_reads_back(out, c.field, shift, ta + pool.offsets[c.key], c.text);
    }
}

/// The decoded rows `rows` of table `name`, each text replaced as `ov` says.
pub open spec fn overridden(
    name: Seq<char>,
    ov: Map<Seq<char>, Seq<char>>,
    rows: Seq<Seq<(int, Seq<char>)>>,
) -> Seq<Seq<(int, Seq<char>)>> {
    Seq::new(rows.len(), |r: int| overridden_row(name, ov, r, rows[r]))
}

/// The decoded row `row`, row `r` of table `name`, each text replaced as
/// `ov` says.
pub open spec fn overridden_row(
    name: Seq<char>,
    ov: Map<Seq<char>, Seq<char>>,
    r: int,
    row: Seq<(int, Seq<char>)>,
) -> Seq<(int, Seq<char>)> {
    row.map_values(|e: (int, Seq<char>)| (e.0, effective_text(ov, key_of(name, r, e.0), e.1)))
}

/// Every cell of every row lies before `text_area`.
pub open spec fn rows_before(cells: Seq<Cell>, infos: Seq<RowInfo>, text_area: int) -> bool {
    forall|r: int|
        0 <= r < infos.len() ==> row_start(#[trigger] infos[r]) is Ok && row_start(infos[r])->Ok_0
            + 4 * cells.len() <= text_area
}

/// A decoded row prefix of a longer decoded prefix is its beginning.
proof fn lemma_row_cells_prefix(d: Seq<u8>, cells: Seq<Cell>, start: int, m: int, n: int)
    requires
        0 <= m <= n,
        row_cells(d, cells, start, n) is Ok,
    ensures
        row_cells(d, cells, start, m) is Ok,
        row_cells(d, cells, start, m)->Ok_0.len() <= row_cells(d, cells, start, n)->Ok_0.len(),
        row_cells(d, cells, start, n)->Ok_0.take(row_cells(d, cells, start, m)->Ok_0.len() as int)
            == row_cells(d, cells, start, m)->Ok_0,
    decreases n - m,
{
    let a = row_cells(d, cells, start, m)->Ok_0;
    if m == n {
        assert(a.take(a.len() as int) =~= a);
    } else {
        lemma_row_cells_prefix(d, cells, start, m, n - 1);
        let p = row_cells(d, cells, start, n - 1)->Ok_0;
        let q = row_cells(d, cells, start, n)->Ok_0;
        assert(q.take(a.len() as int) =~= p.take(a.len() as int));
    }
}

/// A row whose string cells each decode to their new text in `out`, and
/// whose cells all lie in `out`, decodes there to its overridden texts.
#[verifier::rlimit(40)]
proof fn lemma_row_cells_out(
    d: Seq<u8>,
    out: Seq<u8>,
    cells: Seq<Cell>,
    start: int,
    name: Seq<char>,
    ov: Map<Seq<char>, Seq<char>>,
    r: int,
    m: int,
)
    requires
        0 <= m <= cells.len(),
        row_cells(d, cells, start, cells.len() as int) is Ok,
        0 <= start,
        start + 4 * cells.len() <= out.len(),
        forall|j: int|
            0 <= j < row_cells(d, cells, start, cells.len() as int)->Ok_0.len() ==> {
                let e = #[trigger] row_cells(d, cells, start, cells.len() as int)->Ok_0[j];
                cell_at(out, cells[e.0], start + 4 * e.0) == Ok::<Option<Seq<char>>, NxdError>(
                    Some(effective_text(ov, key_of(name, r, e.0), e.1)),
                )
            },
    ensures
        row_cells(out, cells, start, m) == Ok::<Seq<(int, Seq<char>)>, NxdError>(
            overridden_row(name, ov, r, row_cells(d, cells, start, m)->Ok_0),
        ),
    decreases m,
{
    let n = cells.len() as int;
    lemma_row_cells_prefix(d, cells, start, m, n);
    if m == 0 {
        assert(overridden_row(name, ov, r, row_cells(d, cells, start, 0)->Ok_0) =~= seq![]);
    } else {
        lemma_row_cells_out(d, out, cells, start, name, ov, r, m - 1);
        lemma_row_cells_prefix(d, cells, start, m - 1, n);
        let acc = row_cells(d, cells, start, m - 1)->Ok_0;
        let p = start + 4 * (m - 1);
        match cell_at(d, cells[m - 1], p) {
            Ok(Some(t)) => {
                let full = row_cells(d, cells, start, n)->Ok_0;
                let now = row_cells(d, cells, start, m)->Ok_0;
                assert(now == acc.push((m - 1, t)));
                let j = acc.len() as int;
                assert(full.take(now.len() as int)[j] == now[j]);
                assert(full[j] == (m - 1, t));
                assert(overridden_row(name, ov, r, now) =~= overridden_row(name, ov, r, acc).push(
                    (m - 1, effective_text(ov, key_of(name, r, m - 1), t)),
                ));
            },
            _ => {
                assert(row_cells(d, cells, start, m)->Ok_0 == acc);
                assert(fits(out, p, 4));
            },
        }
    }
}

/// Rows that each decode to their overridden texts make a table that does.
proof fn lemma_rows_out(
    out: Seq<u8>,
    cells: Seq<Cell>,
    infos: Seq<RowInfo>,
    name: Seq<char>,
    ov: Map<Seq<char>, Seq<char>>,
    rows: Seq<Seq<(int, Seq<char>)>>,
    m: int,
)
    requires
        0 <= m <= rows.len(),
        rows.len() <= infos.len(),
        forall|r: int|
            0 <= r < rows.len() ==> crate::nxd::row_of(out, cells, #[trigger] infos[r]) == Ok::<
                Seq<(int, Seq<char>)>,
                NxdError,
            >(overridden_row(name, ov, r, rows[r])),
    ensures
        rows_of(out, cells, infos, m) == Ok::<Seq<Seq<(int, Seq<char>)>>, NxdError>(
            overridden(name, ov, rows).take(m),
        ),
    decreases m,
{
    if m == 0 {
        assert(overridden(name, ov, rows).take(0) =~= seq![]);
    } else {
        lemma_rows_out(out, cells, infos, name, ov, rows, m - 1);
        assert(crate::nxd::row_of(out, cells, infos[m - 1]) == Ok::<
            Seq<(int, Seq<char>)>,
            NxdError,
        >(overridden_row(name, ov, m - 1, rows[m - 1])));
        assert(overridden(name, ov, rows).take(m) =~= overridden(name, ov, rows).take(m - 1).push(
            overridden_row(name, ov, m - 1, rows[m - 1]),
        ));
    }
}

/// One row of the rewritten output decodes to its overridden texts, given
/// that every string cell does.
#[verifier::rlimit(40)]
proof fn lemma_rewritten_row(
    d: Seq<u8>,
    tables: Seq<TableColumns>,
    name: Seq<char>,
    ov: Map<Seq<char>, Seq<char>>,
    cells: Seq<Cell>,
    infos: Seq<RowInfo>,
    index_end: int,
    rows: Seq<Seq<(int, Seq<char>)>>,
    out: Seq<u8>,
    r: int,
)
    requires
        decoded(d, tables, name, cells, infos, index_end, rows),
        0 <= r < rows.len() == infos.len(),
        text_area_start(cells, infos, index_end) <= out.len(),
        rows_before(cells, infos, text_area_start(cells, infos, index_end)),
        forall|i: int|
            0 <= i < cells_to_rewrite(name, cells, ov, infos, rows).len() ==> {
                let c = #[trigger] cells_to_rewrite(name, cells, ov, infos, rows)[i];
                let before = cell_at(d, cells[c.col], c.field);
                &&& before is Ok && before->Ok_0 is Some
                &&& cell_at(out, cells[c.col], c.field) == Ok::<Option<Seq<char>>, NxdError>(
                    Some(effective_text(ov, c.key, before->Ok_0->Some_0)),
                )
            },
    ensures
        crate::nxd::row_of(out, cells, infos[r]) == Ok::<Seq<(int, Seq<char>)>, NxdError>(
            overridden_row(name, ov, r, rows[r]),
        ),
{
    let n = infos.len() as int;
    let cs = cells_to_rewrite(name, cells, ov, infos, rows);
    lemma_rows_of_ok(d, cells, infos, n);
    assert(row_start(infos[r]) is Ok);
    let start = row_start(infos[r])->Ok_0 as int;
    let len = cells.len() as int;
    assert(rows[r] == row_cells(d, cells, start, len)->Ok_0);
    crate::rewrite::lemma_str_cells_row(name, cells, ov, infos, rows, r, n);
    let before = str_cells(name, cells, ov, infos, rows, r).len() as int;
    let here = crate::rewrite::row_str_cells(name, cells, ov, r, start, rows[r]);
    assert forall|j: int| 0 <= j < rows[r].len() implies {
        let e = #[trigger] row_cells(d, cells, start, len)->Ok_0[j];
        cell_at(out, cells[e.0], start + 4 * e.0) == Ok::<Option<Seq<char>>, NxdError>(
            Some(effective_text(ov, key_of(name, r, e.0), e.1)),
        )
    } by {
        assert(cs.subrange(before, before + here.len())[j] == cs[before + j]);
        assert(cs[before + j] == here[j]);
        lemma_row_cells_entry(d, cells, start, len, j);
    }
    lemma_row_cells_out(d, out, cells, start, name, ov, r, len);
}

/// Decoding the rewritten output under the row index it was rewritten from
/// gives every row with each text replaced where its key has a replacement
/// and kept where not (where every cell of every row lies before the new
/// pool, no two string cells share field bytes, no text holds a zero byte,
/// and each stored distance is below 2^31, the reach of a signed offset).
#[verifier::rlimit(40)]
pub proof fn lemma_rewrite_rows_decode(
    d: Seq<u8>,
    tables: Seq<TableColumns>,
    name: Seq<char>,
    ov: Map<Seq<char>, Seq<char>>,
    cells: Seq<Cell>,
    infos: Seq<RowInfo>,
    index_end: int,
    rows: Seq<Seq<(int, Seq<char>)>>,
    out: Seq<u8>,
)
    requires
        decoded(d, tables, name, cells, infos, index_end, rows),
        rewritten(d, tables, name, ov) == Ok::<Seq<u8>, NxdError>(out),
        rows_before(cells, infos, text_area_start(cells, infos, index_end)),
        fields_apart(cells_to_rewrite(name, cells, ov, infos, rows)),
        forall|i: int|
            0 <= i < cells_to_rewrite(name, cells, ov, infos, rows).len() ==> {
                let c = #[trigger] cells_to_rewrite(name, cells, ov, infos, rows)[i];
                &&& zero_free(c.text)
                &&& distance(
                    text_area_start(cells, infos, index_end),
                    final_pool(cells, cells_to_rewrite(name, cells, ov, infos, rows)),
                    c,
                ) < 0x8000_0000
            },
    ensures
        rows_of(out, cells, infos, infos.len() as int) == Ok::<
            Seq<Seq<(int, Seq<char>)>>,
            NxdError,
        >(overridden(name, ov, rows)),
{
    let n = infos.len() as int;
    let cs = cells_to_rewrite(name, cells, ov, infos, rows);
    lemma_rewrite_layout(d, tables, name, ov, cells, infos, index_end, rows, out);
    lemma_rewrite_decodes(d, tables, name, ov, cells, infos, index_end, rows, out);
    lemma_rows_of_ok(d, cells, infos, n);
    assert forall|r: int| 0 <= r < rows.len() implies crate::nxd::row_of(
        out,
        cells,
        #[trigger] infos[r],
    ) == Ok::<Seq<(int, Seq<char>)>, NxdError>(overridden_row(name, ov, r, rows[r])) by {
        lemma_rewritten_row(d, tables, name, ov, cells, infos, index_end, rows, out, r);
    }
    lemma_rows_out(out, cells, infos, name, ov, rows, n);
    assert(overridden(name, ov, rows).take(n) =~= overridden(name, ov, rows));
}

/// How many header bytes a table's row type has decoding read.
pub open spec fn header_len(d: Seq<u8>) -> int {
    if d[8] == 1 {
        40
    } else {
        52
    }
}

/// Where the row index of `d` starts.
pub open spec fn index_start(d: Seq<u8>) -> int {
    if d[8] == 1 {
        u32_at(d, 32)
    } else {
        u32_at(d, 44)
    }
}

/// No field of `cs` shares a byte with `[lo, hi)`.
pub open spec fn clear_of(cs: Seq<StrCell>, lo: int, hi: int) -> bool {
    forall|i: int| 0 <= i < cs.len() ==> (#[trigger] cs[i]).field + 4 <= lo || hi <= cs[i].field
}

/// Two buffers that agree on the header and the row index have the same
/// row index.
#[verifier::rlimit(40)]
proof fn lemma_index_same(d: Seq<u8>, out: Seq<u8>)
    requires
        index_of(d) is Ok,
        index_of(d)->Ok_0.1 <= out.len(),
        header_len(d) <= out.len(),
        forall|k: int|
            (0 <= k < header_len(d) || index_start(d) <= k < index_of(d)->Ok_0.1) ==> #[trigger] out[k]
                == d[k],
    ensures
        index_of(out) == index_of(d),
{
    let hl = header_len(d);
    assert forall|p: int| 0 <= p && p + 4 <= hl implies u32_at(out, p) == u32_at(d, p) by {
        assert(out.subrange(p, p + 4) =~= d.subrange(p, p + 4));
    }
    assert(out[8] == d[8] && out[9] == d[9]);
    let two = d[8] == 2;
    let start = index_start(d);
    let count = if two {
        u32_at(d, 48)
    } else {
        u32_at(d, 36)
    };
    assert(index_start(out) == start);
    let iend = index_of(d)->Ok_0.1;
    assert(iend == start + stride(two, count));
    assert forall|p: int| start <= p && p + 4 <= iend implies u32_at(out, p) == u32_at(d, p) by {
        assert(out.subrange(p, p + 4) =~= d.subrange(p, p + 4));
    }
    if count > 0 {
        assert forall|i: int| 0 <= i < count implies row_info_at(out, start + stride(two, i), two)
            == row_info_at(d, start + stride(two, i), two) by {
            let p = start + stride(two, i);
            assert(stride(two, i) + stride(two, 1) <= stride(two, count));
            assert(u32_at(out, p) == u32_at(d, p));
            assert(u32_at(out, p + 4) == u32_at(d, p + 4));
            assert(u32_at(out, p + stride(two, 1) - 4) == u32_at(d, p + stride(two, 1) - 4));
        }
        assert(row_index_at(out, start, count, two)->Ok_0 =~= row_index_at(d, start, count, two)->Ok_0);
    } else {
        assert(row_index_at(out, start, count, two)->Ok_0 =~= row_index_at(d, start, count, two)->Ok_0);
    }
}

/// Reading the rewritten table gives each string under its key, with the
/// replacement text where its key has one and its text before where not
/// (where no replacement holds a zero byte, the output is shorter than 2^31
/// bytes, the header and the row index lie before the new pool and share no
/// byte with a string cell's field, every cell of every row lies before the
/// pool, and no two string cells share field bytes).
#[verifier::rlimit(40)]
pub proof fn lemma_rewrite_reads_back(
    d: Seq<u8>,
    tables: Seq<TableColumns>,
    name: Seq<char>,
    ov: Map<Seq<char>, Seq<char>>,
    cells: Seq<Cell>,
    infos: Seq<RowInfo>,
    index_end: int,
    rows: Seq<Seq<(int, Seq<char>)>>,
    out: Seq<u8>,
)
    requires
        decoded(d, tables, name, cells, infos, index_end, rows),
        rewritten(d, tables, name, ov) == Ok::<Seq<u8>, NxdError>(out),
        header_len(d) <= text_area_start(cells, infos, index_end),
        clear_of(cells_to_rewrite(name, cells, ov, infos, rows), 0, header_len(d)),
        clear_of(cells_to_rewrite(name, cells, ov, infos, rows), index_start(d), index_end),
        rows_before(cells, infos, text_area_start(cells, infos, index_end)),
        fields_apart(cells_to_rewrite(name, cells, ov, infos, rows)),
        forall|k: Seq<char>| #[trigger] ov.contains_key(k) ==> zero_free(ov[k]),
        out.len() < 0x8000_0000,
    ensures
        table_texts(out, tables, name) == Ok::<Seq<(Seq<char>, Seq<char>)>, NxdError>(
            keyed_texts(name, overridden(name, ov, rows)),
        ),
{
    let ta = text_area_start(cells, infos, index_end);
    let cs = cells_to_rewrite(name, cells, ov, infos, rows);
    lemma_rewrite_layout(d, tables, name, ov, cells, infos, index_end, rows, out);
    lemma_texts_zero_free(d, tables, name, ov, cells, infos, index_end, rows);
    lemma_short_output(d, tables, name, ov, cells, infos, index_end, rows, out);
    lemma_rewrite_rows_decode(d, tables, name, ov, cells, infos, index_end, rows, out);
    assert forall|k: int|
        (0 <= k < header_len(d) || index_start(d) <= k < index_end) implies #[trigger] out[k]
        == d[k] by {
        assert(forall|i: int|
            0 <= i < cs.len() ==> !((#[trigger] cs[i]).field <= k < cs[i].field + 4));
    }
    lemma_index_same(d, out);
}

/// Rewriting with no replacements changes no decoded string and no byte
/// before the pool but the string cells' fields (where no two string cells
/// share field bytes and the output is shorter than 2^31 bytes).
pub proof fn lemma_round_trip(
    d: Seq<u8>,
    tables: Seq<TableColumns>,
    name: Seq<char>,
    cells: Seq<Cell>,
    infos: Seq<RowInfo>,
    index_end: int,
    rows: Seq<Seq<(int, Seq<char>)>>,
    out: Seq<u8>,
)
    requires
        decoded(d, tables, name, cells, infos, index_end, rows),
        rewritten(d, tables, name, Map::empty()) == Ok::<Seq<u8>, NxdError>(out),
        fields_apart(cells_to_rewrite(name, cells, Map::empty(), infos, rows)),
        out.len() < 0x8000_0000,
    ensures
        ({
            let ta = text_area_start(cells, infos, index_end);
            let cs = cells_to_rewrite(name, cells, Map::empty(), infos, rows);
            &&& forall|i: int|
                0 <= i < cs.len() ==> cell_at(out, cells[(#[trigger] cs[i]).col], cs[i].field)
                    == cell_at(d, cells[cs[i].col], cs[i].field)
            &&& forall|k: int|
                0 <= k < ta && (forall|i: int|
                    0 <= i < cs.len() ==> !((#[trigger] cs[i]).field <= k < cs[i].field + 4))
                    ==> #[trigger] out[k] == d[k]
        }),
{
    let ov = Map::<Seq<char>, Seq<char>>::empty();
    lemma_rewrite_layout(d, tables, name, ov, cells, infos, index_end, rows, out);
    lemma_texts_zero_free(d, tables, name, ov, cells, infos, index_end, rows);
    lemma_short_output(d, tables, name, ov, cells, infos, index_end, rows, out);
    lemma_rewrite_decodes(d, tables, name, ov, cells, infos, index_end, rows, out);
}

/// Every text a rewrite stores is a replacement or a text decoded from the
/// table, so none holds a zero byte where no replacement does.
proof fn lemma_texts_zero_free(
    d: Seq<u8>,
    tables: Seq<TableColumns>,
    name: Seq<char>,
    ov: Map<Seq<char>, Seq<char>>,
    cells: Seq<Cell>,
    infos: Seq<RowInfo>,
    index_end: int,
    rows: Seq<Seq<(int, Seq<char>)>>,
)
    requires
        decoded(d, tables, name, cells, infos, index_end, rows),
        forall|k: Seq<char>| #[trigger] ov.contains_key(k) ==> zero_free(ov[k]),
    ensures
        forall|i: int|
            0 <= i < cells_to_rewrite(name, cells, ov, infos, rows).len() ==> zero_free(
                (#[trigger] cells_to_rewrite(name, cells, ov, infos, rows)[i]).text,
            ),
{
    let cs = cells_to_rewrite(name, cells, ov, infos, rows);
    let n = infos.len() as int;
    lemma_rows_of_ok(d, cells, infos, n);
    lemma_str_cells_origin(name, cells, ov, infos, rows, n);
    assert forall|i: int| 0 <= i < cs.len() implies zero_free((#[trigger] cs[i]).text) by {
        let c = cs[i];
        let j = choose|j: int| cell_from(c, j, cells, ov, infos, rows);
        if !ov.contains_key(c.key) {
            assert(row_start(infos[c.row]) is Ok);
            let start = row_start(infos[c.row])->Ok_0 as int;
            assert(rows[c.row] == row_cells(d, cells, start, cells.len() as int)->Ok_0);
            lemma_row_cells_entry(d, cells, start, cells.len() as int, j);
            let p = c.field;
            let shift = match cells[c.col] {
                Cell::Str(s) => s as int,
                _ => 0,
            };
            let base = (p + 4 * shift) as u64;
            let target = base + crate::binary::i32_at(d, p);
            lemma_decoded_zero_free(d, target);
        }
    }
}

/// In an output shorter than 2^31 bytes every stored distance is below
/// 2^31 (where no two string cells share field bytes).
proof fn lemma_short_output(
    d: Seq<u8>,
    tables: Seq<TableColumns>,
    name: Seq<char>,
    ov: Map<Seq<char>, Seq<char>>,
    cells: Seq<Cell>,
    infos: Seq<RowInfo>,
    index_end: int,
    rows: Seq<Seq<(int, Seq<char>)>>,
    out: Seq<u8>,
)
    requires
        decoded(d, tables, name, cells, infos, index_end, rows),
        rewritten(d, tables, name, ov) == Ok::<Seq<u8>, NxdError>(out),
        fields_apart(cells_to_rewrite(name, cells, ov, infos, rows)),
        out.len() < 0x8000_0000,
    ensures
        forall|i: int|
            0 <= i < cells_to_rewrite(name, cells, ov, infos, rows).len() ==> distance(
                text_area_start(cells, infos, index_end),
                final_pool(cells, cells_to_rewrite(name, cells, ov, infos, rows)),
                #[trigger] cells_to_rewrite(name, cells, ov, infos, rows)[i],
            ) < 0x8000_0000,
{
    let ta = text_area_start(cells, infos, index_end);
    let cs = cells_to_rewrite(name, cells, ov, infos, rows);
    let pool = final_pool(cells, cs);
    lemma_rewrite_layout(d, tables, name, ov, cells, infos, index_end, rows, out);
    lemma_rewrite_pointers(d, tables, name, ov, cells, infos, index_end, rows, out);
    assert forall|i: int| 0 <= i < cs.len() implies distance(ta, pool, #[trigger] cs[i]) < 0x8000_0000 by {
        assert(cell_fits(ta, pool, cs[i]));
    }
}

/// Reading a table rewritten with no replacements gives what reading the
/// table gave (where the header and the row index lie before the new pool
/// and share no byte with a string cell's field, every cell of every row
/// lies before the pool, no two string cells share field bytes, and the
/// output is shorter than 2^31 bytes).
pub proof fn lemma_round_trip_reads_back(
    d: Seq<u8>,
    tables: Seq<TableColumns>,
    name: Seq<char>,
    cells: Seq<Cell>,
    infos: Seq<RowInfo>,
    index_end: int,
    rows: Seq<Seq<(int, Seq<char>)>>,
    out: Seq<u8>,
)
    requires
        decoded(d, tables, name, cells, infos, index_end, rows),
        rewritten(d, tables, name, Map::empty()) == Ok::<Seq<u8>, NxdError>(out),
        header_len(d) <= text_area_start(cells, infos, index_end),
        clear_of(cells_to_rewrite(name, cells, Map::empty(), infos, rows), 0, header_len(d)),
        clear_of(
            cells_to_rewrite(name, cells, Map::empty(), infos, rows),
            index_start(d),
            index_end,
        ),
        rows_before(cells, infos, text_area_start(cells, infos, index_end)),
        fields_apart(cells_to_rewrite(name, cells, Map::empty(), infos, rows)),
        out.len() < 0x8000_0000,
    ensures
        table_texts(out, tables, name) == table_texts(d, tables, name),
{
    let ov = Map::<Seq<char>, Seq<char>>::empty();
    lemma_texts_zero_free(d, tables, name, ov, cells, infos, index_end, rows);
    lemma_short_output(d, tables, name, ov, cells, infos, index_end, rows, out);
    lemma_rewrite_reads_back(d, tables, name, ov, cells, infos, index_end, rows, out);
    let o = overridden(name, ov, rows);
    assert forall|r: int| 0 <= r < rows.len() implies #[trigger] o[r] == rows[r] by {
        assert(o[r] =~= rows[r]);
    }
    assert(o =~= rows);
}

/// Equal keys share one pool string, distinct string cells have distinct
/// keys, and where the layout has an empty-string placeholder column the
/// pool starts with one empty string at offset 0.
pub proof fn lemma_pool_shares(
    d: Seq<u8>,
    tables: Seq<TableColumns>,
    name: Seq<char>,
    ov: Map<Seq<char>, Seq<char>>,
    cells: Seq<Cell>,
    infos: Seq<RowInfo>,
    index_end: int,
    rows: Seq<Seq<(int, Seq<char>)>>,
)
    requires
        decoded(d, tables, name, cells, infos, index_end, rows),
    ensures
        ({
            let cs = cells_to_rewrite(name, cells, ov, infos, rows);
            let init = pool_init(cells);
            let pool = final_pool(cells, cs);
            &&& forall|i: int, j: int|
                0 <= i < j < cs.len() ==> (#[trigger] cs[i]).key != (#[trigger] cs[j]).key
            &&& forall|i: int|
                0 <= i < cs.len() && pool_after(init, cs, i).offsets.contains_key(
                    (#[trigger] cs[i]).key,
                ) ==> pool_after(init, cs, i + 1) == pool_after(init, cs, i)
            &&& cells.contains(Cell::EmptyStr) ==> {
                &&& pool.offsets.contains_key(Seq::<char>::empty())
                &&& pool.offsets[Seq::<char>::empty()] == 0
                &&& pool.bytes.len() >= 1
                &&& pool.bytes[0] == 0
            }
        }),
{
    let cs = cells_to_rewrite(name, cells, ov, infos, rows);
    let init = pool_init(cells);
    let n = infos.len() as int;
    lemma_rows_of_ok(d, cells, infos, n);
    lemma_rows_columns_rise(d, cells, infos, n);
    lemma_str_cells_keys(name, cells, ov, infos, rows, n);
    if cells.contains(Cell::EmptyStr) {
        lemma_pool_keeps(init, cs, 0, cs.len() as int, Seq::<char>::empty());
        lemma_pool_prefix(init, cs, 0, cs.len() as int);
        let pool = final_pool(cells, cs);
        assert(pool.bytes.subrange(0, 1)[0] == pool.bytes[0]);
    }
}

/// The texts of the first `n` cells of `cs`, each null-terminated, one
/// after the other.
pub open spec fn stored_texts(cs: Seq<StrCell>, n: int) -> Seq<u8>
    decreases n,
{
    if n <= 0 {
        seq![]
    } else {
        stored_texts(cs, n - 1) + encode_utf8(cs[n - 1].text) + seq![0u8]
    }
}

/// Where no two cells share a key and none is new to the pool, each
/// cell's text is appended once, in order.
proof fn lemma_pool_bytes(init: Pool, cs: Seq<StrCell>, n: int)
    requires
        0 <= n <= cs.len(),
        forall|a: int, b: int| 0 <= a < b < cs.len() ==> (#[trigger] cs[a]).key != (#[trigger] cs[b]).key,
        forall|i: int| 0 <= i < cs.len() ==> !init.offsets.contains_key((#[trigger] cs[i]).key),
    ensures
        pool_after(init, cs, n).bytes == init.bytes + stored_texts(cs, n),
    decreases n,
{
    if n == 0 {
        assert(init.bytes + stored_texts(cs, 0) =~= init.bytes);
    } else {
        lemma_pool_bytes(init, cs, n - 1);
        let k = cs[n - 1].key;
        if pool_after(init, cs, n - 1).offsets.contains_key(k) {
            lemma_pool_keys(init, cs, n - 1, k);
            let j = choose|j: int| 0 <= j < n - 1 && (#[trigger] cs[j]).key == k;
            assert(cs[j].key != cs[n - 1].key);
        }
        assert(pool_after(init, cs, n).bytes =~= init.bytes + stored_texts(cs, n));
    }
}

/// The new pool is the shared empty string, where the layout has an
/// empty-string placeholder column, then the text of every string cell,
/// null-terminated, once each and in order.
#[verifier::rlimit(40)]
pub proof fn lemma_pool_layout(
    d: Seq<u8>,
    tables: Seq<TableColumns>,
    name: Seq<char>,
    ov: Map<Seq<char>, Seq<char>>,
    cells: Seq<Cell>,
    infos: Seq<RowInfo>,
    index_end: int,
    rows: Seq<Seq<(int, Seq<char>)>>,
    out: Seq<u8>,
)
    requires
        decoded(d, tables, name, cells, infos, index_end, rows),
        rewritten(d, tables, name, ov) == Ok::<Seq<u8>, NxdError>(out),
    ensures
        ({
            let ta = text_area_start(cells, infos, index_end);
            let cs = cells_to_rewrite(name, cells, ov, infos, rows);
            let pool = (if cells.contains(Cell::EmptyStr) {
                seq![0u8]
            } else {
                Seq::<u8>::empty()
            }) + stored_texts(cs, cs.len() as int);
            &&& out.len() == ta + pool.len()
            &&& out.subrange(ta, out.len() as int) == pool
        }),
{
    let cs = cells_to_rewrite(name, cells, ov, infos, rows);
    let init = pool_init(cells);
    let n = infos.len() as int;
    lemma_rewrite_layout(d, tables, name, ov, cells, infos, index_end, rows, out);
    lemma_rows_of_ok(d, cells, infos, n);
    lemma_rows_columns_rise(d, cells, infos, n);
    lemma_str_cells_keys(name, cells, ov, infos, rows, n);
    assert forall|i: int| 0 <= i < cs.len() implies !init.offsets.contains_key((#[trigger] cs[i]).key) by {
        assert(cs[i].key.len() > 0);
    }
    lemma_pool_bytes(init, cs, cs.len() as int);
}

/// A table whose magic number is wrong is refused as a bad header, on read
/// and on rewrite.
pub proof fn lemma_bad_magic(
    d: Seq<u8>,
    tables: Seq<TableColumns>,
    name: Seq<char>,
    ov: Map<Seq<char>, Seq<char>>,
)
    requires
        fits(d, 0, 4),
        u32_at(d, 0) != NXD_MAGIC,
        columns_of(tables, name) is Some,
    ensures
        table_texts(d, tables, name) == Err::<Seq<(Seq<char>, Seq<char>)>, NxdError>(
            NxdError::InvalidHeader,
        ),
        rewritten(d, tables, name, ov) == Err::<Seq<u8>, NxdError>(NxdError::InvalidHeader),
{
}

/// A rewrite whose string cell has a field reaching past the start of the
/// new pool fails as a bad header.
pub proof fn lemma_field_past_pool(
    d: Seq<u8>,
    tables: Seq<TableColumns>,
    name: Seq<char>,
    ov: Map<Seq<char>, Seq<char>>,
    cells: Seq<Cell>,
    infos: Seq<RowInfo>,
    index_end: int,
    rows: Seq<Seq<(int, Seq<char>)>>,
    i: int,
)
    requires
        decoded(d, tables, name, cells, infos, index_end, rows),
        0 <= i < cells_to_rewrite(name, cells, ov, infos, rows).len(),
        cells_to_rewrite(name, cells, ov, infos, rows)[i].field + 4 > text_area_start(
            cells,
            infos,
            index_end,
        ),
    ensures
        rewritten(d, tables, name, ov) == Err::<Seq<u8>, NxdError>(NxdError::InvalidHeader),
{
    let cs = cells_to_rewrite(name, cells, ov, infos, rows);
    let ta = text_area_start(cells, infos, index_end);
    lemma_text_area_within(d, tables, name, ov, cells, infos, index_end, rows, i);
    assert(!cell_fits(ta, final_pool(cells, cs), cs[i]));
}

/// A table with a string cell holds its whole row index and last row, so
/// the new pool starts within it.
proof fn lemma_text_area_within(
    d: Seq<u8>,
    tables: Seq<TableColumns>,
    name: Seq<char>,
    ov: Map<Seq<char>, Seq<char>>,
    cells: Seq<Cell>,
    infos: Seq<RowInfo>,
    index_end: int,
    rows: Seq<Seq<(int, Seq<char>)>>,
    i: int,
)
    requires
        decoded(d, tables, name, cells, infos, index_end, rows),
        0 <= i < cells_to_rewrite(name, cells, ov, infos, rows).len(),
    ensures
        text_area_start(cells, infos, index_end) <= d.len(),
{
    let n = infos.len() as int;
    let cs = cells_to_rewrite(name, cells, ov, infos, rows);
    lemma_rows_of_ok(d, cells, infos, n);
    lemma_str_cells_origin(name, cells, ov, infos, rows, n);
    let c = cs[i];
    let j = choose|j: int| cell_from(c, j, cells, ov, infos, rows);
    assert(row_start(infos[c.row]) is Ok);
    let st = row_start(infos[c.row])->Ok_0 as int;
    assert(rows[c.row] == row_cells(d, cells, st, cells.len() as int)->Ok_0);
    assert(cells.len() > 0);
    assert(n > 0);
    // the row index was read whole
    let two = d[8] == 2;
    let count = if two { u32_at(d, 48) } else { u32_at(d, 36) };
    assert(count == n);
    assert(index_end <= d.len());
    // the last row's last cell was read
    let last = infos[n - 1];
    assert(row_start(last) is Ok);
    let ls = row_start(last)->Ok_0 as int;
    let k = cells.len() - 1;
    assert(row_cells(d, cells, ls, cells.len() as int) is Ok);
    assert(cell_at(d, cells[k], ls + 4 * k) is Ok);
    assert(fits(d, ls + 4 * k, 4));
}

} // verus!
