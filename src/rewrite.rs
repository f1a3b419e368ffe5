//! Rewriting a table's strings: a new string pool and the pointers into it.

use vstd::prelude::*;
use vstd::hash_map::StringHashMap;
use vstd::utf8::encode_utf8;
use crate::binary::{le_bytes_of, put4, write_cstr, write_u32};
use crate::error::NxdError;
use crate::nxd::{
    create_key, index_of, key_of, lemma_key_injective, lemma_row_columns, read_all_rows, read_nxd_header, row_start, rows_of, rows_view,
    text_area_start, RowInfo,
};
use crate::schema::{Cell, TableColumns, columns_of, find_columns};

verus! {

/// Replacement texts, by key.
pub struct TextOverrides {
    map: StringHashMap<String>,
}

impl View for TextOverrides {
    type V = Map<Seq<char>, Seq<char>>;

    closed spec fn view(&self) -> Map<Seq<char>, Seq<char>> {
        self.map@.map_values(|s: String| s@)
    }
}

impl TextOverrides {
    /// No replacements.
    pub fn new() -> (r: TextOverrides)
        ensures
            r@ == Map::<Seq<char>, Seq<char>>::empty(),
    {
        let r = TextOverrides { map: StringHashMap::new() };
        assert(r@ =~= Map::<Seq<char>, Seq<char>>::empty());
        r
    }

    /// Replaces the text under `key` by `text`.
    pub fn insert(&mut self, key: String, text: String)
        ensures
            final(self)@ == old(self)@.insert(key@, text@),
    {
        self.map.insert(key, text);
        assert(self@ =~= old(self)@.insert(key@, text@));
    }

    /// The replacement text under `key`, if there is one.
    pub fn get(&self, key: &str) -> (r: Option<&String>)
        ensures
            match r {
                Some(t) => self@.contains_key(key@) && t@ == self@[key@],
                None => !self@.contains_key(key@),
            },
    {
        self.map.get(key)
    }
}

/// The text a cell gets: its replacement where `ov` has one, else `stored`.
pub open spec fn effective_text(
    ov: Map<Seq<char>, Seq<char>>,
    key: Seq<char>,
    stored: Seq<char>,
) -> Seq<char> {
    if ov.contains_key(key) {
        ov[key]
    } else {
        stored
    }
}

/// A string cell met while rewriting: its row and column, its key, the
/// position of its 4-byte field, its column's shift and the text it is to
/// get.
pub struct StrCell {
    pub row: int,
    pub col: int,
    pub key: Seq<char>,
    pub field: int,
    pub shift: int,
    pub text: Seq<char>,
}

/// The shift of a string column.
pub open spec fn shift_of(c: Cell) -> int {
    match c {
        Cell::Str(s) => s as int,
        _ => 0,
    }
}

/// The string cells of row `r`, whose data starts at `start`.
pub open spec fn row_str_cells(
    name: Seq<char>,
    cells: Seq<Cell>,
    ov: Map<Seq<char>, Seq<char>>,
    r: int,
    start: int,
    row: Seq<(int, Seq<char>)>,
) -> Seq<StrCell> {
    row.map_values(
        |e: (int, Seq<char>)|
            StrCell {
                row: r,
                col: e.0,
                key: key_of(name, r, e.0),
                field: start + 4 * e.0,
                shift: shift_of(cells[e.0]),
                text: effective_text(ov, key_of(name, r, e.0), e.1),
            },
    )
}

/// The string cells of the first `n` rows, in row then column order.
pub open spec fn str_cells(
    name: Seq<char>,
    cells: Seq<Cell>,
    ov: Map<Seq<char>, Seq<char>>,
    infos: Seq<RowInfo>,
    rows: Seq<Seq<(int, Seq<char>)>>,
    n: int,
) -> Seq<StrCell>
    decreases n,
{
    if n <= 0 {
        seq![]
    } else {
        str_cells(name, cells, ov, infos, rows, n - 1) + row_str_cells(
            name,
            cells,
            ov,
            n - 1,
            row_start(infos[n - 1])->Ok_0 as int,
            rows[n - 1],
        )
    }
}

/// A string pool being built: its bytes, and the offset of the string
/// stored for each key.
pub struct Pool {
    pub bytes: Seq<u8>,
    pub offsets: Map<Seq<char>, int>,
}

/// The pool before any cell: one empty string, for every empty-string
/// placeholder to share, where the layout has such a column.
pub open spec fn pool_init(cells: Seq<Cell>) -> Pool {
    if cells.contains(Cell::EmptyStr) {
        Pool { bytes: seq![0u8], offsets: map![Seq::<char>::empty() => 0] }
    } else {
        Pool { bytes: seq![], offsets: Map::empty() }
    }
}

/// The pool after cell `c`: its text is appended, null-terminated, unless
/// its key already has a string.
pub open spec fn pool_step(p: Pool, c: StrCell) -> Pool {
    if p.offsets.contains_key(c.key) {
        p
    } else {
        Pool {
            bytes: p.bytes + encode_utf8(c.text) + seq![0u8],
            offsets: p.offsets.insert(c.key, p.bytes.len() as int),
        }
    }
}

/// The pool after the first `n` cells of `cs`.
pub open spec fn pool_after(init: Pool, cs: Seq<StrCell>, n: int) -> Pool
    decreases n,
{
    if n <= 0 {
        init
    } else {
        pool_step(pool_after(init, cs, n - 1), cs[n - 1])
    }
}

/// The position that the stored offset of cell `c` is relative to.
pub open spec fn pointer_base(c: StrCell) -> int {
    c.field + 4 * c.shift
}

/// The offset stored for cell `c` when the pool starts at `text_area`.
pub open spec fn distance(text_area: int, pool: Pool, c: StrCell) -> int {
    text_area + pool.offsets[c.key] - pointer_base(c)
}

/// A 4-byte field at `field`, relative to `field + 4 * shift`, lies before
/// a pool that starts at `text_area`, and the offset to the string at `off`
/// in that pool can be stored in it.
pub open spec fn slot_fits(text_area: int, off: int, field: int, shift: int) -> bool {
    &&& 0 <= field
    &&& field + 4 <= text_area
    &&& text_area + off <= u64::MAX
    &&& 0 <= field + 4 * shift <= u64::MAX
    &&& 0 <= text_area + off - (field + 4 * shift) <= u32::MAX
}

/// Cell `c` lies before the pool, and its new offset can be stored.
pub open spec fn cell_fits(text_area: int, pool: Pool, c: StrCell) -> bool {
    slot_fits(text_area, pool.offsets[c.key], c.field, c.shift)
}

/// `base` with the fields of the first `n` cells of `cs` set to their new
/// offsets, in order.
pub open spec fn patched(base: Seq<u8>, text_area: int, pool: Pool, cs: Seq<StrCell>, n: int) -> Seq<
    u8,
>
    decreases n,
{
    if n <= 0 {
        base
    } else {
        put4(
            patched(base, text_area, pool, cs, n - 1),
            cs[n - 1].field,
            le_bytes_of(distance(text_area, pool, cs[n - 1])),
        )
    }
}

/// The table called `name` in `d` with its strings replaced as `ov` says,
/// or the error that rewriting it meets first.
pub open spec fn rewritten(
    d: Seq<u8>,
    tables: Seq<TableColumns>,
    name: Seq<char>,
    ov: Map<Seq<char>, Seq<char>>,
) -> Result<Seq<u8>, NxdError> {
    match columns_of(tables, name) {
        None => Err(NxdError::UnsupportedFormat),
        Some(cells) => match index_of(d) {
            Err(e) => Err(e),
            Ok((infos, index_end)) => match rows_of(d, cells, infos, infos.len() as int) {
                Err(e) => Err(e),
                Ok(rows) => {
                    let text_area = text_area_start(cells, infos, index_end);
                    if text_area > d.len() {
                        Err(NxdError::UnexpectedEof)
                    } else {
                        let cs = str_cells(name, cells, ov, infos, rows, infos.len() as int);
                        let pool = pool_after(pool_init(cells), cs, cs.len() as int);
                        if forall|i: int|
                            0 <= i < cs.len() ==> cell_fits(text_area, pool, #[trigger] cs[i]) {
                            Ok(
                                patched(d.subrange(0, text_area), text_area, pool, cs, cs.len() as int)
                                    + pool.bytes,
                            )
                        } else {
                            Err(NxdError::InvalidHeader)
                        }
                    }
                },
            },
        },
    }
}

/// `m` holds the offsets of `o`, as machine integers.
pub open spec fn offsets_match(m: Map<Seq<char>, u64>, o: Map<Seq<char>, int>) -> bool {
    &&& m.dom() == o.dom()
    &&& forall|k: Seq<char>| #[trigger] m.contains_key(k) ==> m[k] as int == o[k]
}

/// The first rows' cells come first among the cells of more rows.
proof fn lemma_str_cells_prefix(
    name: Seq<char>,
    cells: Seq<Cell>,
    ov: Map<Seq<char>, Seq<char>>,
    infos: Seq<RowInfo>,
    rows: Seq<Seq<(int, Seq<char>)>>,
    n: int,
    m: int,
)
    requires
        0 <= n <= m,
    ensures
        str_cells(name, cells, ov, infos, rows, n).len() <= str_cells(name, cells, ov, infos, rows, m).len(),
        str_cells(name, cells, ov, infos, rows, m).subrange(
            0,
            str_cells(name, cells, ov, infos, rows, n).len() as int,
        ) == str_cells(name, cells, ov, infos, rows, n),
    decreases m - n,
{
    let sn = str_cells(name, cells, ov, infos, rows, n);
    let sm = str_cells(name, cells, ov, infos, rows, m);
    if n == m {
        assert(sm.subrange(0, sn.len() as int) =~= sn);
    } else {
        lemma_str_cells_prefix(name, cells, ov, infos, rows, n, m - 1);
        let sp = str_cells(name, cells, ov, infos, rows, m - 1);
        assert(sm.subrange(0, sn.len() as int) =~= sp.subrange(0, sn.len() as int));
    }
}

/// Where the cells of row `r` stand among the cells of all rows.
pub proof fn lemma_str_cells_row(
    name: Seq<char>,
    cells: Seq<Cell>,
    ov: Map<Seq<char>, Seq<char>>,
    infos: Seq<RowInfo>,
    rows: Seq<Seq<(int, Seq<char>)>>,
    r: int,
    total: int,
)
    requires
        0 <= r < total,
    ensures
        ({
            let all = str_cells(name, cells, ov, infos, rows, total);
            let before = str_cells(name, cells, ov, infos, rows, r).len() as int;
            let here = row_str_cells(name, cells, ov, r, row_start(infos[r])->Ok_0 as int, rows[r]);
            &&& str_cells(name, cells, ov, infos, rows, r + 1).len() == before + here.len()
            &&& before + here.len() <= all.len()
            &&& all.subrange(before, before + here.len()) == here
        }),
{
    lemma_str_cells_prefix(name, cells, ov, infos, rows, r + 1, total);
    let all = str_cells(name, cells, ov, infos, rows, total);
    let before = str_cells(name, cells, ov, infos, rows, r).len() as int;
    let next = str_cells(name, cells, ov, infos, rows, r + 1);
    let here = row_str_cells(name, cells, ov, r, row_start(infos[r])->Ok_0 as int, rows[r]);
    assert(all.subrange(before, before + here.len()) =~= next.subrange(before, before + here.len()));
    assert(next.subrange(before, before + here.len()) =~= here);
}

/// The column indices of every row rise strictly and are not negative.
pub open spec fn columns_rise(rows: Seq<Seq<(int, Seq<char>)>>) -> bool {
    &&& forall|r: int, i: int| 0 <= r < rows.len() && 0 <= i < rows[r].len() ==> 0 <= (
    #[trigger] rows[r][i]).0
    &&& forall|r: int, i: int, j: int|
        0 <= r < rows.len() && 0 <= i < j < rows[r].len() ==> (#[trigger] rows[r][i]).0 < (
        #[trigger] rows[r][j]).0
}

/// Decoded rows have rising column indices.
#[verifier::rlimit(40)]
pub proof fn lemma_rows_columns_rise(d: Seq<u8>, cells: Seq<Cell>, infos: Seq<RowInfo>, n: int)
    requires
        0 <= n <= infos.len(),
        rows_of(d, cells, infos, n) is Ok,
    ensures
        columns_rise(rows_of(d, cells, infos, n)->Ok_0),
{
    lemma_rows_of_ok(d, cells, infos, n);
    let rows = rows_of(d, cells, infos, n)->Ok_0;
    assert forall|r: int, i: int| 0 <= r < rows.len() && 0 <= i < rows[r].len() implies 0 <= (
    #[trigger] rows[r][i]).0 by {
        assert(row_start(infos[r]) is Ok);
        lemma_row_columns(d, cells, infos[r]);
        let row = crate::nxd::row_of(d, cells, infos[r])->Ok_0;
        assert(row == rows[r]);
        assert(0 <= row[i].0);
    }
    assert forall|r: int, i: int, j: int|
        0 <= r < rows.len() && 0 <= i < j < rows[r].len() implies (#[trigger] rows[r][i]).0 < (
        #[trigger] rows[r][j]).0 by {
        assert(row_start(infos[r]) is Ok);
        let start = row_start(infos[r])->Ok_0 as int;
        crate::nxd::lemma_row_cells_increasing(d, cells, start, cells.len() as int);
        let row = crate::nxd::row_cells(d, cells, start, cells.len() as int)->Ok_0;
        assert(row == rows[r]);
        assert(row[i].0 < row[j].0);
    }
}

/// The string cells of distinct positions have distinct keys.
#[verifier::rlimit(40)]
pub proof fn lemma_str_cells_keys(
    name: Seq<char>,
    cells: Seq<Cell>,
    ov: Map<Seq<char>, Seq<char>>,
    infos: Seq<RowInfo>,
    rows: Seq<Seq<(int, Seq<char>)>>,
    n: int,
)
    requires
        0 <= n <= rows.len(),
        columns_rise(rows),
    ensures
        forall|i: int|
            0 <= i < str_cells(name, cells, ov, infos, rows, n).len() ==> {
                let c = #[trigger] str_cells(name, cells, ov, infos, rows, n)[i];
                &&& 0 <= c.row < n
                &&& 0 <= c.col
                &&& c.key == key_of(name, c.row, c.col)
            },
        forall|i: int, j: int|
            0 <= i < j < str_cells(name, cells, ov, infos, rows, n).len() ==> (#[trigger] str_cells(
                name,
                cells,
                ov,
                infos,
                rows,
                n,
            )[i]).key != (#[trigger] str_cells(name, cells, ov, infos, rows, n)[j]).key,
    decreases n,
{
    if n > 0 {
        lemma_str_cells_keys(name, cells, ov, infos, rows, n - 1);
        let prev = str_cells(name, cells, ov, infos, rows, n - 1);
        let all = str_cells(name, cells, ov, infos, rows, n);
        assert forall|i: int| 0 <= i < all.len() implies {
            let c = #[trigger] all[i];
            &&& 0 <= c.row < n
            &&& 0 <= c.col
            &&& c.key == key_of(name, c.row, c.col)
        } by {
            if i >= prev.len() {
                let j = i - prev.len();
                assert(0 <= rows[n - 1][j].0);
            } else {
                assert(prev[i] == all[i]);
            }
        }
        assert forall|i: int, j: int| 0 <= i < j < all.len() implies (#[trigger] all[i]).key != (
        #[trigger] all[j]).key by {
            let a = all[i];
            let b = all[j];
            if a.key == b.key {
                lemma_key_injective(name, a.row as nat, a.col as nat, b.row as nat, b.col as nat);
                if j < prev.len() {
                    assert(prev[i] == a && prev[j] == b);
                } else if i < prev.len() {
                    assert(prev[i] == a);
                } else {
                    let ii = i - prev.len();
                    let jj = j - prev.len();
                    assert(rows[n - 1][ii].0 < rows[n - 1][jj].0);
                }
            }
        }
    }
}

/// Cell `c` stands for entry `j` of its row.
pub open spec fn cell_from(
    c: StrCell,
    j: int,
    cells: Seq<Cell>,
    ov: Map<Seq<char>, Seq<char>>,
    infos: Seq<RowInfo>,
    rows: Seq<Seq<(int, Seq<char>)>>,
) -> bool {
    &&& 0 <= j < rows[c.row].len()
    &&& rows[c.row][j].0 == c.col
    &&& c.field == row_start(infos[c.row])->Ok_0 + 4 * c.col
    &&& c.shift == shift_of(cells[c.col])
    &&& c.text == effective_text(ov, c.key, rows[c.row][j].1)
}

/// Each string cell stands for an entry of its row.
#[verifier::rlimit(40)]
pub proof fn lemma_str_cells_origin(
    name: Seq<char>,
    cells: Seq<Cell>,
    ov: Map<Seq<char>, Seq<char>>,
    infos: Seq<RowInfo>,
    rows: Seq<Seq<(int, Seq<char>)>>,
    n: int,
)
    requires
        0 <= n <= rows.len(),
    ensures
        forall|i: int|
            0 <= i < str_cells(name, cells, ov, infos, rows, n).len() ==> {
                let c = #[trigger] str_cells(name, cells, ov, infos, rows, n)[i];
                &&& 0 <= c.row < n
                &&& exists|j: int| cell_from(c, j, cells, ov, infos, rows)
            },
    decreases n,
{
    if n > 0 {
        lemma_str_cells_origin(name, cells, ov, infos, rows, n - 1);
        let prev = str_cells(name, cells, ov, infos, rows, n - 1);
        let all = str_cells(name, cells, ov, infos, rows, n);
        assert forall|i: int| 0 <= i < all.len() implies {
            let c = #[trigger] all[i];
            &&& 0 <= c.row < n
            &&& exists|j: int| cell_from(c, j, cells, ov, infos, rows)
        } by {
            if i >= prev.len() {
                let j = i - prev.len();
                assert(cell_from(all[i], j, cells, ov, infos, rows));
            } else {
                assert(prev[i] == all[i]);
            }
        }
    }
}

/// A key keeps the offset of its string as the pool grows.
pub proof fn lemma_pool_keeps(init: Pool, cs: Seq<StrCell>, n: int, m: int, key: Seq<char>)
    requires
        0 <= n <= m,
        pool_after(init, cs, n).offsets.contains_key(key),
    ensures
        pool_after(init, cs, m).offsets.contains_key(key),
        pool_after(init, cs, m).offsets[key] == pool_after(init, cs, n).offsets[key],
    decreases m - n,
{
    if n < m {
        lemma_pool_keeps(init, cs, n, m - 1, key);
    }
}

/// Decoded rows come one per index entry, each from its own row data.
pub proof fn lemma_rows_of_ok(d: Seq<u8>, cells: Seq<Cell>, infos: Seq<RowInfo>, n: int)
    requires
        0 <= n,
        rows_of(d, cells, infos, n) is Ok,
    ensures
        rows_of(d, cells, infos, n)->Ok_0.len() == n,
        forall|r: int|
            0 <= r < n ==> row_start(#[trigger] infos[r]) is Ok && crate::nxd::row_of(d, cells, infos[r])
                == Ok::<Seq<(int, Seq<char>)>, NxdError>(rows_of(d, cells, infos, n)->Ok_0[r]),
    decreases n,
{
    if n > 0 {
        lemma_rows_of_ok(d, cells, infos, n - 1);
    }
}

/// Stores the text of cell `c` in the pool unless its key has one already;
/// gives the offset of the key's string.
fn intern_text(
    pool: &mut Vec<u8>,
    offsets: &mut StringHashMap<u64>,
    key: String,
    text: &str,
    Ghost(p): Ghost<Pool>,
    Ghost(c): Ghost<StrCell>,
) -> (off: u64)
    requires
        old(pool)@ == p.bytes,
        offsets_match(old(offsets)@, p.offsets),
        c.key == key@,
        c.text == text@,
    ensures
        final(pool)@ == pool_step(p, c).bytes,
        offsets_match(final(offsets)@, pool_step(p, c).offsets),
        pool_step(p, c).offsets.contains_key(c.key),
        off as int == pool_step(p, c).offsets[c.key],
{
    match offsets.get(key.as_str()) {
        Some(o) => *o,
        None => {
            let pos = pool.len() as u64;
            write_cstr(text, pool);
            offsets.insert(key, pos);
            let ghost q = pool_step(p, c);
            assert(offsets@.dom() =~= q.offsets.dom());
            pos
        },
    }
}

/// Sets the 4-byte field at `field` to the offset of the pool string at
/// `off`, where the pool starts at `text_area` and the stored offset is
/// relative to `field + 4 * shift`.
fn patch_field(out: &mut Vec<u8>, text_area: u64, off: u64, field: u64, shift: i32) -> (r: Result<
    (),
    NxdError,
>)
    requires
        old(out)@.len() == text_area,
    ensures
        match r {
            Ok(()) => {
                &&& slot_fits(text_area as int, off as int, field as int, shift as int)
                &&& final(out)@ == put4(
                    old(out)@,
                    field as int,
                    le_bytes_of(text_area + off - (field + 4 * shift)),
                )
            },
            Err(e) => {
                &&& !slot_fits(text_area as int, off as int, field as int, shift as int)
                &&& e == NxdError::InvalidHeader
            },
        },
{
    let _len = out.len();
    if field > text_area || text_area - field < 4 {
        return Err(NxdError::InvalidHeader);
    }
    if off > u64::MAX - text_area {
        return Err(NxdError::InvalidHeader);
    }
    let target = text_area + off;
    let base = crate::nxd::safe_pos_add(field, (shift as i64) * 4)?;
    if target < base || target - base > u32::MAX as u64 {
        return Err(NxdError::InvalidHeader);
    }
    let dist = (target - base) as u32;
    write_u32(dist, out, field as usize);
    Ok(())
}

/// The rewrite has handled the first `k` string cells `cs`: the fields of
/// those cells are set in `out`, and `pool` and `offsets` hold their strings.
pub open spec fn handled(
    out: Seq<u8>,
    pool: Seq<u8>,
    offsets: Map<Seq<char>, u64>,
    base: Seq<u8>,
    text_area: int,
    init: Pool,
    cs: Seq<StrCell>,
    k: int,
) -> bool {
    let fin = pool_after(init, cs, cs.len() as int);
    &&& 0 <= k <= cs.len()
    &&& base.len() == text_area
    &&& out.len() == text_area
    &&& out == patched(base, text_area, fin, cs, k)
    &&& pool == pool_after(init, cs, k).bytes
    &&& offsets_match(offsets, pool_after(init, cs, k).offsets)
    &&& forall|i: int| 0 <= i < k ==> cell_fits(text_area, fin, #[trigger] cs[i])
}

/// Rewrites the string cells of row `r`, whose data starts at `start`; they
/// are `cs[k0]` on.
#[verifier::rlimit(40)]
fn rewrite_row(
    out: &mut Vec<u8>,
    pool: &mut Vec<u8>,
    offsets: &mut StringHashMap<u64>,
    tablename: &str,
    row_definition: &Vec<Cell>,
    text_overrides: &TextOverrides,
    text_area: u64,
    r: usize,
    start: u64,
    row: &Vec<(usize, String)>,
    Ghost(base): Ghost<Seq<u8>>,
    Ghost(init): Ghost<Pool>,
    Ghost(cs): Ghost<Seq<StrCell>>,
    Ghost(k0): Ghost<int>,
) -> (res: Result<(), NxdError>)
    requires
        handled(old(out)@, old(pool)@, old(offsets)@, base, text_area as int, init, cs, k0),
        0 <= k0,
        k0 + row@.len() <= cs.len(),
        cs.subrange(k0, k0 + row@.len()) == row_str_cells(
            tablename@,
            row_definition@,
            text_overrides@,
            r as int,
            start as int,
            crate::nxd::cells_view(row@),
        ),
        forall|j: int| 0 <= j < row@.len() ==> (#[trigger] row@[j]).0 < row_definition@.len(),
    ensures
        match res {
            Ok(()) => handled(
                final(out)@,
                final(pool)@,
                final(offsets)@,
                base,
                text_area as int,
                init,
                cs,
                k0 + row@.len(),
            ),
            Err(e) => {
                &&& e == NxdError::InvalidHeader
                &&& exists|i: int|
                    0 <= i < cs.len() && !cell_fits(
                        text_area as int,
                        pool_after(init, cs, cs.len() as int),
                        #[trigger] cs[i],
                    )
            },
        },
{
    let ghost fin = pool_after(init, cs, cs.len() as int);
    let ghost here = row_str_cells(
        tablename@,
        row_definition@,
        text_overrides@,
        r as int,
        start as int,
        crate::nxd::cells_view(row@),
    );
    let mut j: usize = 0;
    while j < row.len()
        invariant
            0 <= j <= row@.len(),
            0 <= k0,
            k0 + row@.len() <= cs.len(),
            fin == pool_after(init, cs, cs.len() as int),
            cs.subrange(k0, k0 + row@.len()) == here,
            here == row_str_cells(
                tablename@,
                row_definition@,
                text_overrides@,
                r as int,
                start as int,
                crate::nxd::cells_view(row@),
            ),
            forall|j: int| 0 <= j < row@.len() ==> (#[trigger] row@[j]).0 < row_definition@.len(),
            handled(out@, pool@, offsets@, base, text_area as int, init, cs, k0 + j),
        decreases row@.len() - j,
    {
        let ghost k = k0 + j;
        assert(cs.subrange(k0, k0 + row@.len())[j as int] == cs[k]);
        assert(cs[k] == here[j as int]);
        let col = row[j].0;
        let shift = match row_definition[col] {
            Cell::Str(s) => s,
            _ => 0,
        };
        let key = create_key(tablename, r, col);
        let text = match text_overrides.get(key.as_str()) {
            Some(t) => t,
            None => &row[j].1,
        };
        let off = intern_text(pool, offsets, key, text.as_str(), Ghost(pool_after(init, cs, k)), Ghost(cs[k]));
        proof {
            lemma_pool_keeps(init, cs, k + 1, cs.len() as int, cs[k].key);
        }
        if col as u64 > (u64::MAX - start) / 4 {
            assert(!cell_fits(text_area as int, fin, cs[k]));
            return Err(NxdError::InvalidHeader);
        }
        let field = start + 4 * (col as u64);
        match patch_field(out, text_area, off, field, shift) {
            Ok(()) => {},
            Err(e) => {
                assert(!cell_fits(text_area as int, fin, cs[k]));
                return Err(e);
            },
        }
        j = j + 1;
    }
    Ok(())
}

/// Rewrites the string cells of every row; `rows` are the decoded rows of
/// the index `rowinfos`, and `cs` their string cells.
#[verifier::rlimit(40)]
fn rewrite_rows(
    out: &mut Vec<u8>,
    pool: &mut Vec<u8>,
    offsets: &mut StringHashMap<u64>,
    tablename: &str,
    row_definition: &Vec<Cell>,
    text_overrides: &TextOverrides,
    text_area: u64,
    rowinfos: &Vec<RowInfo>,
    rows: &Vec<Vec<(usize, String)>>,
    Ghost(base): Ghost<Seq<u8>>,
    Ghost(init): Ghost<Pool>,
    Ghost(cs): Ghost<Seq<StrCell>>,
) -> (res: Result<(), NxdError>)
    requires
        rows@.len() == rowinfos@.len(),
        forall|i: int|
            0 <= i < rowinfos@.len() ==> row_start(#[trigger] rowinfos@[i]) is Ok && (forall|j: int|
                0 <= j < rows@[i]@.len() ==> (#[trigger] rows@[i]@[j]).0 < row_definition@.len()),
        cs == str_cells(
            tablename@,
            row_definition@,
            text_overrides@,
            rowinfos@,
            rows_view(rows@),
            rowinfos@.len() as int,
        ),
        handled(old(out)@, old(pool)@, old(offsets)@, base, text_area as int, init, cs, 0),
    ensures
        match res {
            Ok(()) => handled(
                final(out)@,
                final(pool)@,
                final(offsets)@,
                base,
                text_area as int,
                init,
                cs,
                cs.len() as int,
            ),
            Err(e) => {
                &&& e == NxdError::InvalidHeader
                &&& exists|i: int|
                    0 <= i < cs.len() && !cell_fits(
                        text_area as int,
                        pool_after(init, cs, cs.len() as int),
                        #[trigger] cs[i],
                    )
            },
        },
{
    let ghost dv = rows_view(rows@);
    let ghost n = rowinfos@.len() as int;
    let ghost mut k: int = 0;
    let mut r: usize = 0;
    while r < rows.len()
        invariant
            0 <= r <= rows@.len(),
            rows@.len() == rowinfos@.len(),
            n == rowinfos@.len(),
            dv == rows_view(rows@),
            forall|i: int|
                0 <= i < n ==> row_start(#[trigger] rowinfos@[i]) is Ok && (forall|j: int|
                    0 <= j < rows@[i]@.len() ==> (#[trigger] rows@[i]@[j]).0 < row_definition@.len()),
            cs == str_cells(tablename@, row_definition@, text_overrides@, rowinfos@, dv, n),
            k == str_cells(tablename@, row_definition@, text_overrides@, rowinfos@, dv, r as int).len(),
            handled(out@, pool@, offsets@, base, text_area as int, init, cs, k),
        decreases rows@.len() - r,
    {
        let start = match rowinfos[r].rowdata_pos.abs_target_from(rowinfos[r].self_pos) {
            Ok(s) => s,
            Err(e) => {
                assert(row_start(rowinfos@[r as int]) is Ok);
                return Err(e);
            },
        };
        proof {
            lemma_str_cells_row(tablename@, row_definition@, text_overrides@, rowinfos@, dv, r as int, n);
            assert(dv[r as int] == crate::nxd::cells_view(rows@[r as int]@));
        }
        rewrite_row(
            out,
            pool,
            offsets,
            tablename,
            row_definition,
            text_overrides,
            text_area,
            r,
            start,
            &rows[r],
            Ghost(base),
            Ghost(init),
            Ghost(cs),
            Ghost(k),
        )?;
        proof {
            k = k + rows@[r as int]@.len();
        }
        r = r + 1;
    }
    Ok(())
}

/// Whether the layout has an empty-string placeholder column.
fn has_empty_str(row_definition: &Vec<Cell>) -> (r: bool)
    ensures
        r == row_definition@.contains(Cell::EmptyStr),
{
    let mut i: usize = 0;
    while i < row_definition.len()
        invariant
            0 <= i <= row_definition@.len(),
            forall|j: int| 0 <= j < i ==> row_definition@[j] != Cell::EmptyStr,
        decreases row_definition@.len() - i,
    {
        if row_definition[i] == Cell::EmptyStr {
            return true;
        }
        i = i + 1;
    }
    false
}

/// The pool before any cell, and the offsets of its strings.
fn new_pool(row_definition: &Vec<Cell>) -> (r: (Vec<u8>, StringHashMap<u64>))
    ensures
        r.0@ == pool_init(row_definition@).bytes,
        offsets_match(r.1@, pool_init(row_definition@).offsets),
{
    let ghost init = pool_init(row_definition@);
    let mut pool: Vec<u8> = Vec::new();
    let mut offsets: StringHashMap<u64> = StringHashMap::new();
    if has_empty_str(row_definition) {
        proof {
            reveal_strlit("");
        }
        assert(""@ =~= Seq::<char>::empty());
        write_cstr("", &mut pool);
        offsets.insert(String::new(), 0);
        assert(encode_utf8(Seq::<char>::empty()) =~= seq![]);
        assert(pool@ =~= seq![0u8]);
        assert(offsets@.dom() =~= init.offsets.dom());
    } else {
        assert(pool@ =~= seq![]);
        assert(offsets@.dom() =~= init.offsets.dom());
    }
    (pool, offsets)
}

/// Appends `tail` to `out`.
fn append_bytes(out: &mut Vec<u8>, tail: &Vec<u8>)
    ensures
        final(out)@ == old(out)@ + tail@,
{
    let mut i: usize = 0;
    while i < tail.len()
        invariant
            0 <= i <= tail@.len(),
            out@ == old(out)@ + tail@.subrange(0, i as int),
        decreases tail@.len() - i,
    {
        out.push(tail[i]);
        i = i + 1;
        assert(out@ =~= old(out)@ + tail@.subrange(0, i as int));
    }
    assert(tail@.subrange(0, tail@.len() as int) =~= tail@);
}

/// Rewrites the table called `tablename`, stored in `data`, with `tables`
/// giving the column layouts: every string cell gets the text that
/// `text_overrides` holds under its key, or else its own; the strings go to
/// a new pool after the row data, a key's string stored once, and each
/// string cell's field is set to the offset of its string.
#[verifier::rlimit(40)]
pub fn update_rows(
    data: &[u8],
    tablename: &str,
    tables: &[TableColumns],
    text_overrides: &TextOverrides,
) -> (r: Result<Vec<u8>, NxdError>)
    ensures
        match r {
            Ok(out) => rewritten(data@, tables@, tablename@, text_overrides@) == Ok::<
                Seq<u8>,
                NxdError,
            >(out@),
            Err(e) => rewritten(data@, tables@, tablename@, text_overrides@) == Err::<
                Seq<u8>,
                NxdError,
            >(e),
        },
{
    let row_definition = match find_columns(tables, tablename) {
        Some(c) => c,
        None => {
            return Err(NxdError::UnsupportedFormat);
        },
    };
    let (rowinfos, index_end) = read_nxd_header(data)?;
    let (rows, text_area) = read_all_rows(data, row_definition.as_slice(), &rowinfos, index_end)?;
    if text_area > data.len() as u64 {
        return Err(NxdError::UnexpectedEof);
    }
    let mut out = vstd::slice::slice_to_vec(
        vstd::slice::slice_subrange(data, 0, text_area as usize),
    );
    let ghost base = out@;
    let ghost init = pool_init(row_definition@);
    let (mut pool, mut offsets) = new_pool(row_definition);
    let ghost dv = rows_view(rows@);
    let ghost n = rowinfos@.len() as int;
    let ghost cs = str_cells(tablename@, row_definition@, text_overrides@, rowinfos@, dv, n);
    proof {
        lemma_rows_of_ok(data@, row_definition@, rowinfos@, n);
        assert forall|i: int| 0 <= i < n implies row_start(#[trigger] rowinfos@[i]) is Ok && (forall|j: int|
            0 <= j < rows@[i]@.len() ==> (#[trigger] rows@[i]@[j]).0 < row_definition@.len()) by {
            lemma_row_columns(data@, row_definition@, rowinfos@[i]);
            assert forall|j: int| 0 <= j < rows@[i]@.len() implies (
            #[trigger] rows@[i]@[j]).0 < row_definition@.len() by {
                assert(dv[i][j].0 == rows@[i]@[j].0 as int);
            }
        }
    }
    rewrite_rows(
        &mut out,
        &mut pool,
        &mut offsets,
        tablename,
        row_definition,
        text_overrides,
        text_area,
        &rowinfos,
        &rows,
        Ghost(base),
        Ghost(init),
        Ghost(cs),
    )?;
    append_bytes(&mut out, &pool);
    Ok(out)
}

} // verus!
