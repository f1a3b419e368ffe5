//! The NXD table layout: header, row index, rows and their string cells.

use vstd::prelude::*;
use vstd::string::StringExecFns;
use crate::binary::{cstr_at, fits, i32_at, read_cstr_at, read_i32, read_u32, u32_at};
use crate::error::NxdError;
use crate::schema::{Cell, TableColumns, columns_of, find_columns};

verus! {

/// "NXDF" read as a little-endian 32-bit integer.
pub const NXD_MAGIC: u32 = 0x4644_584e;

/// The one format version that is understood.
pub const NXD_FORMAT: u32 = 1;

/// `base + delta` as a position, or an error where that leaves `u64`.
pub open spec fn pos_add(base: int, delta: int) -> Result<u64, NxdError> {
    if 0 <= base + delta <= u64::MAX {
        Ok((base + delta) as u64)
    } else {
        Err(NxdError::InvalidHeader)
    }
}

/// Adds a signed displacement to a position, failing instead of wrapping.
pub fn safe_pos_add(base: u64, delta: i64) -> (r: Result<u64, NxdError>)
    ensures
        r == pos_add(base as int, delta as int),
{
    if delta < 0 {
        let back: u64 = (-(delta + 1)) as u64 + 1;
        if back > base {
            Err(NxdError::InvalidHeader)
        } else {
            Ok(base - back)
        }
    } else {
        let fwd: u64 = delta as u64;
        if fwd > u64::MAX - base {
            Err(NxdError::InvalidHeader)
        } else {
            Ok(base + fwd)
        }
    }
}

/// A stored relative offset, with the position it was read from.
#[derive(Clone, Copy, Debug, PartialEq, Eq, Structural)]
pub struct Pointer {
    pub self_pos: u64,
    pub rel_offset: i32,
}

/// The pointer stored at `pos`.
pub open spec fn pointer_at(d: Seq<u8>, pos: int) -> Pointer {
    Pointer { self_pos: pos as u64, rel_offset: i32_at(d, pos) as i32 }
}

impl Pointer {
    /// Reads the pointer stored at `pos`.
    pub fn read(data: &[u8], pos: u64) -> (r: Result<Pointer, NxdError>)
        ensures
            match r {
                Ok(p) => fits(data@, pos as int, 4) && p == pointer_at(data@, pos as int),
                Err(e) => !fits(data@, pos as int, 4) && e == NxdError::UnexpectedEof,
            },
    {
        let rel_offset = read_i32(data, pos)?;
        Ok(Pointer { self_pos: pos, rel_offset })
    }

    /// The absolute position that the offset designates from `base`.
    pub fn abs_target_from(&self, base: u64) -> (r: Result<u64, NxdError>)
        ensures
            r == pos_add(base as int, self.rel_offset as int),
    {
        safe_pos_add(base, self.rel_offset as i64)
    }
}

/// One entry of the row index.
#[derive(Clone, Copy, Debug, PartialEq, Eq, Structural)]
pub struct RowInfo {
    pub self_pos: u64,
    pub row_key1: u32,
    pub row_key2: Option<u32>,
    pub rowdata_pos: Pointer,
}

/// Bytes taken by `i` row index entries with one or two keys.
pub open spec fn stride(two_keys: bool, i: int) -> int {
    if two_keys {
        12 * i
    } else {
        8 * i
    }
}

/// The row index entry stored at `pos`.
pub open spec fn row_info_at(d: Seq<u8>, pos: int, two_keys: bool) -> RowInfo {
    RowInfo {
        self_pos: pos as u64,
        row_key1: u32_at(d, pos) as u32,
        row_key2: if two_keys {
            Some(u32_at(d, pos + 4) as u32)
        } else {
            None
        },
        rowdata_pos: pointer_at(d, pos + stride(two_keys, 1) - 4),
    }
}

/// The `count` row index entries stored from `start` on.
pub open spec fn row_index_at(d: Seq<u8>, start: int, count: int, two_keys: bool) -> Result<
    Seq<RowInfo>,
    NxdError,
> {
    if count == 0 || fits(d, start, stride(two_keys, count)) {
        Ok(Seq::new(count as nat, |i: int| row_info_at(d, start + stride(two_keys, i), two_keys)))
    } else {
        Err(NxdError::UnexpectedEof)
    }
}

/// The row index of a single-key table and the position just past it.
pub open spec fn key1_index(d: Seq<u8>) -> Result<(Seq<RowInfo>, int), NxdError> {
    if !fits(d, 32, 8) {
        Err(NxdError::UnexpectedEof)
    } else {
        let start = u32_at(d, 32);
        let count = u32_at(d, 36);
        match row_index_at(d, start, count, false) {
            Ok(rows) => Ok((rows, start + stride(false, count))),
            Err(e) => Err(e),
        }
    }
}

/// The row index of a double-key table and the position just past it.
pub open spec fn key2_index(d: Seq<u8>) -> Result<(Seq<RowInfo>, int), NxdError> {
    if !fits(d, 32, 20) {
        Err(NxdError::UnexpectedEof)
    } else {
        let start = u32_at(d, 44);
        let count = u32_at(d, 48);
        match row_index_at(d, start, count, true) {
            Ok(rows) => Ok((rows, start + stride(true, count))),
            Err(e) => Err(e),
        }
    }
}

/// The header checks and the row index of a table, with the position just
/// past the index.
pub open spec fn index_of(d: Seq<u8>) -> Result<(Seq<RowInfo>, int), NxdError> {
    if !fits(d, 0, 4) {
        Err(NxdError::UnexpectedEof)
    } else if u32_at(d, 0) != NXD_MAGIC {
        Err(NxdError::InvalidHeader)
    } else if !fits(d, 4, 4) {
        Err(NxdError::UnexpectedEof)
    } else if u32_at(d, 4) != NXD_FORMAT {
        Err(NxdError::InvalidHeader)
    } else if !fits(d, 8, 4) {
        Err(NxdError::UnexpectedEof)
    } else if d[8] == 1 {
        if d[9] != 1 && d[9] != 2 {
            Err(NxdError::InvalidHeader)
        } else {
            key1_index(d)
        }
    } else if d[8] == 2 {
        if d[9] != 3 && d[9] != 4 {
            Err(NxdError::InvalidHeader)
        } else {
            key2_index(d)
        }
    } else {
        Err(NxdError::UnsupportedFormat)
    }
}

impl RowInfo {
    /// Reads a single-key row index entry at `pos`.
    pub fn read_1key(data: &[u8], pos: u64) -> (r: Result<RowInfo, NxdError>)
        ensures
            match r {
                Ok(ri) => fits(data@, pos as int, 8) && ri == row_info_at(data@, pos as int, false),
                Err(e) => !fits(data@, pos as int, 8) && e == NxdError::UnexpectedEof,
            },
    {
        let _len = data.len();
        let row_key1 = read_u32(data, pos)?;
        let rowdata_pos = Pointer::read(data, pos + 4)?;
        Ok(RowInfo { self_pos: pos, row_key1, row_key2: None, rowdata_pos })
    }

    /// Reads a double-key row index entry at `pos`.
    pub fn read_2key(data: &[u8], pos: u64) -> (r: Result<RowInfo, NxdError>)
        ensures
            match r {
                Ok(ri) => fits(data@, pos as int, 12) && ri == row_info_at(data@, pos as int, true),
                Err(e) => !fits(data@, pos as int, 12) && e == NxdError::UnexpectedEof,
            },
    {
        let _len = data.len();
        let row_key1 = read_u32(data, pos)?;
        let row_key2 = read_u32(data, pos + 4)?;
        let rowdata_pos = Pointer::read(data, pos + 8)?;
        Ok(RowInfo { self_pos: pos, row_key1, row_key2: Some(row_key2), rowdata_pos })
    }
}

/// Reads `count` row index entries from `start` on.
fn read_rowinfos(data: &[u8], start: u64, count: u32, two_keys: bool) -> (r: Result<
    Vec<RowInfo>,
    NxdError,
>)
    requires
        start <= u32::MAX,
    ensures
        match r {
            Ok(v) => row_index_at(data@, start as int, count as int, two_keys) == Ok::<
                Seq<RowInfo>,
                NxdError,
            >(v@),
            Err(e) => row_index_at(data@, start as int, count as int, two_keys) == Err::<
                Seq<RowInfo>,
                NxdError,
            >(e),
        },
{
    let width: u64 = if two_keys { 12 } else { 8 };
    let mut rows: Vec<RowInfo> = Vec::new();
    let mut i: u32 = 0;
    while i < count
        invariant
            0 <= i <= count,
            start <= u32::MAX,
            width == stride(two_keys, 1),
            i == 0 || fits(data@, start as int, stride(two_keys, i as int)),
            rows@ =~= Seq::new(
                i as nat,
                |k: int| row_info_at(data@, start + stride(two_keys, k), two_keys),
            ),
        decreases count - i,
    {
        let pos = start + width * (i as u64);
        let entry = if two_keys {
            RowInfo::read_2key(data, pos)
        } else {
            RowInfo::read_1key(data, pos)
        };
        match entry {
            Ok(ri) => {
                rows.push(ri);
                i = i + 1;
            },
            Err(e) => {
                assert(!fits(data@, start as int, stride(two_keys, count as int)));
                return Err(e);
            },
        }
    }
    Ok(rows)
}

/// Reads the row index of a single-key table; also gives the position just
/// past it.
fn read_key1_rowinfos(data: &[u8]) -> (r: Result<(Vec<RowInfo>, u64), NxdError>)
    ensures
        match r {
            Ok((v, end)) => key1_index(data@) == Ok::<(Seq<RowInfo>, int), NxdError>(
                (v@, end as int),
            ),
            Err(e) => key1_index(data@) == Err::<(Seq<RowInfo>, int), NxdError>(e),
        },
{
    let start = read_u32(data, 32)?;
    let count = read_u32(data, 36)?;
    let rows = read_rowinfos(data, start as u64, count, false)?;
    Ok((rows, start as u64 + 8 * (count as u64)))
}

/// Reads the row index of a double-key table, past the set information that
/// precedes it; also gives the position just past it.
fn read_key2_rowinfos(data: &[u8]) -> (r: Result<(Vec<RowInfo>, u64), NxdError>)
    ensures
        match r {
            Ok((v, end)) => key2_index(data@) == Ok::<(Seq<RowInfo>, int), NxdError>(
                (v@, end as int),
            ),
            Err(e) => key2_index(data@) == Err::<(Seq<RowInfo>, int), NxdError>(e),
        },
{
    let _setinfo_pos = Pointer::read(data, 32)?;
    let _setinfo_count = read_u32(data, 36)?;
    let _blank = read_u32(data, 40)?;
    let start = read_u32(data, 44)?;
    let count = read_u32(data, 48)?;
    let rows = read_rowinfos(data, start as u64, count, true)?;
    Ok((rows, start as u64 + 12 * (count as u64)))
}

/// Checks the header and reads the row index; also gives the position just
/// past the index.
pub fn read_nxd_header(data: &[u8]) -> (r: Result<(Vec<RowInfo>, u64), NxdError>)
    ensures
        match r {
            Ok((v, end)) => index_of(data@) == Ok::<(Seq<RowInfo>, int), NxdError>(
                (v@, end as int),
            ),
            Err(e) => index_of(data@) == Err::<(Seq<RowInfo>, int), NxdError>(e),
        },
{
    let magic = read_u32(data, 0)?;
    if magic != NXD_MAGIC {
        return Err(NxdError::InvalidHeader);
    }
    let format = read_u32(data, 4)?;
    if format != NXD_FORMAT {
        return Err(NxdError::InvalidHeader);
    }
    if data.len() < 12 {
        return Err(NxdError::UnexpectedEof);
    }
    let table_rowtype = data[8];
    let table_localization = data[9];
    let _uses_base_rowid = data[10];
    let _blank = data[11];
    if table_rowtype == 1 {
        if table_localization != 1 && table_localization != 2 {
            return Err(NxdError::InvalidHeader);
        }
        read_key1_rowinfos(data)
    } else if table_rowtype == 2 {
        if table_localization != 3 && table_localization != 4 {
            return Err(NxdError::InvalidHeader);
        }
        read_key2_rowinfos(data)
    } else {
        Err(NxdError::UnsupportedFormat)
    }
}

/// The text of a cell of type `cell` whose field is at `pos`; `None` for
/// cells that hold no string.
pub open spec fn cell_at(d: Seq<u8>, cell: Cell, pos: int) -> Result<Option<Seq<char>>, NxdError> {
    if !fits(d, pos, 4) {
        Err(NxdError::UnexpectedEof)
    } else {
        match cell {
            Cell::Str(shift) => match pos_add(pos, 4 * shift) {
                Err(e) => Err(e),
                Ok(base) => match pos_add(base as int, i32_at(d, pos)) {
                    Err(e) => Err(e),
                    Ok(target) => match cstr_at(d, target as int) {
                        Ok(s) => Ok(Some(s)),
                        Err(e) => Err(e),
                    },
                },
            },
            _ => Ok(None),
        }
    }
}

/// The strings of the first `n` cells of a row whose data starts at `start`,
/// each with its column index.
pub open spec fn row_cells(d: Seq<u8>, cells: Seq<Cell>, start: int, n: int) -> Result<
    Seq<(int, Seq<char>)>,
    NxdError,
>
    decreases n,
{
    if n <= 0 {
        Ok(seq![])
    } else {
        match row_cells(d, cells, start, n - 1) {
            Err(e) => Err(e),
            Ok(acc) => match cell_at(d, cells[n - 1], start + 4 * (n - 1)) {
                Err(e) => Err(e),
                Ok(None) => Ok(acc),
                Ok(Some(t)) => Ok(acc.push((n - 1, t))),
            },
        }
    }
}

/// Where the data of the row with index entry `ri` starts.
pub open spec fn row_start(ri: RowInfo) -> Result<u64, NxdError> {
    pos_add(ri.self_pos as int, ri.rowdata_pos.rel_offset as int)
}

/// A failing cell fails every longer prefix of its row.
proof fn lemma_row_cells_err(d: Seq<u8>, cells: Seq<Cell>, start: int, n: int, m: int)
    requires
        0 <= n <= m,
        row_cells(d, cells, start, n) is Err,
    ensures
        row_cells(d, cells, start, m) == row_cells(d, cells, start, n),
    decreases m - n,
{
    if n < m {
        lemma_row_cells_err(d, cells, start, n, m - 1);
    }
}

/// The column indices of a decoded row prefix are below its length.
proof fn lemma_row_cells_columns(d: Seq<u8>, cells: Seq<Cell>, start: int, n: int)
    requires
        row_cells(d, cells, start, n) is Ok,
    ensures
        forall|j: int|
            0 <= j < row_cells(d, cells, start, n)->Ok_0.len() ==> 0 <= (
            #[trigger] row_cells(d, cells, start, n)->Ok_0[j]).0 < n,
    decreases n,
{
    if n > 0 {
        lemma_row_cells_columns(d, cells, start, n - 1);
    }
}

/// Each string of a decoded row prefix is what its own cell decodes to.
pub proof fn lemma_row_cells_entry(d: Seq<u8>, cells: Seq<Cell>, start: int, n: int, j: int)
    requires
        row_cells(d, cells, start, n) is Ok,
        0 <= j < row_cells(d, cells, start, n)->Ok_0.len(),
    ensures
        ({
            let e = row_cells(d, cells, start, n)->Ok_0[j];
            &&& 0 <= e.0 < n
            &&& cell_at(d, cells[e.0], start + 4 * e.0) == Ok::<Option<Seq<char>>, NxdError>(
                Some(e.1),
            )
        }),
    decreases n,
{
    if n > 0 {
        let prev = row_cells(d, cells, start, n - 1);
        if j < prev->Ok_0.len() {
            lemma_row_cells_entry(d, cells, start, n - 1, j);
        }
    }
}

/// The column indices of a decoded row are columns of its layout.
pub proof fn lemma_row_columns(d: Seq<u8>, cells: Seq<Cell>, ri: RowInfo)
    requires
        row_of(d, cells, ri) is Ok,
    ensures
        forall|j: int|
            0 <= j < row_of(d, cells, ri)->Ok_0.len() ==> 0 <= (#[trigger] row_of(
                d,
                cells,
                ri,
            )->Ok_0[j]).0 < cells.len(),
{
    lemma_row_cells_columns(d, cells, row_start(ri)->Ok_0 as int, cells.len() as int);
}

/// The strings of the row with index entry `ri`, each with its column index.
pub open spec fn row_of(d: Seq<u8>, cells: Seq<Cell>, ri: RowInfo) -> Result<
    Seq<(int, Seq<char>)>,
    NxdError,
> {
    match row_start(ri) {
        Err(e) => Err(e),
        Ok(start) => row_cells(d, cells, start as int, cells.len() as int),
    }
}

/// The strings of the first `n` rows of `infos`.
pub open spec fn rows_of(d: Seq<u8>, cells: Seq<Cell>, infos: Seq<RowInfo>, n: int) -> Result<
    Seq<Seq<(int, Seq<char>)>>,
    NxdError,
>
    decreases n,
{
    if n <= 0 {
        Ok(seq![])
    } else {
        match rows_of(d, cells, infos, n - 1) {
            Err(e) => Err(e),
            Ok(acc) => match row_of(d, cells, infos[n - 1]) {
                Err(e) => Err(e),
                Ok(row) => Ok(acc.push(row)),
            },
        }
    }
}

/// What a decoded row looks like from outside: column index and text.
pub open spec fn cells_view(v: Seq<(usize, String)>) -> Seq<(int, Seq<char>)> {
    v.map_values(|p: (usize, String)| (p.0 as int, p.1@))
}

/// Reads the cell of type `cell` whose field is at `pos`.
fn read_cell(data: &[u8], cell: &Cell, pos: u64) -> (r: Result<Option<String>, NxdError>)
    ensures
        match r {
            Ok(Some(s)) => cell_at(data@, *cell, pos as int) == Ok::<
                Option<Seq<char>>,
                NxdError,
            >(Some(s@)),
            Ok(None) => cell_at(data@, *cell, pos as int) == Ok::<Option<Seq<char>>, NxdError>(
                None,
            ),
            Err(e) => cell_at(data@, *cell, pos as int) == Err::<Option<Seq<char>>, NxdError>(e),
        },
{
    match cell {
        Cell::Str(shift) => {
            let ptr = Pointer::read(data, pos)?;
            let base = safe_pos_add(ptr.self_pos, (*shift as i64) * 4)?;
            let target = ptr.abs_target_from(base)?;
            let text = read_cstr_at(data, target)?;
            Ok(Some(text))
        },
        _ => {
            read_u32(data, pos)?;
            Ok(None)
        },
    }
}

/// Reads the string cells of the row with index entry `rowinfo`; also gives
/// the position just past the row's last cell.
#[verifier::rlimit(30)]
pub fn read_row(data: &[u8], row_definition: &[Cell], rowinfo: &RowInfo) -> (r: Result<
    (Vec<(usize, String)>, u64),
    NxdError,
>)
    ensures
        match r {
            Ok((v, end)) => {
                &&& row_of(data@, row_definition@, *rowinfo) == Ok::<
                    Seq<(int, Seq<char>)>,
                    NxdError,
                >(cells_view(v@))
                &&& row_start(*rowinfo) is Ok
                &&& end == row_start(*rowinfo)->Ok_0 + 4 * row_definition@.len()
            },
            Err(e) => row_of(data@, row_definition@, *rowinfo) == Err::<
                Seq<(int, Seq<char>)>,
                NxdError,
            >(e),
        },
{
    let start = rowinfo.rowdata_pos.abs_target_from(rowinfo.self_pos)?;
    let _len = data.len();
    let mut cells: Vec<(usize, String)> = Vec::new();
    let mut pos: u64 = start;
    let mut c: usize = 0;
    assert(cells_view(cells@) =~= seq![]);
    while c < row_definition.len()
        invariant
            0 <= c <= row_definition@.len(),
            pos == start + 4 * c,
            _len == data@.len(),
            row_start(*rowinfo) == Ok::<u64, NxdError>(start),
            row_cells(data@, row_definition@, start as int, c as int) == Ok::<
                Seq<(int, Seq<char>)>,
                NxdError,
            >(cells_view(cells@)),
        decreases row_definition@.len() - c,
    {
        let cell = read_cell(data, &row_definition[c], pos);
        match cell {
            Ok(Some(text)) => {
                let ghost before = cells@;
                cells.push((c, text));
                assert(cells_view(cells@) =~= cells_view(before).push((c as int, text@)));
            },
            Ok(None) => {},
            Err(e) => {
                proof {
                    lemma_row_cells_err(
                        data@,
                        row_definition@,
                        start as int,
                        c + 1,
                        row_definition@.len() as int,
                    );
                }
                return Err(e);
            },
        }
        assert(fits(data@, pos as int, 4));
        pos = pos + 4;
        c = c + 1;
    }
    Ok((cells, pos))
}

/// A failing row fails every longer prefix of the table.
proof fn lemma_rows_of_err(d: Seq<u8>, cells: Seq<Cell>, infos: Seq<RowInfo>, n: int, m: int)
    requires
        0 <= n <= m,
        rows_of(d, cells, infos, n) is Err,
    ensures
        rows_of(d, cells, infos, m) == rows_of(d, cells, infos, n),
    decreases m - n,
{
    if n < m {
        lemma_rows_of_err(d, cells, infos, n, m - 1);
    }
}

/// The character of a decimal digit.
pub open spec fn digit_char(n: int) -> char {
    if n == 0 {
        '0'
    } else if n == 1 {
        '1'
    } else if n == 2 {
        '2'
    } else if n == 3 {
        '3'
    } else if n == 4 {
        '4'
    } else if n == 5 {
        '5'
    } else if n == 6 {
        '6'
    } else if n == 7 {
        '7'
    } else if n == 8 {
        '8'
    } else {
        '9'
    }
}

/// `n` written in decimal, without leading zeros.
pub open spec fn decimal(n: nat) -> Seq<char>
    decreases n,
{
    if n < 10 {
        seq![digit_char(n as int)]
    } else {
        decimal(n / 10).push(digit_char((n % 10) as int))
    }
}

/// The key of the string in column `col` of row `row` of table `table`:
/// `table/row/col`.
pub open spec fn key_of(table: Seq<char>, row: int, col: int) -> Seq<char> {
    table + seq!['/'] + decimal(row as nat) + seq!['/'] + decimal(col as nat)
}

/// No decimal numeral holds a slash.
pub proof fn lemma_decimal_no_slash(n: nat)
    ensures
        decimal(n).len() >= 1,
        forall|i: int| 0 <= i < decimal(n).len() ==> #[trigger] decimal(n)[i] != '/',
    decreases n,
{
    if n >= 10 {
        lemma_decimal_no_slash(n / 10);
    }
}

/// Different numbers have different numerals.
pub proof fn lemma_decimal_injective(a: nat, b: nat)
    requires
        decimal(a) == decimal(b),
    ensures
        a == b,
    decreases a,
{
    lemma_decimal_no_slash(a / 10);
    lemma_decimal_no_slash(b / 10);
    if a < 10 && b < 10 {
        assert(decimal(a) == seq![digit_char(a as int)]);
        assert(decimal(b) == seq![digit_char(b as int)]);
        let sa = seq![digit_char(a as int)];
        let sb = seq![digit_char(b as int)];
        assert(sa[0] == digit_char(a as int));
        assert(sb[0] == digit_char(b as int));
        assert(digit_char(a as int) == digit_char(b as int));
    } else if a < 10 {
        assert(decimal(b).len() >= 2);
    } else if b < 10 {
        assert(decimal(a).len() >= 2);
    } else {
        let da = decimal(a);
        let db = decimal(b);
        assert(da.last() == db.last());
        assert(da.drop_last() =~= decimal(a / 10));
        assert(db.drop_last() =~= decimal(b / 10));
        lemma_decimal_injective(a / 10, b / 10);
        assert(digit_char((a % 10) as int) == digit_char((b % 10) as int));
        assert(a % 10 == b % 10);
        assert(a == 10 * (a / 10) + a % 10);
        assert(b == 10 * (b / 10) + b % 10);
    }
}

/// A key names one row and one column.
pub proof fn lemma_key_injective(table: Seq<char>, r1: nat, c1: nat, r2: nat, c2: nat)
    requires
        key_of(table, r1 as int, c1 as int) == key_of(table, r2 as int, c2 as int),
    ensures
        r1 == r2,
        c1 == c2,
{
    let d1 = decimal(r1);
    let d2 = decimal(r2);
    let e1 = decimal(c1);
    let e2 = decimal(c2);
    lemma_decimal_no_slash(r1);
    lemma_decimal_no_slash(r2);
    let t1 = d1 + seq!['/'] + e1;
    let t2 = d2 + seq!['/'] + e2;
    let k1 = key_of(table, r1 as int, c1 as int);
    let k2 = key_of(table, r2 as int, c2 as int);
    let p = table.len() as int + 1;
    assert(k1.subrange(p, k1.len() as int) =~= t1);
    assert(k2.subrange(p, k2.len() as int) =~= t2);
    assert(t1 == t2);
    if d1.len() < d2.len() {
        assert(t1[d1.len() as int] == '/');
        assert(t2[d1.len() as int] == d2[d1.len() as int]);
    } else if d2.len() < d1.len() {
        assert(t2[d2.len() as int] == '/');
        assert(t1[d2.len() as int] == d1[d2.len() as int]);
    }
    assert(d1 =~= t1.subrange(0, d1.len() as int));
    assert(d2 =~= t2.subrange(0, d2.len() as int));
    assert(e1 =~= t1.subrange(d1.len() as int + 1, t1.len() as int));
    assert(e2 =~= t2.subrange(d2.len() as int + 1, t2.len() as int));
    lemma_decimal_injective(r1, r2);
    lemma_decimal_injective(c1, c2);
}

/// The column indices of a decoded row prefix rise strictly.
pub proof fn lemma_row_cells_increasing(d: Seq<u8>, cells: Seq<Cell>, start: int, n: int)
    requires
        row_cells(d, cells, start, n) is Ok,
    ensures
        forall|i: int, j: int|
            0 <= i < j < row_cells(d, cells, start, n)->Ok_0.len() ==> (#[trigger] row_cells(
                d,
                cells,
                start,
                n,
            )->Ok_0[i]).0 < (#[trigger] row_cells(d, cells, start, n)->Ok_0[j]).0,
    decreases n,
{
    if n > 0 {
        lemma_row_cells_increasing(d, cells, start, n - 1);
        lemma_row_cells_columns(d, cells, start, n - 1);
    }
}

/// The numeral of the decimal digit `d`.
fn digit_str(d: usize) -> (r: &'static str)
    requires
        d < 10,
    ensures
        r@ == seq![digit_char(d as int)],
{
    let r = if d == 0 {
        proof {
            reveal_strlit("0");
        }
        "0"
    } else if d == 1 {
        proof {
            reveal_strlit("1");
        }
        "1"
    } else if d == 2 {
        proof {
            reveal_strlit("2");
        }
        "2"
    } else if d == 3 {
        proof {
            reveal_strlit("3");
        }
        "3"
    } else if d == 4 {
        proof {
            reveal_strlit("4");
        }
        "4"
    } else if d == 5 {
        proof {
            reveal_strlit("5");
        }
        "5"
    } else if d == 6 {
        proof {
            reveal_strlit("6");
        }
        "6"
    } else if d == 7 {
        proof {
            reveal_strlit("7");
        }
        "7"
    } else if d == 8 {
        proof {
            reveal_strlit("8");
        }
        "8"
    } else {
        proof {
            reveal_strlit("9");
        }
        "9"
    };
    assert(r@ =~= seq![digit_char(d as int)]);
    r
}

/// `n` written in decimal.
fn decimal_string(n: usize) -> (r: String)
    ensures
        r@ == decimal(n as nat),
    decreases n,
{
    if n < 10 {
        digit_str(n).to_owned()
    } else {
        let mut s = decimal_string(n / 10);
        s.append(digit_str(n % 10));
        assert(s@ =~= decimal((n / 10) as nat).push(digit_char((n % 10) as int)));
        s
    }
}

/// The key of the string in column `cell_idx` of row `row_idx`.
pub(crate) fn create_key(tablename: &str, row_idx: usize, cell_idx: usize) -> (r: String)
    ensures
        r@ == key_of(tablename@, row_idx as int, cell_idx as int),
{
    let mut key = tablename.to_owned();
    proof {
        reveal_strlit("/");
    }
    key.append("/");
    key.append(decimal_string(row_idx).as_str());
    key.append("/");
    key.append(decimal_string(cell_idx).as_str());
    assert(key@ =~= key_of(tablename@, row_idx as int, cell_idx as int));
    key
}

/// The strings of the decoded rows `rows`, each under its key, row by row.
pub open spec fn keyed_texts(table: Seq<char>, rows: Seq<Seq<(int, Seq<char>)>>) -> Seq<
    (Seq<char>, Seq<char>),
>
    decreases rows.len(),
{
    if rows.len() == 0 {
        seq![]
    } else {
        keyed_texts(table, rows.drop_last()) + rows.last().map_values(
            |e: (int, Seq<char>)| (key_of(table, rows.len() - 1, e.0), e.1),
        )
    }
}

/// Every string of the table called `name` in `d`, under its key, or the
/// error that reading it meets first.
pub open spec fn table_texts(d: Seq<u8>, tables: Seq<TableColumns>, name: Seq<char>) -> Result<
    Seq<(Seq<char>, Seq<char>)>,
    NxdError,
> {
    match columns_of(tables, name) {
        None => Err(NxdError::UnsupportedFormat),
        Some(cells) => match index_of(d) {
            Err(e) => Err(e),
            Ok((infos, _)) => match rows_of(d, cells, infos, infos.len() as int) {
                Err(e) => Err(e),
                Ok(rows) => Ok(keyed_texts(name, rows)),
            },
        },
    }
}

/// What a list of key and text pairs looks like from outside.
pub open spec fn pairs_view(v: Seq<(String, String)>) -> Seq<(Seq<char>, Seq<char>)> {
    v.map_values(|p: (String, String)| (p.0@, p.1@))
}

/// What decoded rows look like from outside.
pub open spec fn rows_view(v: Seq<Vec<(usize, String)>>) -> Seq<Seq<(int, Seq<char>)>> {
    v.map_values(|r: Vec<(usize, String)>| cells_view(r@))
}

/// The first position past both the row index, which ends at `index_end`,
/// and the data of the last row: where a new string pool may start.
pub open spec fn text_area_start(cells: Seq<Cell>, infos: Seq<RowInfo>, index_end: int) -> int {
    let rows_end = if infos.len() == 0 {
        index_end
    } else {
        match row_start(infos.last()) {
            Ok(s) => s + 4 * cells.len(),
            Err(_) => index_end,
        }
    };
    if index_end >= rows_end {
        index_end
    } else {
        rows_end
    }
}

/// Reads the string cells of every row of the index `infos`, which ends at
/// `index_end`; also gives where a new string pool may start.
pub fn read_all_rows(
    data: &[u8],
    row_definition: &[Cell],
    infos: &Vec<RowInfo>,
    index_end: u64,
) -> (r: Result<(Vec<Vec<(usize, String)>>, u64), NxdError>)
    ensures
        match r {
            Ok((v, text_area)) => {
                &&& rows_of(data@, row_definition@, infos@, infos@.len() as int) == Ok::<
                    Seq<Seq<(int, Seq<char>)>>,
                    NxdError,
                >(rows_view(v@))
                &&& text_area == text_area_start(row_definition@, infos@, index_end as int)
            },
            Err(e) => rows_of(data@, row_definition@, infos@, infos@.len() as int) == Err::<
                Seq<Seq<(int, Seq<char>)>>,
                NxdError,
            >(e),
        },
{
    let mut rows: Vec<Vec<(usize, String)>> = Vec::new();
    let mut rows_end: u64 = index_end;
    let mut r: usize = 0;
    assert(rows_view(rows@) =~= seq![]);
    while r < infos.len()
        invariant
            0 <= r <= infos@.len(),
            rows_of(data@, row_definition@, infos@, r as int) == Ok::<
                Seq<Seq<(int, Seq<char>)>>,
                NxdError,
            >(rows_view(rows@)),
            r == 0 ==> rows_end == index_end,
            r > 0 ==> row_start(infos@[r - 1]) is Ok && rows_end == row_start(infos@[r - 1])->Ok_0
                + 4 * row_definition@.len(),
        decreases infos@.len() - r,
    {
        match read_row(data, row_definition, &infos[r]) {
            Ok((row, end)) => {
                let ghost before = rows@;
                rows.push(row);
                assert(rows_view(rows@) =~= rows_view(before).push(cells_view(row@)));
                rows_end = end;
            },
            Err(e) => {
                assert(rows_of(data@, row_definition@, infos@, r + 1) == Err::<
                    Seq<Seq<(int, Seq<char>)>>,
                    NxdError,
                >(e));
                proof {
                    lemma_rows_of_err(data@, row_definition@, infos@, r + 1, infos@.len() as int);
                }
                return Err(e);
            },
        }
        r = r + 1;
    }
    let text_area = if index_end >= rows_end { index_end } else { rows_end };
    Ok((rows, text_area))
}

/// Appends the strings of row `r`, each under its key, to `out`.
fn push_keyed_row(out: &mut Vec<(String, String)>, tablename: &str, r: usize, row: &Vec<(usize, String)>)
    ensures
        pairs_view(final(out)@) == pairs_view(old(out)@) + cells_view(row@).map_values(
            |e: (int, Seq<char>)| (key_of(tablename@, r as int, e.0), e.1),
        ),
{
    let ghost before = pairs_view(out@);
    let mut j: usize = 0;
    assert(cells_view(row@).take(0) =~= seq![]);
    assert(before =~= before + cells_view(row@).take(0).map_values(
        |e: (int, Seq<char>)| (key_of(tablename@, r as int, e.0), e.1),
    ));
    while j < row.len()
        invariant
            0 <= j <= row@.len(),
            pairs_view(out@) == before + cells_view(row@).take(j as int).map_values(
                |e: (int, Seq<char>)| (key_of(tablename@, r as int, e.0), e.1),
            ),
        decreases row@.len() - j,
    {
        let key = create_key(tablename, r, row[j].0);
        let text = row[j].1.clone();
        let ghost prev = pairs_view(out@);
        out.push((key, text));
        assert(pairs_view(out@) =~= prev.push((key@, text@)));
        assert(cells_view(row@).take(j + 1) =~= cells_view(row@).take(j as int).push(
            cells_view(row@)[j as int],
        ));
        assert(pairs_view(out@) =~= before + cells_view(row@).take(j + 1).map_values(
            |e: (int, Seq<char>)| (key_of(tablename@, r as int, e.0), e.1),
        ));
        j = j + 1;
    }
    assert(cells_view(row@).take(row@.len() as int) =~= cells_view(row@));
}

/// Reads every string of the table called `tablename`, stored in `data`,
/// with `tables` giving the column layouts: key and text, row by row and
/// column by column.
#[verifier::rlimit(30)]
pub fn read_rows(data: &[u8], tablename: &str, tables: &[TableColumns]) -> (r: Result<
    Vec<(String, String)>,
    NxdError,
>)
    ensures
        match r {
            Ok(v) => table_texts(data@, tables@, tablename@) == Ok::<
                Seq<(Seq<char>, Seq<char>)>,
                NxdError,
            >(pairs_view(v@)),
            Err(e) => table_texts(data@, tables@, tablename@) == Err::<
                Seq<(Seq<char>, Seq<char>)>,
                NxdError,
            >(e),
        },
{
    let row_definition = match find_columns(tables, tablename) {
        Some(c) => c,
        None => {
            return Err(NxdError::UnsupportedFormat);
        },
    };
    let (rowinfos, index_end) = read_nxd_header(data)?;
    let (rows, _text_area) = read_all_rows(data, row_definition.as_slice(), &rowinfos, index_end)?;
    let mut out: Vec<(String, String)> = Vec::new();
    let mut r: usize = 0;
    assert(pairs_view(out@) =~= seq![]);
    assert(rows_view(rows@).take(0) =~= seq![]);
    while r < rows.len()
        invariant
            0 <= r <= rows@.len(),
            pairs_view(out@) == keyed_texts(tablename@, rows_view(rows@).take(r as int)),
        decreases rows@.len() - r,
    {
        let ghost taken = rows_view(rows@).take(r + 1);
        assert(taken.drop_last() =~= rows_view(rows@).take(r as int));
        push_keyed_row(&mut out, tablename, r, &rows[r]);
        r = r + 1;
    }
    assert(rows_view(rows@).take(rows@.len() as int) =~= rows_view(rows@));
    Ok(out)
}

} // verus!
