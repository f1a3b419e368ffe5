//! Column layouts: how each cell of a row is decoded.

use vstd::prelude::*;

verus! {

/// How one 4-byte cell of a row is decoded.
#[derive(Clone, Copy, Debug, PartialEq, Eq, Structural)]
pub enum Cell {
    /// A number that is always zero.
    Zero32,
    /// A boolean flag.
    Bool32,
    /// A field that carries no text.
    Skip32,
    /// A placeholder for an empty string; it is not a real pointer.
    EmptyStr,
    /// A pointer to a string. The stored offset is relative to the field
    /// `shift` cells away from the pointer's own field.
    Str(i32),
}

/// The column layout of one table.
pub struct TableColumns {
    pub name: String,
    pub cells: Vec<Cell>,
}

/// The layout of the first table in `tables` called `name`.
pub open spec fn columns_of(tables: Seq<TableColumns>, name: Seq<char>) -> Option<Seq<Cell>>
    decreases tables.len(),
{
    if tables.len() == 0 {
        None
    } else if tables[0].name@ == name {
        Some(tables[0].cells@)
    } else {
        columns_of(tables.drop_first(), name)
    }
}

/// Looks up the layout of the table called `name`.
pub fn find_columns<'a>(tables: &'a [TableColumns], name: &str) -> (r: Option<&'a Vec<Cell>>)
    ensures
        match r {
            Some(c) => columns_of(tables@, name@) == Some(c@),
            None => columns_of(tables@, name@) is None,
        },
{
    let wanted = name.to_owned();
    let mut i: usize = 0;
    assert(tables@.subrange(0, tables@.len() as int) =~= tables@);
    while i < tables.len()
        invariant
            0 <= i <= tables@.len(),
            wanted@ == name@,
            columns_of(tables@, name@) == columns_of(tables@.subrange(i as int, tables@.len() as int), name@),
        decreases tables@.len() - i,
    {
        let ghost rest = tables@.subrange(i as int, tables@.len() as int);
        if tables[i].name == wanted {
            return Some(&tables[i].cells);
        }
        assert(rest.drop_first() =~= tables@.subrange(i + 1, tables@.len() as int));
        i = i + 1;
    }
    None
}

} // verus!
