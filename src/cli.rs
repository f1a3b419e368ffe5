//! The command line's shape, and the table name taken from a file name.

use vstd::prelude::*;

verus! {

/// A command line: export the strings of a table, or import replacements.
pub struct Cli {
    pub command: CliCommand,
}

/// What to do.
pub enum CliCommand {
    /// Write the strings of the table file `nxd` to JSON and/or PO files.
    Export { nxd: String, output: CliExportOutput },
    /// Rewrite the table file `nxd` with the texts of a JSON or PO file,
    /// into the file `out`.
    Import { nxd: String, input: CliInjectInput, out: String },
}

/// Where exported strings go; at least one is given.
pub struct CliExportOutput {
    pub out_json: Option<String>,
    pub out_po: Option<String>,
}

/// Where replacement texts come from; exactly one is given.
pub struct CliInjectInput {
    pub json: Option<String>,
    pub po: Option<String>,
}

/// A failure of the command line tool, as a message.
pub struct Error(pub String);

/// The table name that a file name gives: what precedes its first dot, or
/// the whole name where it has none.
pub open spec fn table_name_of(file_name: Seq<char>) -> Seq<char> {
    if exists|i: int| 0 <= i < file_name.len() && file_name[i] == '.' {
        let i = choose|i: int|
            0 <= i < file_name.len() && file_name[i] == '.' && forall|j: int|
                0 <= j < i ==> file_name[j] != '.';
        file_name.subrange(0, i)
    } else {
        file_name
    }
}

/// The table name that the file name `file_name` gives.
pub fn path_to_tablename(file_name: &str) -> (r: &str)
    ensures
        r@ == table_name_of(file_name@),
{
    let n = file_name.unicode_len();
    let mut i: usize = 0;
    while i < n
        invariant
            0 <= i <= n,
            n == file_name@.len(),
            forall|j: int| 0 <= j < i ==> file_name@[j] != '.',
        decreases n - i,
    {
        if file_name.get_char(i) == '.' {
            let ghost s = file_name@;
            assert(0 <= i < s.len() && s[i as int] == '.' && forall|j: int|
                0 <= j < i ==> s[j] != '.');
            proof {
                let k = choose|k: int|
                    0 <= k < s.len() && s[k] == '.' && forall|j: int| 0 <= j < k ==> s[j] != '.';
                if k < i {
                    assert(s[k] != '.');
                } else if k > i {
                    assert(s[i as int] != '.');
                }
            }
            return file_name.substring_char(0, i);
        }
        i = i + 1;
    }
    assert(!exists|k: int| 0 <= k < file_name@.len() && file_name@[k] == '.');
    file_name
}

} // verus!
