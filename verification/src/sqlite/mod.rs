//! SQLite database previews: recognising a database file and the schema
//! records the preview lists.
use vstd::prelude::*;

pub mod detect;
pub mod document;

verus! {

/// A table or view of a database.
pub struct DbObject {
    pub name: String,
    pub kind: String,
}

/// A column of a table.
pub struct Column {
    pub name: String,
    pub typ: String,
    pub notnull: bool,
    pub pk: bool,
}

/// Whether the file at `path`, whose first bytes are `head` (`None` when
/// 16 bytes could not be read), is a SQLite database.
pub fn is_sqlite(path: &str, head: Option<&[u8]>) -> (r: bool)
    ensures
        r == detect::sqlite_file(path@, match head {
            Some(h) => Some(h@),
            None => None,
        }),
{
    detect::is_sqlite(path, head)
}

} // verus!
