//! Recognising SQLite files: a database extension and the SQLite header.
use vstd::prelude::*;
use crate::chars::{ascii_lower_seq, str_to_ascii_lowercase, str_eq};
use crate::syntax::{path_extension, spec_path_extension};

verus! {

/// The first 16 bytes of every SQLite 3 database: `SQLite format 3` and a
/// zero byte.
pub open spec fn sqlite_magic() -> Seq<u8> {
    seq![83u8, 81, 76, 105, 116, 101, 32, 102, 111, 114, 109, 97, 116, 32, 51, 0]
}

/// The extensions that may name a SQLite database.
pub open spec fn sqlite_extension(e: Seq<char>) -> bool {
    e == "db"@ || e == "sqlite"@ || e == "sqlite3"@ || e == "db3"@ || e == "s3db"@ || e == "sl3"@
}

/// A file named `path` whose first bytes are `head` is a SQLite database:
/// its extension (lower-cased) is a database extension and it starts with
/// the SQLite header.
pub open spec fn sqlite_file(path: Seq<char>, head: Option<Seq<u8>>) -> bool {
    let e = match spec_path_extension(path) {
        Some(e) => e,
        None => seq![],
    };
    &&& sqlite_extension(ascii_lower_seq(e))
    &&& head is Some
    &&& head->0.len() >= 16
    &&& head->0.take(16) == sqlite_magic()
}

/// The first 16 bytes of `head` are the SQLite header.
fn check_magic(head: &[u8]) -> (r: bool)
    ensures
        r == (head@.len() >= 16 && head@.take(16) == sqlite_magic()),
{
    let magic: [u8; 16] = [83, 81, 76, 105, 116, 101, 32, 102, 111, 114, 109, 97, 116, 32, 51, 0];
    if head.len() < 16 {
        return false;
    }
    let mut i: usize = 0;
    while i < 16
        invariant
            head@.len() >= 16,
            magic@ == sqlite_magic(),
            i <= 16,
            forall|k: int| 0 <= k < i ==> head@[k] == sqlite_magic()[k],
        decreases 16 - i,
    {
        if head[i] != magic[i] {
            assert(head@.take(16)[i as int] != sqlite_magic()[i as int]);
            return false;
        }
        i = i + 1;
    }
    assert(head@.take(16) =~= sqlite_magic());
    true
}

/// Whether the file at `path`, whose first bytes are `head` (`None` when
/// 16 bytes could not be read), is a SQLite database.
pub fn is_sqlite(path: &str, head: Option<&[u8]>) -> (r: bool)
    ensures
        r == sqlite_file(path@, match head {
            Some(h) => Some(h@),
            None => None,
        }),
{
    let ext = match path_extension(path) {
        Some(e) => str_to_ascii_lowercase(e.as_str()),
        None => String::new(),
    };
    let e = ext.as_str();
    proof {
        assert(ascii_lower_seq(Seq::<char>::empty()) =~= Seq::<char>::empty());
    }
    let known = str_eq(e, "db") || str_eq(e, "sqlite") || str_eq(e, "sqlite3") || str_eq(e, "db3")
        || str_eq(e, "s3db") || str_eq(e, "sl3");
    if !known {
        return false;
    }
    match head {
        Some(h) => check_magic(h),
        None => false,
    }
}

} // verus!
