//! What opening a database decides before it touches the file: whether the
//! path names a private in-memory database, and which schema migrations an
//! existing database still needs.
use vstd::prelude::*;
use crate::fieldmap::compare_text;

verus! {

/// The path SQLite reads as a private in-memory database.
pub open spec fn is_memory_path_spec(path: Seq<char>) -> bool {
    path == ":memory:"@
}

/// Whether `path` names a private in-memory database (each open is a
/// distinct database, so it is neither registered nor opened twice).
pub fn is_memory_path(path: &str) -> (r: bool)
    ensures
        r == is_memory_path_spec(path@),
{
    compare_text(path, ":memory:") == 0
}

/// Whether a second, read-only connection can reach the same database: not
/// for an in-memory database or an empty path.
pub fn has_shared_file(path: &str) -> (r: bool)
    ensures
        r == !(is_memory_path_spec(path@) || path@.len() == 0),
{
    proof {
        reveal_strlit("");
    }
    let empty = compare_text(path, "") == 0;
    assert(empty == (path@.len() == 0)) by {
        assert(""@ =~= Seq::<char>::empty());
        if path@.len() == 0 {
            assert(path@ =~= ""@);
        }
    }
    !(is_memory_path(path) || empty)
}

/// The schema steps a database at `user_version` still needs: the base
/// tables, the short-circuit columns, and the exact field count.
pub struct MigrationPlan {
    pub create_base: bool,
    pub add_floor_columns: bool,
    pub add_field_count: bool,
}

/// Plans the migrations from `user_version`: a fresh database (version 0)
/// gets every step, a version-1 database the last two, a version-2 one the
/// last; each step is idempotent, so a half-applied one is simply rerun.
pub fn plan_migrations(user_version: i64) -> (p: MigrationPlan)
    ensures
        p.create_base == (user_version == 0),
        p.add_floor_columns == (user_version <= 1),
        p.add_field_count == (user_version <= 2),
{
    MigrationPlan {
        create_base: user_version == 0,
        add_floor_columns: user_version <= 1,
        add_field_count: user_version <= 2,
    }
}

} // verus!
