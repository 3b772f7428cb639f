//! Moving the user data of older versions to the current format.

use vstd::prelude::*;

verus! {

/// Whether the user data must be migrated from the v3 format: the v3 data
/// file (`chewing.dat`) is there and the v4 directory is not.
pub fn should_migrate_v3(has_v3_data: bool, has_v4_dir: bool) -> (r: bool)
    ensures
        r == (has_v3_data && !has_v4_dir),
{
    has_v3_data && !has_v4_dir
}

} // verus!
