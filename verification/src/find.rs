//! Entry filtering: which directory entries a type selection keeps.

use vstd::prelude::*;

verus! {

/// The entry kinds a search can select.
#[derive(Clone, Copy, Debug, PartialEq, Eq, Structural)]
pub enum EntryType {
    Dir,
    File,
    Link,
}

/// Whether an entry with the given kind flags is of kind `t`.
pub open spec fn spec_type_flag(t: EntryType, is_dir: bool, is_file: bool, is_link: bool) -> bool {
    match t {
        EntryType::Dir => is_dir,
        EntryType::File => is_file,
        EntryType::Link => is_link,
    }
}

/// Whether the type selection keeps an entry with the given kind flags: an
/// empty selection keeps everything, otherwise some selected kind must
/// apply.
pub fn entry_type_matches(
    entry_types: &[EntryType],
    is_dir: bool,
    is_file: bool,
    is_link: bool,
) -> (r: bool)
    ensures
        r == (entry_types@.len() == 0 || exists|k: int|
            0 <= k < entry_types@.len() && spec_type_flag(
                #[trigger] entry_types@[k],
                is_dir,
                is_file,
                is_link,
            )),
{
    if entry_types.len() == 0 {
        return true;
    }
    let mut k: usize = 0;
    while k < entry_types.len()
        invariant
            0 <= k <= entry_types@.len(),
            forall|m: int|
                0 <= m < k ==> !spec_type_flag(
                    #[trigger] entry_types@[m],
                    is_dir,
                    is_file,
                    is_link,
                ),
        decreases entry_types@.len() - k,
    {
        let hit = match entry_types[k] {
            EntryType::Dir => is_dir,
            EntryType::File => is_file,
            EntryType::Link => is_link,
        };
        if hit {
            return true;
        }
        k = k + 1;
    }
    false
}

} // verus!
