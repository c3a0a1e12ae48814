//! Long-listing helpers: permission masks and the `rwx` permission string.

use vstd::prelude::*;
use vstd::string::StringExecFns;

verus! {

/// The three permission classes of a mode word.
#[derive(Clone, Copy, Debug)]
pub enum Owner {
    User,
    Group,
    Other,
}

/// The read, write and execute bit masks of a permission class.
pub open spec fn spec_masks(owner: Owner) -> Seq<u32> {
    match owner {
        Owner::User => seq![0o400u32, 0o200u32, 0o100u32],
        Owner::Group => seq![0o040u32, 0o020u32, 0o010u32],
        Owner::Other => seq![0o004u32, 0o002u32, 0o001u32],
    }
}

impl Owner {
    /// The `[read, write, execute]` bit masks of this class.
    pub fn masks(&self) -> (r: [u32; 3])
        ensures
            r@ == spec_masks(*self),
    {
        let r = match self {
            Owner::User => [0o400u32, 0o200u32, 0o100u32],
            Owner::Group => [0o040u32, 0o020u32, 0o010u32],
            Owner::Other => [0o004u32, 0o002u32, 0o001u32],
        };
        proof {
            assert(r@ =~= spec_masks(*self));
        }
        r
    }
}

/// The three-character permission cell of one class: `r`, `w` and `x` for
/// each bit the mode has set, `-` for each it has clear.
pub open spec fn spec_triple(mode: u32, owner: Owner) -> Seq<char> {
    let m = spec_masks(owner);
    (if mode & m[0] == 0 {
        "-"@
    } else {
        "r"@
    }) + (if mode & m[1] == 0 {
        "-"@
    } else {
        "w"@
    }) + (if mode & m[2] == 0 {
        "-"@
    } else {
        "x"@
    })
}

/// Render the permission cell of one class out of an octal mode word.
pub fn mk_triple(mode: u32, owner: Owner) -> (r: String)
    ensures
        r@ == spec_triple(mode, owner),
{
    let masks = owner.masks();
    let read = masks[0];
    let write = masks[1];
    let execute = masks[2];
    let mut s = String::new();
    s.append(
        if mode & read == 0 {
            "-"
        } else {
            "r"
        },
    );
    s.append(
        if mode & write == 0 {
            "-"
        } else {
            "w"
        },
    );
    s.append(
        if mode & execute == 0 {
            "-"
        } else {
            "x"
        },
    );
    proof {
        assert(s@ =~= spec_triple(mode, owner));
    }
    s
}

/// The nine-character permission string of a mode word, user class first.
pub open spec fn spec_format_mode(mode: u32) -> Seq<char> {
    spec_triple(mode, Owner::User) + spec_triple(mode, Owner::Group) + spec_triple(
        mode,
        Owner::Other,
    )
}

/// Render a mode word such as `0o751` as a string such as `rwxr-x--x`.
pub fn format_mode(mode: u32) -> (r: String)
    ensures
        r@ == spec_format_mode(mode),
{
    let mut s = mk_triple(mode, Owner::User);
    let g = mk_triple(mode, Owner::Group);
    s.append(g.as_str());
    let o = mk_triple(mode, Owner::Other);
    s.append(o.as_str());
    proof {
        assert(s@ =~= spec_format_mode(mode));
    }
    s
}

/// A directory entry is hidden when its file name starts with a dot.
pub open spec fn spec_is_hidden(name: Seq<char>) -> bool {
    name.len() > 0 && name[0] == '.'
}

/// Whether a file name names a hidden entry, which a listing leaves out
/// unless hidden entries were asked for.
pub fn is_hidden_name(name: &str) -> (r: bool)
    ensures
        r == spec_is_hidden(name@),
{
    if name.unicode_len() == 0 {
        false
    } else {
        name.get_char(0) == '.'
    }
}

} // verus!
