//! Paths as bytes.

use vstd::prelude::*;

verus! {

/// The path of `name` in the directory at `path`.
pub open spec fn joined(path: Seq<u8>, name: Seq<u8>) -> Seq<u8> {
    if path.len() == 0 {
        name
    } else if path.last() == 0x2f {
        path + name
    } else {
        path.push(0x2f) + name
    }
}

/// Go from a directory to an entry of it.
pub fn append_name(path: &mut Vec<u8>, name: &[u8])
    ensures
        final(path)@ == joined(old(path)@, name@),
{
    let n = path.len();
    if n > 0 && path[n - 1] != 0x2f {
        path.push(0x2f);
    }
    path.extend_from_slice(name);
    assert(path@ =~= joined(old(path)@, name@));
}

/// A path that starts with that of its directory.
pub proof fn lemma_joined_prefix(path: Seq<u8>, name: Seq<u8>)
    ensures
        path.len() <= joined(path, name).len(),
        joined(path, name).take(path.len() as int) == path,
{
    assert(joined(path, name).take(path.len() as int) =~= path);
}

}
