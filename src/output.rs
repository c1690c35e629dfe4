//! Where items may write: only inside the output directory.

use vstd::prelude::*;
use vstd::string::StrSliceExecFns;

verus! {

/// A `..` component of `p` starts at position `i`.
pub open spec fn climbs_at(p: Seq<char>, i: int) -> bool {
    &&& 0 <= i
    &&& i + 2 <= p.len()
    &&& p[i] == '.'
    &&& p[i + 1] == '.'
    &&& (i == 0 || p[i - 1] == '/')
    &&& (i + 2 == p.len() || p[i + 2] == '/')
}

/// Joined under a directory, the path `p` stays inside it: it is not
/// absolute, and none of its components is `..`.
pub open spec fn stays_inside(p: Seq<char>) -> bool {
    &&& !(p.len() > 0 && p[0] == '/')
    &&& forall|i: int| !#[trigger] climbs_at(p, i)
}

/// Whether an item may write to `path` under the output directory.
pub fn stays_inside_output(path: &str) -> (r: bool)
    ensures
        r == stays_inside(path@),
{
    let n = path.unicode_len();
    if n > 0 && path.get_char(0) == '/' {
        return false;
    }
    let mut i: usize = 0;
    while i < n && i + 1 < n
        invariant
            n == path@.len(),
            i <= n,
            !(n > 0 && path@[0] == '/'),
            forall|j: int| 0 <= j < i ==> !#[trigger] climbs_at(path@, j),
        decreases n - i,
    {
        let before = i == 0 || path.get_char(i - 1) == '/';
        let after = i + 2 == n || path.get_char(i + 2) == '/';
        if path.get_char(i) == '.' && path.get_char(i + 1) == '.' && before && after {
            assert(climbs_at(path@, i as int));
            return false;
        }
        i += 1;
    }
    assert forall|j: int| !#[trigger] climbs_at(path@, j) by {
        if j >= i {
            assert(j + 2 > n);
        }
    }
    true
}

} // verus!
