//! The extension of a file name, taken the way `std::path::Path::extension`
//! takes it, on the name's bytes.

use vstd::prelude::*;

verus! {

/// The byte `.`.
pub const DOT: u8 = 46;

/// Index of the last `.` in `s`, or `-1` when `s` holds none.
pub open spec fn last_dot(s: Seq<u8>) -> int
    decreases s.len(),
{
    if s.len() == 0 {
        -1
    } else if s.last() == DOT {
        s.len() - 1
    } else {
        last_dot(s.drop_last())
    }
}

/// The extension of a file name: the bytes after its last `.`. A name with
/// no `.`, one whose only `.` leads it (`.profile`), and the name `..` have
/// none.
pub open spec fn extension_of(name: Seq<u8>) -> Option<Seq<u8>> {
    let p = last_dot(name);
    if name == seq![DOT, DOT] || p <= 0 {
        None
    } else {
        Some(name.subrange(p + 1, name.len() as int))
    }
}

pub proof fn lemma_last_dot_bounds(s: Seq<u8>)
    ensures
        -1 <= last_dot(s) < s.len(),
        last_dot(s) >= 0 ==> s[last_dot(s)] == DOT,
        forall|j: int| last_dot(s) < j < s.len() ==> s[j] != DOT,
    decreases s.len(),
{
    if s.len() > 0 && s.last() != DOT {
        lemma_last_dot_bounds(s.drop_last());
        assert forall|j: int| last_dot(s) < j < s.len() implies s[j] != DOT by {
            if j < s.len() - 1 {
                assert(s[j] == s.drop_last()[j]);
            }
        }
    }
}

/// Where the extension of `name` starts, or `None` when it has none.
pub fn extension_start(name: &[u8]) -> (r: Option<usize>)
    ensures
        match r {
            Some(i) => {
                &&& 0 < i <= name@.len()
                &&& extension_of(name@) == Some(name@.subrange(i as int, name@.len() as int))
            },
            None => extension_of(name@) is None,
        },
{
    let n = name.len();
    if n == 2 && name[0] == DOT && name[1] == DOT {
        assert(name@ == seq![DOT, DOT]);
        return None;
    }
    let mut i: usize = n;
    assert(name@.subrange(0, n as int) == name@);
    while i > 0 && name[i - 1] != DOT
        invariant
            i <= n == name@.len(),
            last_dot(name@) == last_dot(name@.subrange(0, i as int)),
        decreases i,
    {
        assert(name@.subrange(0, i as int).drop_last() == name@.subrange(0, i - 1));
        i = i - 1;
    }
    assert(name@.subrange(0, n as int) == name@);
    proof {
        if i > 0 {
            assert(name@.subrange(0, i as int).last() == DOT);
        }
    }
    if i <= 1 {
        None
    } else {
        Some(i)
    }
}

} // verus!
