//! Repository identifiers of the form `owner/name`.
//!
//! An identifier is valid when it contains exactly one slash; the part
//! before it is the owner, the part after it the name. The tracked set is
//! validated once at startup, and a malformed identifier is fatal there.

use vstd::prelude::*;
use crate::bytes::clone_range;

verus! {

/// The slash that separates owner from name.
pub const SLASH: u8 = 47;

/// Exactly one slash: some position holds one and no other does.
pub open spec fn valid_repo_id(s: Seq<u8>) -> bool {
    exists|i: int|
        0 <= i < s.len() && s[i] == SLASH && (forall|j: int|
            0 <= j < s.len() && j != i ==> s[j] != SLASH)
}

/// Splits a valid identifier into owner and name; yields nothing on an
/// identifier that does not contain exactly one slash.
pub fn split_repo_id(repo: &Vec<u8>) -> (r: Option<(Vec<u8>, Vec<u8>)>)
    ensures
        match r {
            Some(p) => valid_repo_id(repo@) && repo@ == p.0@ + seq![SLASH] + p.1@
                && !p.0@.contains(SLASH) && !p.1@.contains(SLASH),
            None => !valid_repo_id(repo@),
        },
{
    let mut i: usize = 0;
    let mut slash_at: usize = 0;
    let mut seen: bool = false;
    while i < repo.len()
        invariant
            i <= repo.len(),
            seen ==> slash_at < i && repo@[slash_at as int] == SLASH,
            forall|j: int| 0 <= j < i && (!seen || j != slash_at) ==> repo@[j] != SLASH,
        decreases repo.len() - i,
    {
        if repo[i] == SLASH {
            if seen {
                proof {
                    let a = slash_at as int;
                    let b = i as int;
                    assert(repo@[a] == SLASH && repo@[b] == SLASH && a != b);
                    assert forall|k: int|
                        0 <= k < repo@.len() && repo@[k] == SLASH implies !(forall|j: int|
                        0 <= j < repo@.len() && j != k ==> repo@[j] != SLASH) by {
                        if k != a {
                            assert(repo@[a] == SLASH);
                        } else {
                            assert(repo@[b] == SLASH);
                        }
                    }
                }
                return None;
            }
            slash_at = i;
            seen = true;
        }
        i += 1;
    }
    if !seen {
        proof {
            assert(forall|j: int| 0 <= j < repo@.len() ==> repo@[j] != SLASH);
        }
        return None;
    }
    let owner = clone_range(repo, 0, slash_at);
    let name = clone_range(repo, slash_at + 1, repo.len());
    proof {
        let a = slash_at as int;
        assert(repo@ =~= repo@.subrange(0, a) + seq![SLASH] + repo@.subrange(
            a + 1,
            repo@.len() as int,
        ));
        assert(valid_repo_id(repo@)) by {
            assert(repo@[a] == SLASH && (forall|j: int|
                0 <= j < repo@.len() && j != a ==> repo@[j] != SLASH));
        }
        assert(!owner@.contains(SLASH)) by {
            if owner@.contains(SLASH) {
                let k = choose|k: int| 0 <= k < owner@.len() && owner@[k] == SLASH;
                assert(repo@[k] == SLASH);
            }
        }
        assert(!name@.contains(SLASH)) by {
            if name@.contains(SLASH) {
                let k = choose|k: int| 0 <= k < name@.len() && name@[k] == SLASH;
                assert(repo@[a + 1 + k] == SLASH);
            }
        }
    }
    Some((owner, name))
}

} // verus!
