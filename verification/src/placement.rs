//! Where keyed collections put their entries on disk.
//!
//! A stored image says how its bytes are shaped, not where a keyed collection puts an
//! entry.  Every kind of collection has a token for that; a collection whose token
//! differs from the first one carries it in the description of its layout, so that an
//! image written under another placement is refused and not misread.

use crate::text;
use vstd::prelude::*;

verus! {

/// The token of the placement that every kind started with.  It is left out of layout
/// descriptions, so images from before tokens existed describe themselves alike.
pub const BASELINE: &'static str = "1";

/// The token of `hash` collections: buckets hold indexes into an arena of entries.
pub const HASH: &'static str = "2";

/// The token of `index` collections.
pub const INDEX: &'static str = "1";

/// The token of `spatial` collections.
pub const RADIX: &'static str = "1";

/// The token of `trie` collections.
pub const TRIE: &'static str = "1";

/// What a collection with a placement token adds to the description of its layout.
pub open spec fn tag_of(token: Seq<char>) -> Seq<char> {
    if token == BASELINE@ {
        Seq::empty()
    } else {
        ",placement="@ + token
    }
}

/// What a collection with a placement token adds to the description of its layout:
/// nothing for the first placement.
pub fn tag(token: &str) -> (s: String)
    ensures
        s@ == tag_of(token@),
{
    if text::same(token, BASELINE) {
        let s: String = String::new();
        assert(s@ =~= Seq::<char>::empty());
        s
    } else {
        text::join(",placement=", token)
    }
}

/// Two placements describe themselves alike only when they are the same.
pub proof fn tags_tell_placements_apart(a: Seq<char>, b: Seq<char>)
    requires
        tag_of(a) == tag_of(b),
    ensures
        a == b,
{
    reveal_strlit(",placement=");
    let start = ",placement="@;
    if a == BASELINE@ || b == BASELINE@ {
        if a != BASELINE@ {
            assert(tag_of(a).len() > 0);
        }
        if b != BASELINE@ {
            assert(tag_of(b).len() > 0);
        }
    } else {
        assert((start + a).skip(start.len() as int) =~= a);
        assert((start + b).skip(start.len() as int) =~= b);
    }
}

} // verus!
