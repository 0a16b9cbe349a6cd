use vstd::prelude::*;

verus! {

/// The span of keys covered by one SST or by one pending compaction
/// output: `left` inclusive, `right` exclusive. Keys are byte strings
/// ordered lexicographically.
///
/// A range is an immutable value; every table and every pending entry
/// owns its own copy.
#[derive(Clone, Debug, PartialEq, Eq)]
pub struct KeyRange {
    pub left: Vec<u8>,
    pub right: Vec<u8>,
}

/// Lexicographic order on byte keys: `a` comes before `b` (or equals it).
pub open spec fn lex_le(a: Seq<u8>, b: Seq<u8>) -> bool
    decreases a.len(),
{
    if a.len() == 0 {
        true
    } else if b.len() == 0 {
        false
    } else if a[0] < b[0] {
        true
    } else if a[0] > b[0] {
        false
    } else {
        lex_le(a.drop_first(), b.drop_first())
    }
}

/// Two key spans overlap unless one ends (exclusively) at or before the
/// other begins.
pub open spec fn spec_overlap(a: KeyRange, b: KeyRange) -> bool {
    !(lex_le(a.right@, b.left@) || lex_le(b.right@, a.left@))
}

impl KeyRange {
    pub fn new(left: Vec<u8>, right: Vec<u8>) -> (r: KeyRange)
        ensures
            r.left@ == left@,
            r.right@ == right@,
    {
        KeyRange { left, right }
    }

    /// Does this span share at least one key position with `other`?
    pub fn overlaps(&self, other: &KeyRange) -> (r: bool)
        ensures
            r == spec_overlap(*self, *other),
    {
        !(key_le(&self.right, &other.left) || key_le(&other.right, &self.left))
    }
}

/// Lexicographic comparison of two byte keys, `a <= b`.
pub fn key_le(a: &Vec<u8>, b: &Vec<u8>) -> (r: bool)
    ensures
        r == lex_le(a@, b@),
{
    let mut i: usize = 0;
    proof {
        assert(a@.skip(0) =~= a@);
        assert(b@.skip(0) =~= b@);
    }
    loop
        invariant
            0 <= i <= a@.len(),
            i <= b@.len(),
            lex_le(a@, b@) == lex_le(a@.skip(i as int), b@.skip(i as int)),
        decreases a@.len() - i,
    {
        if i == a.len() {
            proof {
                assert(a@.skip(i as int).len() == 0);
            }
            return true;
        }
        if i == b.len() {
            proof {
                assert(b@.skip(i as int).len() == 0);
                assert(a@.skip(i as int).len() > 0);
            }
            return false;
        }
        let x = a[i];
        let y = b[i];
        proof {
            assert(a@.skip(i as int)[0] == a@[i as int]);
            assert(b@.skip(i as int)[0] == b@[i as int]);
        }
        if x < y {
            return true;
        }
        if x > y {
            return false;
        }
        proof {
            assert(a@.skip(i as int).drop_first() =~= a@.skip(i + 1));
            assert(b@.skip(i as int).drop_first() =~= b@.skip(i + 1));
        }
        i = i + 1;
    }
}

} // verus!
