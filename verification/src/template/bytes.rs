use vstd::prelude::*;

verus! {

/// Whether `part` stands in `whole` at position `at`.
pub open spec fn occurs_at(whole: Seq<u8>, at: int, part: Seq<u8>) -> bool {
    0 <= at <= whole.len() && part.is_prefix_of(whole.skip(at))
}

/// Compares `part` with what stands in `whole` from `at` on, byte for byte.
pub(crate) fn matches_at(whole: &[u8], at: usize, part: &[u8]) -> (found: bool)
    ensures
        found == occurs_at(whole@, at as int, part@),
{
    if at > whole.len() || part.len() > whole.len() - at {
        return false;
    }
    let mut index: usize = 0;
    while index < part.len()
        invariant
            at <= whole.len(),
            part.len() <= whole.len() - at,
            index <= part.len(),
            forall|k: int| 0 <= k < index ==> part[k] == whole[at + k],
        decreases part.len() - index,
    {
        if part[index] != whole[at + index] {
            assert(whole@.skip(at as int).subrange(0, part@.len() as int)[index as int]
                != part@[index as int]);
            return false;
        }
        index += 1;
    }
    assert(part@ =~= whole@.skip(at as int).subrange(0, part@.len() as int));
    true
}

/// Writes `bytes` at the end of `writer`.
pub(crate) fn append(writer: &mut Vec<u8>, bytes: &[u8])
    ensures
        final(writer)@ == old(writer)@ + bytes@,
{
    writer.extend_from_slice(bytes);
    assert(writer@ =~= old(writer)@ + bytes@);
}

} // verus!
