use vstd::prelude::*;

verus! {

/// Whether `pat` stands in `body` at position `at`.
pub open spec fn matches_at(body: Seq<u8>, at: int, pat: Seq<u8>) -> bool {
    &&& 0 <= at
    &&& at + pat.len() <= body.len()
    &&& body.subrange(at, at + pat.len()) == pat
}

/// Tests whether `pat` stands in `body` at position `at`; a pattern that
/// would run past the end does not.
pub fn has_at(body: &[u8], at: usize, pat: &[u8]) -> (r: bool)
    ensures
        r == matches_at(body@, at as int, pat@),
{
    if at > body.len() || pat.len() > body.len() - at {
        return false;
    }
    let n: usize = body.len();
    let mut k: usize = 0;
    while k < pat.len()
        invariant
            0 <= k <= pat@.len(),
            n == body@.len(),
            at + pat@.len() <= body@.len(),
            forall|j: int| 0 <= j < k ==> body@[at + j] == pat@[j],
        decreases pat@.len() - k,
    {
        if body[at + k] != pat[k] {
            assert(body@.subrange(at as int, at + pat@.len())[k as int] == body@[at + k]);
            return false;
        }
        k = k + 1;
    }
    assert(body@.subrange(at as int, at + pat@.len()) =~= pat@);
    true
}

/// Appends a run of bytes to a buffer.
pub fn append_bytes(out: &mut Vec<u8>, src: &[u8])
    ensures
        final(out)@ == old(out)@ + src@,
{
    let mut k: usize = 0;
    while k < src.len()
        invariant
            0 <= k <= src@.len(),
            out@ == old(out)@ + src@.take(k as int),
        decreases src@.len() - k,
    {
        out.push(src[k]);
        assert(out@ =~= old(out)@ + src@.take(k + 1));
        k = k + 1;
    }
    assert(src@.take(k as int) =~= src@);
}

/// The views of a list of byte texts.
pub open spec fn views(v: Seq<Vec<u8>>) -> Seq<Seq<u8>> {
    Seq::new(v.len(), |i: int| v[i]@)
}

} // verus!
