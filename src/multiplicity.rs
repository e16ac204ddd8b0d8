use vstd::prelude::*;

verus! {

broadcast use vstd::seq_lib::group_to_multiset_ensures;

/// How many times `b` occurs in `s`.
pub open spec fn byte_count(s: Seq<u8>, b: u8) -> nat {
    s.to_multiset().count(b)
}

/// For each byte value below `k` that occurs in `s`, in ascending order of
/// value, the number of its occurrences.
pub open spec fn counts_below(s: Seq<u8>, k: nat) -> Seq<nat>
    decreases k,
{
    if k == 0 {
        seq![]
    } else {
        let prev = counts_below(s, (k - 1) as nat);
        let c = byte_count(s, (k - 1) as u8);
        if c > 0 {
            prev.push(c)
        } else {
            prev
        }
    }
}

/// The multiplicity of every distinct byte of `s`, by ascending byte value.
pub open spec fn char_multiplicities(s: Seq<u8>) -> Seq<nat> {
    counts_below(s, 256)
}

pub open spec fn nondecreasing(s: Seq<usize>) -> bool {
    forall|i: int, j: int| 0 <= i < j < s.len() ==> s[i] <= s[j]
}

/// The number of occurrences of every byte value in `bytes`, indexed by value.
pub fn count_bytes(bytes: &[u8]) -> (r: Vec<usize>)
    ensures
        r.len() == 256,
        forall|i: int| 0 <= i < 256 ==> r[i] == byte_count(bytes@, i as u8),
{
    let mut counts: Vec<usize> = Vec::new();
    while counts.len() < 256
        invariant
            counts.len() <= 256,
            forall|i: int| 0 <= i < counts.len() ==> counts[i] == 0,
        decreases 256 - counts.len(),
    {
        counts.push(0);
    }
    let mut k: usize = 0;
    while k < bytes.len()
        invariant
            k <= bytes.len(),
            counts.len() == 256,
            forall|i: int| 0 <= i < 256 ==> counts[i] <= k,
            forall|i: int|
                0 <= i < 256 ==> counts[i] == byte_count(bytes@.subrange(0, k as int), i as u8),
        decreases bytes.len() - k,
    {
        let b = bytes[k];
        proof {
            assert(bytes@.subrange(0, k + 1) == bytes@.subrange(0, k as int).push(b));
        }
        let c = counts[b as usize];
        counts.set(b as usize, c + 1);
        k += 1;
    }
    assert(bytes@.subrange(0, bytes.len() as int) == bytes@);
    counts
}

/// The multiplicities of the distinct bytes of `charset`, in ascending order.
pub fn calculate_char_multiplicities(charset: &[u8]) -> (r: Vec<usize>)
    ensures
        nondecreasing(r@),
        r@.map_values(|c: usize| c as nat).to_multiset() == char_multiplicities(
            charset@,
        ).to_multiset(),
{
    let counts = count_bytes(charset);
    let mut r: Vec<usize> = Vec::new();
    let mut v: usize = 0;
    while v < 256
        invariant
            v <= 256,
            counts.len() == 256,
            forall|i: int| 0 <= i < 256 ==> counts[i] == byte_count(charset@, i as u8),
            nondecreasing(r@),
            r@.map_values(|c: usize| c as nat).to_multiset() == counts_below(
                charset@,
                v as nat,
            ).to_multiset(),
        decreases 256 - v,
    {
        let c = counts[v];
        if c > 0 {
            let mut pos: usize = 0;
            while pos < r.len() && r[pos] <= c
                invariant
                    pos <= r.len(),
                    forall|i: int| 0 <= i < pos ==> r[i] <= c,
                decreases r.len() - pos,
            {
                pos += 1;
            }
            let ghost prev = r@;
            r.insert(pos, c);
            proof {
                assert(r@ == prev.insert(pos as int, c));
                assert(r@.map_values(|c: usize| c as nat) == prev.map_values(|c: usize| c as nat).insert(
                    pos as int,
                    c as nat,
                ));
                vstd::seq_lib::to_multiset_insert(
                    prev.map_values(|c: usize| c as nat),
                    pos as int,
                    c as nat,
                );
                assert forall|i: int, j: int| 0 <= i < j < r.len() implies r[i] <= r[j] by {
                    if j < pos {
                    } else if j == pos {
                    } else if i < pos {
                        assert(prev[i] <= c);
                        assert(pos < prev.len() ==> c < prev[pos as int]);
                        assert(prev[i] <= prev[j - 1]);
                    } else if i == pos {
                        assert(c < prev[pos as int]);
                        assert(prev[pos as int] <= prev[j - 1]);
                    } else {
                        assert(prev[i - 1] <= prev[j - 1]);
                    }
                }
            }
        }
        v += 1;
    }
    r
}

} // verus!
