//! Assembly of the encoded sample buffer.
//!
//! The output file's body is the concatenation, in note order, of each
//! note's burst of encoded samples.  Note order is musically significant:
//! the concatenation here states it exactly, so no reordering or loss can
//! slip in between quantization and the file encoder.
use vstd::prelude::*;

verus! {

/// The samples that a list of bursts yields: each burst's samples, in burst
/// order, earlier bursts first.
pub open spec fn samples_of(bursts: Seq<Vec<i16>>) -> Seq<i16>
    decreases bursts.len(),
{
    if bursts.len() == 0 {
        Seq::empty()
    } else {
        samples_of(bursts.drop_last()) + bursts.last()@
    }
}

/// Concatenates the bursts into one encoded sample buffer, preserving note
/// order exactly.
pub fn concat_bursts(bursts: &Vec<Vec<i16>>) -> (out: Vec<i16>)
    ensures
        out@ == samples_of(bursts@),
{
    let mut out: Vec<i16> = Vec::new();
    let mut k: usize = 0;
    proof {
        assert(bursts@.take(0) =~= Seq::<Vec<i16>>::empty());
    }
    while k < bursts.len()
        invariant
            k <= bursts@.len(),
            out@ == samples_of(bursts@.take(k as int)),
        decreases bursts@.len() - k,
    {
        let burst: &Vec<i16> = &bursts[k];
        let ghost prefix = out@;
        let mut j: usize = 0;
        while j < burst.len()
            invariant
                j <= burst@.len(),
                k < bursts@.len(),
                burst@ == bursts@[k as int]@,
                out@ == prefix + burst@.take(j as int),
            decreases burst@.len() - j,
        {
            out.push(burst[j]);
            proof {
                assert(prefix + burst@.take(j + 1) =~= (prefix + burst@.take(j as int)).push(
                    burst@[j as int],
                ));
            }
            j += 1;
        }
        proof {
            let upto = bursts@.take(k + 1);
            assert(upto.drop_last() =~= bursts@.take(k as int));
            assert(burst@.take(j as int) =~= burst@);
            assert(out@ == samples_of(upto));
        }
        k += 1;
    }
    proof {
        assert(bursts@.take(bursts@.len() as int) =~= bursts@);
    }
    out
}

} // verus!
