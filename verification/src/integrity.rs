//! A reverse block hash chain for file integrity: the data is cut into
//! fixed-size chunks, the trailing remainder first, and each chunk is
//! hashed together with the previous chunk's digest, so the final digest
//! authenticates the whole sequence from front to back.

use vstd::prelude::*;

use sha2::Digest;

verus! {

/// The chunk size of the hash chain, in bytes.
pub const CHUNK_LEN: usize = 1024;

/// What SHA-256 returns on the given bytes.
pub uninterp spec fn sha256_of(data: Seq<u8>) -> Seq<u8>;

/// Relies on sha2's Sha256: the digest is a pure function of the input
/// bytes and is 32 bytes long.
#[verifier::external_body]
pub fn sha256(data: &Vec<u8>) -> (r: Vec<u8>)
    ensures
        r@ == sha256_of(data@),
        r@.len() == 32,
{
    sha2::Sha256::digest(data.as_slice()).to_vec()
}

/// How many chunks the reverse iteration yields: every whole chunk plus
/// the trailing remainder, which is empty when the length is an exact
/// multiple of the chunk size.
pub open spec fn num_chunks(data: Seq<u8>) -> int {
    (data.len() as int) / (CHUNK_LEN as int) + 1
}

/// The `i`-th chunk the reverse iteration visits: the trailing remainder
/// first, then the whole chunks, moving toward the front of the data.
pub open spec fn rev_chunk(data: Seq<u8>, i: int) -> Seq<u8> {
    let len = data.len() as int;
    let rem = len % (CHUNK_LEN as int);
    if i == 0 {
        data.subrange(len - rem, len)
    } else {
        data.subrange(
            len - rem - (CHUNK_LEN as int) * i,
            len - rem - (CHUNK_LEN as int) * (i - 1),
        )
    }
}

/// The chained digests: the first covers the trailing chunk alone, and
/// each later one covers its chunk with the previous digest appended.
pub open spec fn hash_chain(data: Seq<u8>, i: int) -> Seq<u8>
    decreases i when i >= 0
{
    if i <= 0 {
        sha256_of(rev_chunk(data, 0))
    } else {
        sha256_of(rev_chunk(data, i) + hash_chain(data, i - 1))
    }
}

/// Copies `data[start..end]`.
fn copy_range(data: &Vec<u8>, start: usize, end: usize) -> (r: Vec<u8>)
    requires
        start <= end <= data@.len(),
    ensures
        r@ == data@.subrange(start as int, end as int),
{
    let mut r: Vec<u8> = Vec::new();
    let mut i: usize = start;
    while i < end
        invariant
            start <= i <= end <= data@.len(),
            r@.len() == i - start,
            forall|t: int| start <= t < i ==> r@[t - start] == data@[t],
        decreases end - i,
    {
        r.push(data[i]);
        i = i + 1;
    }
    proof {
        assert(r@ =~= data@.subrange(start as int, end as int));
    }
    r
}

/// Computes the whole reverse hash chain of `data`: element `i` of the
/// result is the digest of chunk `i` chained onto element `i - 1`.
pub fn get_block_hashes(data: &Vec<u8>) -> (r: Vec<Vec<u8>>)
    ensures
        r@.len() == num_chunks(data@),
        forall|t: int| 0 <= t < r@.len() ==> #[trigger] r@[t]@ == hash_chain(data@, t),
{
    let len = data.len();
    let rem = len % CHUNK_LEN;
    let whole = len / CHUNK_LEN;
    let total = whole + 1;
    proof {
        assert(CHUNK_LEN * whole + rem == len) by (nonlinear_arith)
            requires
                whole == len / CHUNK_LEN,
                rem == len % CHUNK_LEN,
                CHUNK_LEN == 1024,
        ;
    }
    let mut res: Vec<Vec<u8>> = Vec::new();
    let mut i: usize = 0;
    while i < total
        invariant
            data@.len() == len,
            rem == len % CHUNK_LEN,
            whole == len / CHUNK_LEN,
            CHUNK_LEN * whole + rem == len,
            total == whole + 1,
            i <= total,
            res@.len() == i,
            forall|t: int| 0 <= t < i ==> #[trigger] res@[t]@ == hash_chain(data@, t),
            forall|t: int| 0 <= t < i ==> #[trigger] res@[t]@.len() == 32,
        decreases total - i,
    {
        let mut buf: Vec<u8>;
        if i == 0 {
            buf = copy_range(data, len - rem, len);
        } else {
            proof {
                assert(CHUNK_LEN * i <= CHUNK_LEN * whole) by (nonlinear_arith)
                    requires
                        i <= whole,
                        CHUNK_LEN == 1024,
                ;
                assert(CHUNK_LEN * (i - 1) == CHUNK_LEN * i - CHUNK_LEN) by (nonlinear_arith);
            }
            let start = len - rem - CHUNK_LEN * i;
            let end = len - rem - CHUNK_LEN * (i - 1);
            buf = copy_range(data, start, end);
            let ghost chunk = buf@;
            let prev_hash_len = res[i - 1].len();
            let mut t: usize = 0;
            while t < prev_hash_len
                invariant
                    0 < i < res@.len() + 1,
                    res@.len() >= i,
                    res@[i - 1]@.len() == prev_hash_len,
                    t <= prev_hash_len,
                    buf@ == chunk + res@[i - 1]@.take(t as int),
                decreases prev_hash_len - t,
            {
                let b = res[i - 1][t];
                buf.push(b);
                proof {
                    assert(buf@ =~= chunk + res@[i - 1]@.take(t as int + 1));
                }
                t = t + 1;
            }
            proof {
                assert(res@[i - 1]@.take(prev_hash_len as int) =~= res@[i - 1]@);
                assert(buf@ == chunk + res@[i - 1]@);
                assert(chunk == rev_chunk(data@, i as int));
            }
        }
        let h = sha256(&buf);
        proof {
            if i == 0 {
                assert(buf@ == rev_chunk(data@, 0));
            } else {
                assert(res@[i - 1]@ == hash_chain(data@, i as int - 1));
                assert(h@ == hash_chain(data@, i as int));
            }
        }
        res.push(h);
        i = i + 1;
    }
    res
}

} // verus!
