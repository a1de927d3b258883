//! How a batch of flight-record files is found and shared out among workers.

use vstd::prelude::*;
use vstd::utf8::encode_utf8;

verus! {

/// Whether the bytes of a path name a file with the extension `bin`: the
/// name ends in `.bin` after at least one other byte of the file name.
pub open spec fn has_bin_extension(b: Seq<u8>) -> bool {
    &&& b.len() > 4
    &&& b[b.len() - 5] != 0x2f  // '/'
    &&& b[b.len() - 4] == 0x2e  // '.'
    &&& b[b.len() - 3] == 0x62  // 'b'
    &&& b[b.len() - 2] == 0x69  // 'i'
    &&& b[b.len() - 1] == 0x6e  // 'n'
}

/// Whether the path `p` names a flight-record file.
pub open spec fn is_bin_file(p: Seq<char>) -> bool {
    has_bin_extension(encode_utf8(p))
}

/// The paths among `entries` that name flight-record files, in order.
pub open spec fn bin_files(entries: Seq<String>) -> Seq<String>
    decreases entries.len(),
{
    if entries.len() == 0 {
        Seq::empty()
    } else if is_bin_file(entries.last()@) {
        bin_files(entries.drop_last()).push(entries.last())
    } else {
        bin_files(entries.drop_last())
    }
}

/// The paths among `entries`, the entries of the scanned directories, that
/// name flight-record files, in the order given.
pub fn find_bin_files(entries: &Vec<String>) -> (r: Vec<String>)
    ensures
        r@ == bin_files(entries@),
{
    let mut bins: Vec<String> = Vec::new();
    let mut i: usize = 0;
    while i < entries.len()
        invariant
            i <= entries@.len(),
            bins@ == bin_files(entries@.take(i as int)),
        decreases entries@.len() - i,
    {
        let path = &entries[i];
        let b = path.as_str().as_bytes();
        let l = b.len();
        let hit = l > 4 && b[l - 5] != 0x2f && b[l - 4] == 0x2e && b[l - 3] == 0x62 && b[l - 2]
            == 0x69 && b[l - 1] == 0x6e;
        proof {
            assert(entries@.take(i + 1).drop_last() == entries@.take(i as int));
            assert(entries@.take(i + 1).last() == *path);
            assert(hit == is_bin_file(path@));
        }
        if hit {
            bins.push(path.clone());
        }
        i = i + 1;
    }
    assert(entries@.take(entries@.len() as int) == entries@);
    bins
}

/// Number of workers for `file_count` files with at most `max_threads`.
pub open spec fn worker_count(file_count: int, max_threads: int) -> int {
    if max_threads < file_count {
        max_threads
    } else {
        file_count
    }
}

/// Files per worker: `file_count` divided by the number of workers, rounded up.
pub open spec fn chunk_size(file_count: int, max_threads: int) -> int {
    let t = worker_count(file_count, max_threads);
    file_count / t + if file_count % t == 0 {
        0int
    } else {
        1int
    }
}

/// Shares `file_count` files out among at most `max_threads` workers: as
/// many contiguous chunks as workers are needed, `[start, end)` each, of
/// `chunk_size` files but the last, which may be shorter. No file gives no
/// chunk.
pub fn work_chunks(file_count: usize, max_threads: usize) -> (r: Vec<(usize, usize)>)
    requires
        max_threads >= 1,
    ensures
        file_count == 0 ==> r@.len() == 0,
        file_count > 0 ==> {
            let size = chunk_size(file_count as int, max_threads as int);
            &&& r@.len() >= 1
            &&& (r@.len() - 1) * size < file_count <= r@.len() * size
            &&& forall|c: int|
                0 <= c < r@.len() ==> (#[trigger] r@[c]).0 == c * size && r@[c].1 == if (c + 1)
                    * size < file_count {
                    (c + 1) * size
                } else {
                    file_count as int
                }
        },
{
    let mut chunks: Vec<(usize, usize)> = Vec::new();
    if file_count == 0 {
        return chunks;
    }
    let threads = if max_threads < file_count {
        max_threads
    } else {
        file_count
    };
    let q = file_count / threads;
    proof {
        assert(q * threads + file_count % threads == file_count) by (nonlinear_arith)
            requires
                threads >= 1,
                q == file_count / threads,
        ;
        assert(q <= file_count) by (nonlinear_arith)
            requires
                threads >= 1,
                q * threads <= file_count,
                q >= 0,
        ;
        if file_count % threads != 0 {
            assert(q < file_count) by (nonlinear_arith)
                requires
                    threads >= 1,
                    q * threads < file_count,
                    q >= 0,
            ;
        }
    }
    let size = if file_count % threads == 0 {
        q
    } else {
        q + 1
    };
    let ghost sz = size as int;
    proof {
        if q == 0 {
            assert(q * threads == 0) by (nonlinear_arith)
                requires
                    q == 0,
            ;
            assert(file_count % threads != 0);
        }
        assert(0 * sz == 0);
    }
    let mut start: usize = 0;
    while start < file_count
        invariant
            sz == size as int,
            size >= 1,
            sz == chunk_size(file_count as int, max_threads as int),
            start <= file_count,
            start == chunks@.len() * sz || start == file_count,
            start < file_count ==> start == chunks@.len() * sz,
            chunks@.len() >= 1 ==> (chunks@.len() - 1) * sz < file_count,
            start == file_count ==> file_count <= chunks@.len() * sz,
            forall|c: int|
                0 <= c < chunks@.len() ==> (#[trigger] chunks@[c]).0 == c * sz && chunks@[c].1
                    == if (c + 1) * sz < file_count {
                    (c + 1) * sz
                } else {
                    file_count as int
                },
        decreases file_count - start,
    {
        let end = if file_count - start <= size {
            file_count
        } else {
            start + size
        };
        proof {
            let c = chunks@.len() as int;
            assert((c + 1) * sz == c * sz + sz) by (nonlinear_arith);
        }
        chunks.push((start, end));
        start = end;
    }
    chunks
}

} // verus!
