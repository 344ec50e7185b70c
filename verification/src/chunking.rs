//! Chunking layer: splits a file's bytes into fixed-size chunks and
//! reassembles them in index order.
//!
//! A zero-byte file yields a single zero-length chunk, so it is still
//! protected; a file whose size is an exact multiple of the chunk size has no
//! trailing short chunk.

use vstd::prelude::*;
use crate::codec::shards_view;

verus! {

/// The chunks of `data` in file layout order: full chunks of `chunk_size`
/// bytes, then whatever remains (possibly shorter, never empty unless the
/// whole file is empty).
pub open spec fn chunks_of(data: Seq<u8>, chunk_size: int) -> Seq<Seq<u8>>
    decreases data.len(),
{
    if chunk_size < 1 {
        Seq::empty()
    } else if data.len() <= chunk_size {
        seq![data]
    } else {
        seq![data.take(chunk_size)] + chunks_of(data.skip(chunk_size), chunk_size)
    }
}

/// Chunking loses nothing: the chunks of a file concatenate back to the
/// file, every chunk fits the chunk size, and only the final chunk may be
/// shorter.
pub proof fn lemma_chunks_round_trip(data: Seq<u8>, chunk_size: int)
    requires
        1 <= chunk_size,
    ensures
        chunks_of(data, chunk_size).flatten() == data,
        chunks_of(data, chunk_size).len() >= 1,
        forall|i: int|
            0 <= i < chunks_of(data, chunk_size).len() ==> (#[trigger] chunks_of(
                data,
                chunk_size,
            )[i]).len() <= chunk_size,
        forall|i: int|
            0 <= i < chunks_of(data, chunk_size).len() - 1 ==> (#[trigger] chunks_of(
                data,
                chunk_size,
            )[i]).len() == chunk_size,
    decreases data.len(),
{
    if data.len() <= chunk_size {
        assert(chunks_of(data, chunk_size) == seq![data]);
        assert(seq![data].drop_first() =~= Seq::<Seq<u8>>::empty());
        assert(Seq::<Seq<u8>>::empty().flatten() =~= Seq::<u8>::empty());
        assert(seq![data].flatten() =~= data);
    } else {
        let head = data.take(chunk_size);
        let tail = data.skip(chunk_size);
        lemma_chunks_round_trip(tail, chunk_size);
        vstd::seq_lib::lemma_flatten_concat(seq![head], chunks_of(tail, chunk_size));
        assert(seq![head].drop_first() =~= Seq::<Seq<u8>>::empty());
        assert(Seq::<Seq<u8>>::empty().flatten() =~= Seq::<u8>::empty());
        assert(seq![head].flatten() =~= head);
        assert(head + tail =~= data);
        assert(chunks_of(data, chunk_size).flatten() == data);
    }
}

/// Splits a file's bytes into chunks of `chunk_size` bytes in file layout
/// order; the final chunk holds the remainder.
pub fn split(data: &[u8], chunk_size: usize) -> (r: Vec<Vec<u8>>)
    requires
        1 <= chunk_size,
    ensures
        shards_view(r@) == chunks_of(data@, chunk_size as int),
{
    let len = data.len();
    let mut r: Vec<Vec<u8>> = Vec::new();
    let mut pos: usize = 0;
    proof {
        assert(data@.skip(0) =~= data@);
        assert(shards_view(r@) =~= Seq::<Seq<u8>>::empty());
        assert(shards_view(r@) + chunks_of(data@, chunk_size as int) =~= chunks_of(
            data@,
            chunk_size as int,
        ));
    }
    while len - pos > chunk_size
        invariant
            1 <= chunk_size,
            len == data@.len(),
            pos <= len,
            chunks_of(data@, chunk_size as int) =~= shards_view(r@) + chunks_of(
                data@.skip(pos as int),
                chunk_size as int,
            ),
        decreases len - pos,
    {
        let mut chunk: Vec<u8> = Vec::new();
        let mut k: usize = 0;
        while k < chunk_size
            invariant
                pos + chunk_size <= len,
                len == data@.len(),
                k <= chunk_size,
                chunk@ =~= data@.subrange(pos as int, pos as int + k as int),
            decreases chunk_size - k,
        {
            chunk.push(data[pos + k]);
            k += 1;
        }
        proof {
            let rest = data@.skip(pos as int);
            assert(chunk@ =~= rest.take(chunk_size as int));
            assert(rest.skip(chunk_size as int) =~= data@.skip(pos as int + chunk_size as int));
            assert(shards_view(r@.push(chunk)) =~= shards_view(r@) + seq![chunk@]);
            assert(shards_view(r@) + chunks_of(rest, chunk_size as int) =~= shards_view(
                r@.push(chunk),
            ) + chunks_of(rest.skip(chunk_size as int), chunk_size as int));
        }
        r.push(chunk);
        pos += chunk_size;
    }
    let mut last: Vec<u8> = Vec::new();
    let mut k: usize = pos;
    while k < len
        invariant
            pos <= k <= len,
            len == data@.len(),
            last@ =~= data@.subrange(pos as int, k as int),
        decreases len - k,
    {
        last.push(data[k]);
        k += 1;
    }
    proof {
        let rest = data@.skip(pos as int);
        assert(last@ =~= rest);
        assert(chunks_of(rest, chunk_size as int) == seq![rest]);
        assert(shards_view(r@.push(last)) =~= shards_view(r@) + seq![last@]);
        assert(shards_view(r@) + seq![rest] =~= shards_view(r@.push(last)));
    }
    r.push(last);
    r
}

/// Reassembles a file from its chunks in index order.
pub fn join(chunks: &Vec<Vec<u8>>) -> (r: Vec<u8>)
    requires
        shards_view(chunks@).flatten().len() <= usize::MAX,
    ensures
        r@ == shards_view(chunks@).flatten(),
{
    let mut out: Vec<u8> = Vec::new();
    let mut i: usize = 0;
    proof {
        assert(shards_view(chunks@.take(0)) =~= Seq::<Seq<u8>>::empty());
        assert(Seq::<Seq<u8>>::empty().flatten() =~= Seq::<u8>::empty());
    }
    while i < chunks.len()
        invariant
            i <= chunks@.len(),
            shards_view(chunks@).flatten().len() <= usize::MAX,
            out@ == shards_view(chunks@.take(i as int)).flatten(),
        decreases chunks@.len() - i,
    {
        proof {
            assert(shards_view(chunks@.take(i as int + 1)) =~= shards_view(
                chunks@.take(i as int),
            ).push(chunks@[i as int]@));
            shards_view(chunks@.take(i as int)).lemma_flatten_push(chunks@[i as int]@);
            lemma_flatten_take_prefix(shards_view(chunks@), i as int + 1);
            assert(shards_view(chunks@).take(i as int + 1) =~= shards_view(
                chunks@.take(i as int + 1),
            ));
            assert(shards_view(chunks@.take(i as int + 1)).flatten() == shards_view(
                chunks@.take(i as int),
            ).flatten() + chunks@[i as int]@);
            assert(shards_view(chunks@.take(i as int)).flatten().len() + chunks@[i as int]@.len()
                <= shards_view(chunks@).flatten().len());
        }
        let chunk = &chunks[i];
        let mut j: usize = 0;
        while j < chunk.len()
            invariant
                0 <= i < chunks@.len(),
                chunk == &chunks@[i as int],
                j <= chunk@.len(),
                shards_view(chunks@).flatten().len() <= usize::MAX,
                out@ == shards_view(chunks@.take(i as int)).flatten() + chunk@.take(j as int),
                out@.len() + (chunk@.len() - j) <= usize::MAX,
            decreases chunk@.len() - j,
        {
            out.push(chunk[j]);
            proof {
                assert(out@ =~= shards_view(chunks@.take(i as int)).flatten() + chunk@.take(
                    j as int + 1,
                ));
            }
            j += 1;
        }
        proof {
            assert(chunk@.take(chunk@.len() as int) =~= chunk@);
        }
        i += 1;
    }
    proof {
        assert(chunks@.take(chunks@.len() as int) =~= chunks@);
    }
    out
}

/// The flattening of a prefix is a prefix of the flattening.
proof fn lemma_flatten_take_prefix(rows: Seq<Seq<u8>>, i: int)
    requires
        0 <= i <= rows.len(),
    ensures
        rows.take(i).flatten().len() <= rows.flatten().len(),
    decreases i, rows.len(),
{
    if i == 0 {
        assert(rows.take(0) =~= Seq::<Seq<u8>>::empty());
        assert(Seq::<Seq<u8>>::empty().flatten() =~= Seq::<u8>::empty());
    } else if rows.len() > 0 {
        assert(rows.take(i).drop_first() =~= rows.drop_first().take(i - 1));
        lemma_flatten_take_prefix(rows.drop_first(), i - 1);
    }
}

} // verus!
