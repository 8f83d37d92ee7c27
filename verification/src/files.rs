//! Serving files: from the path of a request to the file that is read,
//! and from its contents to the body that is sent.

use vstd::prelude::*;

verus! {

/// Number of bytes in one piece of a body.
pub const CHUNK_SIZE: usize = 16384;

/// A response to a request for a file.
#[derive(Debug, PartialEq, Eq)]
pub struct FileResponse {
    pub status: u16,
    /// The body, in the pieces in which it is sent.
    pub chunks: Vec<Vec<u8>>,
}

/// The pieces of at most `size` bytes that `data` is sent in: all but
/// the last are full.
pub open spec fn chunks_of(data: Seq<u8>, size: nat) -> Seq<Seq<u8>>
    decreases data.len(),
{
    if data.len() == 0 || size == 0 {
        Seq::empty()
    } else if data.len() <= size {
        seq![data]
    } else {
        seq![data.take(size as int)] + chunks_of(data.skip(size as int), size)
    }
}

/// The bytes of a sequence of pieces, one after the other.
pub open spec fn joined(chunks: Seq<Seq<u8>>) -> Seq<u8>
    decreases chunks.len(),
{
    if chunks.len() == 0 {
        Seq::empty()
    } else {
        chunks[0] + joined(chunks.skip(1))
    }
}

/// The pieces of a body make up the body, and none is empty or longer
/// than asked.
pub proof fn lemma_chunks_join(data: Seq<u8>, size: nat)
    requires
        size > 0,
    ensures
        joined(chunks_of(data, size)) == data,
        forall|i: int|
            0 <= i < chunks_of(data, size).len() ==> 0 < (#[trigger] chunks_of(data, size)[i]).len()
                <= size,
        forall|i: int|
            0 <= i < chunks_of(data, size).len() - 1 ==> (#[trigger] chunks_of(data, size)[i]).len()
                == size,
    decreases data.len(),
{
    let chunks = chunks_of(data, size);
    if data.len() == 0 {
        assert(joined(chunks) =~= data);
    } else if data.len() <= size {
        assert(chunks.skip(1) =~= Seq::<Seq<u8>>::empty());
        assert(joined(chunks.skip(1)) =~= Seq::<u8>::empty());
        assert(joined(chunks) =~= data);
    } else {
        let rest = chunks_of(data.skip(size as int), size);
        lemma_chunks_join(data.skip(size as int), size);
        assert(chunks.skip(1) =~= rest);
        assert(joined(chunks) =~= data.take(size as int) + data.skip(size as int));
        assert(data.take(size as int) + data.skip(size as int) =~= data);
        assert forall|i: int| 0 <= i < chunks.len() implies 0 < (#[trigger] chunks[i]).len()
            <= size by {
            if i > 0 {
                assert(chunks[i] == rest[i - 1]);
            }
        }
        assert forall|i: int| 0 <= i < chunks.len() - 1 implies (#[trigger] chunks[i]).len()
            == size by {
            if i > 0 {
                assert(chunks[i] == rest[i - 1]);
            }
        }
    }
}

/// The body of the response where there is no such file: the bytes of
/// `Not Found`.
pub open spec fn not_found_body() -> Seq<u8> {
    seq![78u8, 111u8, 116u8, 32u8, 70u8, 111u8, 117u8, 110u8, 100u8]
}

/// The views of a vector of byte vectors.
pub open spec fn chunk_views(chunks: Seq<Vec<u8>>) -> Seq<Seq<u8>> {
    Seq::new(chunks.len(), |i: int| chunks[i]@)
}

/// The name of a file below the served directory that the path of a
/// request stands for: the path without its first byte, the slash.
pub fn relative_path(path: &[u8]) -> (name: Vec<u8>)
    requires
        path@.len() >= 1,
    ensures
        name@ == path@.skip(1),
{
    let mut name: Vec<u8> = Vec::new();
    let mut i: usize = 1;
    while i < path.len()
        invariant
            1 <= i <= path@.len(),
            name@ == path@.subrange(1, i as int),
        decreases path@.len() - i,
    {
        name.push(path[i]);
        assert(path@.subrange(1, i + 1) =~= path@.subrange(1, i as int).push(path@[i as int]));
        i += 1;
    }
    assert(path@.subrange(1, path@.len() as int) =~= path@.skip(1));
    name
}

/// Cuts a body into the pieces in which it is sent.
pub fn chunk_body(contents: &[u8]) -> (chunks: Vec<Vec<u8>>)
    ensures
        chunk_views(chunks@) == chunks_of(contents@, CHUNK_SIZE as nat),
        joined(chunk_views(chunks@)) == contents@,
{
    let mut chunks: Vec<Vec<u8>> = Vec::new();
    let mut start: usize = 0;
    let ghost all = chunks_of(contents@, CHUNK_SIZE as nat);
    assert(chunk_views(chunks@) + chunks_of(contents@.skip(0), CHUNK_SIZE as nat) =~= all) by {
        assert(contents@.skip(0) =~= contents@);
    }
    while start < contents.len()
        invariant
            start <= contents@.len(),
            all == chunks_of(contents@, CHUNK_SIZE as nat),
            chunk_views(chunks@) + chunks_of(contents@.skip(start as int), CHUNK_SIZE as nat)
                == all,
        decreases contents@.len() - start,
    {
        let left = contents.len() - start;
        let len = if left <= CHUNK_SIZE {
            left
        } else {
            CHUNK_SIZE
        };
        let mut chunk: Vec<u8> = Vec::new();
        let mut i: usize = 0;
        while i < len
            invariant
                i <= len,
                start + len <= contents@.len(),
                contents@.len() <= usize::MAX,
                chunk@ == contents@.subrange(start as int, start + i),
            decreases len - i,
        {
            chunk.push(contents[start + i]);
            assert(contents@.subrange(start as int, start + i + 1) =~= contents@.subrange(
                start as int,
                start + i,
            ).push(contents@[start + i]));
            i += 1;
        }
        let ghost before = chunk_views(chunks@);
        let ghost rest = contents@.skip(start as int);
        proof {
            assert(chunk@ =~= rest.take(len as int));
            if left <= CHUNK_SIZE {
                assert(rest.take(len as int) =~= rest);
                assert(contents@.skip(start + len) =~= Seq::<u8>::empty());
            } else {
                assert(rest.skip(CHUNK_SIZE as int) =~= contents@.skip(start + len));
            }
        }
        chunks.push(chunk);
        proof {
            assert(chunk_views(chunks@) =~= before.push(rest.take(len as int)));
            assert(chunks_of(rest, CHUNK_SIZE as nat) =~= seq![rest.take(len as int)] + chunks_of(
                contents@.skip(start + len),
                CHUNK_SIZE as nat,
            ));
            assert(before.push(rest.take(len as int)) + chunks_of(
                contents@.skip(start + len),
                CHUNK_SIZE as nat,
            ) =~= before + chunks_of(rest, CHUNK_SIZE as nat));
        }
        start = start + len;
    }
    proof {
        assert(contents@.skip(start as int) =~= Seq::<u8>::empty());
        assert(chunk_views(chunks@) + Seq::<Seq<u8>>::empty() =~= chunk_views(chunks@));
        lemma_chunks_join(contents@, CHUNK_SIZE as nat);
    }
    chunks
}

/// The response to a request for a file, given the contents that were
/// read, or nothing where there is no such file.
pub fn handle_request(contents: Option<&[u8]>) -> (response: FileResponse)
    ensures
        match contents {
            Some(bytes) => response.status == 200 && chunk_views(response.chunks@) == chunks_of(
                bytes@,
                CHUNK_SIZE as nat,
            ) && joined(chunk_views(response.chunks@)) == bytes@,
            None => response.status == 404 && chunk_views(response.chunks@) == seq![
                not_found_body(),
            ],
        },
{
    match contents {
        Some(bytes) => FileResponse { status: 200, chunks: chunk_body(bytes) },
        None => {
            let mut body: Vec<u8> = Vec::new();
            body.push(78u8);
            body.push(111u8);
            body.push(116u8);
            body.push(32u8);
            body.push(70u8);
            body.push(111u8);
            body.push(117u8);
            body.push(110u8);
            body.push(100u8);
            assert(body@ =~= not_found_body());
            let mut chunks: Vec<Vec<u8>> = Vec::new();
            let ghost b = body@;
            chunks.push(body);
            assert(chunk_views(chunks@) =~= seq![b]);
            FileResponse { status: 404, chunks }
        },
    }
}

} // verus!
