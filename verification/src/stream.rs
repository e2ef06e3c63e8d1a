//! The response-side decisions of one connection: whether the HTTP status
//! opens a stream at all, and the copy loop that drains a stream into a sink.
//! The transport hands in plain values (a status code, the chunks it read);
//! everything decided over them is verified here.

use vstd::prelude::*;

verus! {

/// Why a connection or copy failed.
#[derive(PartialEq, Eq, Structural, Clone, Copy, Debug)]
pub enum StreamError {
    /// The server answered with a status other than 200.
    Status(u16),
}

/// Gates a response on its status: only 200 opens a stream, any other status
/// is fatal and carries the observed code.
pub fn accept_status(code: u16) -> (r: Result<(), StreamError>)
    ensures
        r is Ok <==> code == 200,
        r is Err ==> r->Err_0 == StreamError::Status(code),
{
    if code == 200 {
        Ok(())
    } else {
        Err(StreamError::Status(code))
    }
}

/// The byte strings of a chunk list.
pub open spec fn chunks_view(cs: Seq<Vec<u8>>) -> Seq<Seq<u8>> {
    cs.map_values(|c: Vec<u8>| c@)
}

/// All chunks, concatenated in order.
pub open spec fn concat_chunks(cs: Seq<Seq<u8>>) -> Seq<u8>
    decreases cs.len(),
{
    if cs.len() == 0 {
        Seq::empty()
    } else {
        cs[0] + concat_chunks(cs.skip(1))
    }
}

/// The total length of a chunk list.
pub open spec fn total_len(cs: Seq<Seq<u8>>) -> nat
    decreases cs.len(),
{
    if cs.len() == 0 {
        0
    } else {
        cs[0].len() + total_len(cs.skip(1))
    }
}

/// Concatenation loses and invents nothing: its length is the total length.
pub proof fn lemma_concat_chunks_len(cs: Seq<Seq<u8>>)
    ensures
        concat_chunks(cs).len() == total_len(cs),
    decreases cs.len(),
{
    if cs.len() > 0 {
        lemma_concat_chunks_len(cs.skip(1));
    }
}

/// The copy pump over a finished stream: the sink receives exactly the bytes
/// the stream delivered, in order.
pub fn pump_chunks(chunks: &Vec<Vec<u8>>) -> (r: Vec<u8>)
    ensures
        r@ == concat_chunks(chunks_view(chunks@)),
        r@.len() == total_len(chunks_view(chunks@)),
{
    proof {
        lemma_concat_chunks_len(chunks_view(chunks@));
    }
    let mut out: Vec<u8> = Vec::new();
    let mut i: usize = 0;
    proof {
        assert(chunks_view(chunks@).skip(0) =~= chunks_view(chunks@));
    }
    while i < chunks.len()
        invariant
            i <= chunks@.len(),
            concat_chunks(chunks_view(chunks@)) == out@ + concat_chunks(
                chunks_view(chunks@).skip(i as int),
            ),
        decreases chunks@.len() - i,
    {
        proof {
            assert(chunks_view(chunks@).skip(i as int)[0] == chunks@[i as int]@);
            assert(chunks_view(chunks@).skip(i as int).skip(1) =~= chunks_view(chunks@).skip(
                i as int + 1,
            ));
        }
        crate::params::append_bytes(&mut out, &chunks[i]);
        i = i + 1;
    }
    proof {
        assert(chunks_view(chunks@).skip(chunks@.len() as int) =~= Seq::<Seq<u8>>::empty());
        assert(out@ + concat_chunks(chunks_view(chunks@).skip(chunks@.len() as int)) =~= out@);
    }
    out
}

} // verus!
