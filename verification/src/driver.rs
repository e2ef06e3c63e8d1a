//! The fan-out driver's decisions: the per-replica output file name, and the
//! outcome each replica owes for what its connection delivered. Each replica
//! is a function of its own input alone; the driver around it only spawns,
//! joins and performs I/O.

use vstd::prelude::*;
use crate::decimal::{dec_digits, dec_u64};
use crate::stream::{accept_status, chunks_view, concat_chunks, pump_chunks, StreamError};

verus! {

/// The byte string `stream_`.
pub open spec fn path_prefix() -> Seq<u8> {
    seq![0x73u8, 0x74, 0x72, 0x65, 0x61, 0x6d, 0x5f]
}

/// The byte string `.dat`.
pub open spec fn path_suffix() -> Seq<u8> {
    seq![0x2eu8, 0x64, 0x61, 0x74]
}

/// The output file name of replica `i`: `stream_<i>.dat`.
pub open spec fn output_path(i: nat) -> Seq<u8> {
    path_prefix() + dec_digits(i) + path_suffix()
}

/// Renders the output file name of replica `i`.
pub fn output_path_for(i: u64) -> (r: Vec<u8>)
    ensures
        r@ == output_path(i as nat),
{
    let mut r: Vec<u8> = vec![0x73u8, 0x74, 0x72, 0x65, 0x61, 0x6d, 0x5f];
    proof {
        assert(r@ =~= path_prefix());
    }
    let digits = dec_u64(i);
    crate::params::append_bytes(&mut r, &digits);
    let suffix: Vec<u8> = vec![0x2eu8, 0x64, 0x61, 0x74];
    proof {
        assert(suffix@ =~= path_suffix());
    }
    crate::params::append_bytes(&mut r, &suffix);
    r
}

/// What one replica's connection delivered: the HTTP status, and the body
/// chunks that were read before the stream ended.
pub struct ReplicaInput {
    pub status: u16,
    pub chunks: Vec<Vec<u8>>,
}

/// How one replica ended.
pub enum ReplicaOutcome {
    /// The stream was accepted and fully drained into these bytes.
    Dumped(Vec<u8>),
    /// The connection was refused with this status; nothing was written.
    Refused(u16),
}

/// The outcome a replica owes for a delivery: a 200 status dumps exactly the
/// streamed bytes, any other status is refused with its code.
pub open spec fn outcome_ok(o: ReplicaOutcome, status: u16, chunks: Seq<Seq<u8>>) -> bool {
    match o {
        ReplicaOutcome::Dumped(bytes) => status == 200 && bytes@ == concat_chunks(chunks),
        ReplicaOutcome::Refused(c) => status != 200 && c == status,
    }
}

/// An outcome reduced to plain values, for comparing outcomes.
pub open spec fn outcome_view(o: ReplicaOutcome) -> (bool, Seq<u8>, u16) {
    match o {
        ReplicaOutcome::Dumped(bytes) => (true, bytes@, 0u16),
        ReplicaOutcome::Refused(c) => (false, Seq::empty(), c),
    }
}

/// Runs one replica over what its own connection delivered.
pub fn run_replica(inp: &ReplicaInput) -> (r: ReplicaOutcome)
    ensures
        outcome_ok(r, inp.status, chunks_view(inp.chunks@)),
{
    match accept_status(inp.status) {
        Ok(()) => ReplicaOutcome::Dumped(pump_chunks(&inp.chunks)),
        Err(StreamError::Status(c)) => ReplicaOutcome::Refused(c),
    }
}

/// Runs every replica; each outcome answers to that replica's own input and
/// nothing else.
pub fn run_replicas(inps: &Vec<ReplicaInput>) -> (rs: Vec<ReplicaOutcome>)
    ensures
        rs@.len() == inps@.len(),
        forall|i: int|
            0 <= i < inps@.len() ==> outcome_ok(
                #[trigger] rs@[i],
                inps@[i].status,
                chunks_view(inps@[i].chunks@),
            ),
{
    let mut rs: Vec<ReplicaOutcome> = Vec::new();
    let mut i: usize = 0;
    while i < inps.len()
        invariant
            i <= inps@.len(),
            rs@.len() == i,
            forall|k: int|
                0 <= k < i ==> outcome_ok(
                    #[trigger] rs@[k],
                    inps@[k].status,
                    chunks_view(inps@[k].chunks@),
                ),
        decreases inps@.len() - i,
    {
        let o = run_replica(&inps[i]);
        rs.push(o);
        i = i + 1;
    }
    rs
}

/// Replica isolation: the outcome owed for a given status and chunk list is
/// unique, so a replica's result cannot depend on any other replica's fate.
pub proof fn lemma_replica_isolation(
    o1: ReplicaOutcome,
    o2: ReplicaOutcome,
    status: u16,
    chunks: Seq<Seq<u8>>,
)
    requires
        outcome_ok(o1, status, chunks),
        outcome_ok(o2, status, chunks),
    ensures
        outcome_view(o1) == outcome_view(o2),
{
}

} // verus!
