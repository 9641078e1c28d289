//! The send path: a client's letterhead and uploaded payload become one
//! sequence of data frames per recipient.
use vstd::prelude::*;
use crate::collector::{frame_count, slice_message, sliced};
use crate::envelope::InMemoryEnvelope;
use crate::error::ClientError;
use crate::types::{Address, Ident32, Recipient};

verus! {

/// What a client declares before uploading a payload to send.
#[derive(Clone, Debug)]
pub struct Letterhead {
    pub sender: Address,
    /// One recipient for `SEND/ONE` and `SEND/FLOOD`, several for `SEND/MANY`.
    pub recipients: Vec<Recipient>,
    pub payload_length: u64,
}

/// Turn an upload into frames: one sequence per recipient, under the hash
/// given for it, each carrying the whole payload in chunks of at most
/// `chunk` bytes. An upload shorter or longer than the letterhead says is
/// refused, as is a letterhead without a hash for each recipient.
pub fn frames_for_send(
    letterhead: &Letterhead,
    hashes: &Vec<Ident32>,
    payload: &[u8],
    chunk: u16,
) -> (r: Result<Vec<Vec<InMemoryEnvelope>>, ClientError>)
    requires
        chunk > 0,
        frame_count(payload@.len(), chunk as nat) <= u32::MAX,
    ensures
        match r {
            Ok(out) => {
                &&& payload@.len() == letterhead.payload_length
                &&& hashes@.len() == letterhead.recipients@.len()
                &&& out@.len() == letterhead.recipients@.len()
                &&& forall|i: int| 0 <= i < out@.len() ==> sliced(
                    (#[trigger] out@[i])@,
                    letterhead.sender,
                    letterhead.recipients@[i],
                    hashes@[i],
                    payload@,
                    chunk,
                )
            },
            Err(e) => e == ClientError::MissingField && (payload@.len() != letterhead.payload_length
                || hashes@.len() != letterhead.recipients@.len()),
        },
{
    if payload.len() as u64 != letterhead.payload_length || hashes.len() != letterhead.recipients.len() {
        return Err(ClientError::MissingField);
    }
    let mut out: Vec<Vec<InMemoryEnvelope>> = Vec::new();
    let mut i: usize = 0;
    while i < hashes.len()
        invariant
            0 <= i <= hashes@.len(),
            hashes@.len() == letterhead.recipients@.len(),
            chunk > 0,
            frame_count(payload@.len(), chunk as nat) <= u32::MAX,
            out@.len() == i,
            forall|k: int| 0 <= k < i ==> sliced(
                (#[trigger] out@[k])@,
                letterhead.sender,
                letterhead.recipients@[k],
                hashes@[k],
                payload@,
                chunk,
            ),
        decreases hashes@.len() - i,
    {
        let frames = slice_message(letterhead.sender, letterhead.recipients[i], hashes[i], payload, chunk);
        out.push(frames);
        i = i + 1;
    }
    Ok(out)
}

} // verus!
