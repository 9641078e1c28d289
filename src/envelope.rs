//! A carrier frame held in memory: its parsed header beside the full
//! serialized frame.
use vstd::prelude::*;
use crate::codec::at;
use crate::error::EncodingError;
use crate::header::{fields, header_bytes, lemma_header_round_trip, CarrierFrameHeader, ANNOUNCE};
use crate::types::Address;

verus! {

/// A header and the frame's bytes: the header's bytes, then the payload.
#[derive(Clone, Debug)]
pub struct InMemoryEnvelope {
    pub header: CarrierFrameHeader,
    pub buffer: Vec<u8>,
}

impl View for InMemoryEnvelope {
    type V = (CarrierFrameHeader, Seq<u8>);

    open spec fn view(&self) -> (CarrierFrameHeader, Seq<u8>) {
        (self.header, self.buffer@)
    }
}

impl InMemoryEnvelope {
    /// A copy with the same header and bytes.
    pub fn copy(&self) -> (r: Self)
        ensures
            r@ == self@,
    {
        let buffer = self.buffer.clone();
        assert(buffer@ =~= self.buffer@);
        InMemoryEnvelope { header: self.header, buffer }
    }

    /// The buffer starts with the header's bytes and holds exactly the
    /// payload length that the header announces after them.
    pub open spec fn wf(&self) -> bool {
        &&& at(self.buffer@, 0, header_bytes(self.header))
        &&& self.buffer@.len() == header_bytes(self.header).len() + fields(
            self.header,
        ).payload_length
    }

    /// The payload bytes.
    pub open spec fn payload(&self) -> Seq<u8> {
        self.buffer@.subrange(header_bytes(self.header).len() as int, self.buffer@.len() as int)
    }

    /// An announcement from a random sender with no payload.
    pub fn test_envelope() -> (r: Self)
        ensures
            fields(r.header).modes == ANNOUNCE,
            fields(r.header).payload_length == 0,
            r.wf(),
            r.payload().len() == 0,
            r.buffer@ == header_bytes(r.header),
    {
        let header = CarrierFrameHeader::new_announce_frame(Address::random(), 0);
        let mut buffer: Vec<u8> = Vec::new();
        header.generate(&mut buffer);
        proof {
            lemma_header_round_trip(header, Seq::empty());
            assert(header_bytes(header) + Seq::<u8>::empty() =~= buffer@);
        }
        InMemoryEnvelope { header, buffer }
    }

    /// Serialize `header` and append `payload`. The payload must be as
    /// long as the header says.
    pub fn from_header_and_payload(header: CarrierFrameHeader, payload: Vec<u8>) -> (r: Result<
        Self,
        EncodingError,
    >)
        ensures
            match r {
                Ok(e) => payload@.len() == fields(header).payload_length && e.header == header
                    && e.buffer@ == header_bytes(header) + payload@ && e.wf(),
                Err(err) => payload@.len() != fields(header).payload_length && err
                    == EncodingError::PayloadLength,
            },
    {
        if payload.len() != header.get_payload_length() {
            return Err(EncodingError::PayloadLength);
        }
        let mut buffer: Vec<u8> = Vec::new();
        header.generate(&mut buffer);
        let mut rest = payload;
        buffer.append(&mut rest);
        proof {
            lemma_header_round_trip(header, payload@);
        }
        Ok(InMemoryEnvelope { header, buffer })
    }

    /// Parse a frame from the start of `buf`, keeping the header's bytes
    /// and the payload that it announces; bytes after them are dropped.
    pub fn parse_from_buffer(buf: Vec<u8>) -> (r: Result<Self, EncodingError>)
        ensures
            r matches Ok(e) ==> e.wf() && e.buffer@.len() <= buf@.len() && e.buffer@ == buf@.subrange(
                0,
                e.buffer@.len() as int,
            ),
            r is Ok <==> exists|h: CarrierFrameHeader|
                #[trigger] at(buf@, 0, header_bytes(h)) && buf@.len() >= header_bytes(h).len()
                    + fields(h).payload_length,
            forall|h: CarrierFrameHeader|
                #![trigger header_bytes(h)]
                at(buf@, 0, header_bytes(h)) ==> match r {
                    Ok(e) => e.header == h,
                    Err(err) => err == EncodingError::PayloadLength && buf@.len()
                        < header_bytes(h).len() + fields(h).payload_length,
                },
            r matches Err(e) ==> e == EncodingError::PayloadLength || (if buf@.len() > 0 && buf@[0] != 1 {
                e == EncodingError::InvalidVersion(buf@[0])
            } else {
                e == EncodingError::Parsing
            }),
    {
        let (header, n) = match CarrierFrameHeader::parse(buf.as_slice()) {
            Ok(x) => x,
            Err(e) => return Err(e),
        };
        let total = n + header.get_payload_length();
        if buf.len() < total {
            return Err(EncodingError::PayloadLength);
        }
        assert(at(buf@, 0, header_bytes(header)));
        let mut buffer = buf;
        buffer.truncate(total);
        proof {
            assert(buffer@ =~= buf@.subrange(0, total as int));
            assert(buffer@.subrange(0, n as int) =~= buf@.subrange(0, n as int));
        }
        Ok(InMemoryEnvelope { header, buffer })
    }

    /// The payload: the bytes after the header.
    pub fn get_payload_slice(&self) -> (r: &[u8])
        requires
            self.wf(),
        ensures
            r@ == self.payload(),
    {
        let header_end = self.header.get_size();
        let s = self.buffer.as_slice();
        &s[header_end..s.len()]
    }

    /// The payload, for changing in place; the header bytes stay as they are.
    pub fn mut_payload_slice(&mut self) -> (r: &mut [u8])
        requires
            old(self).wf(),
        ensures
            r@ == old(self).payload(),
            final(self).header == old(self).header,
            final(self).buffer@ == header_bytes(old(self).header) + final(r)@,
    {
        let header_end = self.header.get_size();
        let s = self.buffer.as_mut_slice();
        let (_head, tail) = s.split_at_mut(header_end);
        proof {
            assert(_head@ == header_bytes(self.header));
        }
        tail
    }
}

} // verus!
