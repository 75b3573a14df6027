//! The replication wire frame and the fan-out of a block to its replicas.
use vstd::prelude::*;

verus! {

/// Version of the block transfer protocol.
pub const PROTOCOL_VERSION: u16 = 28;

/// Operation code of a block transfer.
pub const TRANSFER_OP: u8 = 82;

/// The two bytes of `n`, most significant first.
pub open spec fn be_bytes(n: u16) -> Seq<u8> {
    seq![(n / 256) as u8, (n % 256) as u8]
}

/// Relies on byteorder's `BigEndian::write_u16`: it stores `n` in the first two
/// bytes of the buffer, most significant first (the buffer has two bytes, so it
/// does not panic).
#[verifier::external_body]
fn write_be_u16(n: u16) -> (r: Vec<u8>)
    ensures
        r@ == be_bytes(n),
{
    let mut buf = vec![0u8; 2];
    <byteorder::BigEndian as byteorder::ByteOrder>::write_u16(&mut buf, n);
    buf
}

/// The header that opens a block transfer: the protocol version, then the
/// operation code.
pub open spec fn header() -> Seq<u8> {
    be_bytes(PROTOCOL_VERSION).push(TRANSFER_OP)
}

/// The message that carries a block to a replica: the header, the
/// length-delimited metadata record, then the data file's bytes. The payload
/// carries no length of its own: the receiver takes it from the metadata.
pub fn transfer_message(metadata_record: &Vec<u8>, file: &Vec<u8>) -> (r: Vec<u8>)
    ensures
        r@ == header() + metadata_record@ + file@,
{
    let mut out = write_be_u16(PROTOCOL_VERSION);
    out.push(TRANSFER_OP);
    let mut i: usize = 0;
    while i < metadata_record.len()
        invariant
            i <= metadata_record@.len(),
            out@ == header() + metadata_record@.take(i as int),
        decreases metadata_record.len() - i,
    {
        out.push(metadata_record[i]);
        i = i + 1;
        assert(out@ =~= header() + metadata_record@.take(i as int));
    }
    assert(metadata_record@.take(i as int) =~= metadata_record@);
    let mut j: usize = 0;
    while j < file.len()
        invariant
            j <= file@.len(),
            out@ == header() + metadata_record@ + file@.take(j as int),
        decreases file.len() - j,
    {
        out.push(file[j]);
        j = j + 1;
        assert(out@ =~= header() + metadata_record@ + file@.take(j as int));
    }
    assert(file@.take(j as int) =~= file@);
    out
}

/// The progress of delivering one block to its replicas, one at a time. Each
/// replica is tried once; a failed delivery is recorded and the next replica is
/// tried all the same.
pub struct FanOut {
    pub replicas: usize,
    pub delivered: Vec<bool>,
}

impl FanOut {
    /// A fan-out to `replicas` replicas, none tried yet.
    pub fn new(replicas: usize) -> (r: FanOut)
        ensures
            r.replicas == replicas,
            r.delivered@.len() == 0,
    {
        FanOut { replicas, delivered: Vec::new() }
    }

    /// The replica to try next, or `None` when every one has been tried.
    pub fn next_replica(&self) -> (r: Option<usize>)
        ensures
            r == offered(*self),
    {
        if self.delivered.len() < self.replicas {
            Some(self.delivered.len())
        } else {
            None
        }
    }

    /// Records the outcome of the delivery to the replica last offered.
    pub fn record(&mut self, delivered: bool)
        requires
            old(self).delivered@.len() < old(self).replicas,
        ensures
            final(self).replicas == old(self).replicas,
            final(self).delivered@ == old(self).delivered@.push(delivered),
    {
        self.delivered.push(delivered);
    }

    /// The replicas whose delivery failed, in order.
    pub fn failed(&self) -> (r: Vec<usize>)
        ensures
            forall|k: int| 0 <= k < r@.len() ==> r@[k] < self.delivered@.len() && !self.delivered@[r@[k] as int],
            forall|i: int| 0 <= i < self.delivered@.len() && !self.delivered@[i] ==> r@.contains(i as usize),
    {
        let mut r: Vec<usize> = Vec::new();
        let mut i: usize = 0;
        while i < self.delivered.len()
            invariant
                i <= self.delivered@.len(),
                forall|k: int| 0 <= k < r@.len() ==> r@[k] < i && !self.delivered@[r@[k] as int],
                forall|m: int| 0 <= m < i && !self.delivered@[m] ==> r@.contains(m as usize),
            decreases self.delivered.len() - i,
        {
            if !self.delivered[i] {
                let ghost prev = r@;
                r.push(i);
                assert(r@[r@.len() - 1] == i);
                assert forall|m: int| 0 <= m < i && !self.delivered@[m] implies r@.contains(
                    m as usize,
                ) by {
                    let k = choose|k: int| 0 <= k < prev.len() && prev[k] == m as usize;
                    assert(r@[k] == prev[k]);
                }
            }
            i = i + 1;
        }
        r
    }
}

/// The replica that a fan-out offers next: the first one not yet tried.
pub open spec fn offered(s: FanOut) -> Option<usize> {
    if s.delivered@.len() < s.replicas {
        Some(s.delivered@.len() as usize)
    } else {
        None
    }
}

/// A failed delivery does not stop the fan-out: two fan-outs to as many
/// replicas that have recorded as many outcomes, whatever those outcomes were,
/// offer the same replica next; so every replica is tried.
pub proof fn lemma_failures_do_not_stop(a: FanOut, b: FanOut)
    requires
        a.replicas == b.replicas,
        a.delivered@.len() == b.delivered@.len(),
    ensures
        offered(a) == offered(b),
        a.delivered@.len() < a.replicas ==> offered(a) == Some(a.delivered@.len() as usize),
{
}

} // verus!
