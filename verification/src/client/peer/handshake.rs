//! The handshake that opens every peer connection: the protocol name, eight
//! reserved bytes, the infohash and the sender's peer id, 68 bytes in all.

use vstd::prelude::*;

verus! {

/// The bytes of `BitTorrent protocol`.
pub open spec fn protocol_name() -> Seq<u8> {
    seq![66u8, 105u8, 116u8, 84u8, 111u8, 114u8, 114u8, 101u8, 110u8, 116u8, 32u8, 112u8, 114u8, 111u8, 116u8, 111u8, 99u8, 111u8, 108u8]
}

/// What a peer answered that ends the connection.
#[derive(Debug, Clone, Copy, PartialEq, Eq, Structural)]
pub enum HandshakeError {
    /// The protocol name in the reply is not `BitTorrent protocol`.
    InvalidProtocol,
    /// The reply is for another torrent.
    MismatchedInfoHash,
}

/// The handshake this side sends.
pub open spec fn handshake_message(info_hash: Seq<u8>, peer_id: Seq<u8>) -> Seq<u8> {
    seq![19u8] + protocol_name() + Seq::new(8, |i: int| 0u8) + info_hash + peer_id
}

/// How a peer's 68-byte reply is judged: the protocol name must stand at
/// bytes 1 to 19 and our infohash at bytes 28 to 47.
pub open spec fn spec_check_reply(reply: Seq<u8>, info_hash: Seq<u8>) -> Result<(), HandshakeError> {
    if reply.subrange(1, 20) != protocol_name() {
        Err(HandshakeError::InvalidProtocol)
    } else if reply.subrange(28, 48) != info_hash {
        Err(HandshakeError::MismatchedInfoHash)
    } else {
        Ok(())
    }
}

/// The name as bytes.
fn protocol_bytes() -> (r: Vec<u8>)
    ensures
        r@ == protocol_name(),
{
    let r: Vec<u8> = vec![66, 105, 116, 84, 111, 114, 114, 101, 110, 116, 32, 112, 114, 111, 116, 111, 99, 111, 108];
    assert(r@ =~= protocol_name());
    r
}

/// The 68 bytes to send: the name's length (19), the name, eight zero
/// reserved bytes, the infohash and our peer id.
pub fn handshake_bytes(info_hash: &[u8; 20], peer_id: &[u8; 20]) -> (r: Vec<u8>)
    ensures
        r@ == handshake_message(info_hash@, peer_id@),
        r@.len() == 68,
{
    let mut buf: Vec<u8> = Vec::with_capacity(68);
    buf.push(19);
    let name = protocol_bytes();
    buf.extend_from_slice(name.as_slice());
    let mut k: usize = 0;
    while k < 8
        invariant
            k <= 8,
            buf@ == seq![19u8] + protocol_name() + Seq::new(k as nat, |i: int| 0u8),
        decreases 8 - k,
    {
        buf.push(0);
        k = k + 1;
        assert(buf@ =~= seq![19u8] + protocol_name() + Seq::new(k as nat, |i: int| 0u8));
    }
    buf.extend_from_slice(info_hash);
    buf.extend_from_slice(peer_id);
    assert(buf@ =~= handshake_message(info_hash@, peer_id@));
    buf
}

/// Judge a peer's reply.
pub fn check_reply(reply: &[u8; 68], info_hash: &[u8; 20]) -> (r: Result<(), HandshakeError>)
    ensures
        r == spec_check_reply(reply@, info_hash@),
{
    let name = protocol_bytes();
    let mut i: usize = 0;
    while i < 19
        invariant
            i <= 19,
            name@ == protocol_name(),
            reply@.len() == 68,
            forall|j: int| 0 <= j < i ==> reply@[1 + j] == name@[j],
        decreases 19 - i,
    {
        if reply[1 + i] != name[i] {
            proof {
                assert(reply@.subrange(1, 20)[i as int] != protocol_name()[i as int]);
            }
            return Err(HandshakeError::InvalidProtocol);
        }
        i = i + 1;
    }
    assert(reply@.subrange(1, 20) =~= protocol_name());
    let mut i: usize = 0;
    while i < 20
        invariant
            i <= 20,
            reply@.len() == 68,
            info_hash@.len() == 20,
            reply@.subrange(1, 20) == protocol_name(),
            forall|j: int| 0 <= j < i ==> reply@[28 + j] == info_hash@[j],
        decreases 20 - i,
    {
        if reply[28 + i] != info_hash[i] {
            proof {
                assert(reply@.subrange(28, 48)[i as int] != info_hash@[i as int]);
            }
            return Err(HandshakeError::MismatchedInfoHash);
        }
        i = i + 1;
    }
    assert(reply@.subrange(28, 48) =~= info_hash@);
    Ok(())
}

/// A peer that echoes our own handshake is accepted: the name and the
/// infohash stand where the reply is read.
pub proof fn law_own_handshake_accepted(info_hash: Seq<u8>, peer_id: Seq<u8>)
    requires
        info_hash.len() == 20,
        peer_id.len() == 20,
    ensures
        spec_check_reply(handshake_message(info_hash, peer_id), info_hash) is Ok,
{
    let m = handshake_message(info_hash, peer_id);
    assert(m.subrange(1, 20) =~= protocol_name());
    assert(m.subrange(28, 48) =~= info_hash);
}

/// Our handshake is 68 bytes: the name's length, the 19 bytes of
/// `BitTorrent protocol`, eight zero bytes, then the infohash at bytes 28
/// to 47 and our peer id at bytes 48 to 67. A reply is accepted only when
/// it names the protocol and carries exactly our infohash in those places.
pub proof fn law_handshake_layout(info_hash: Seq<u8>, peer_id: Seq<u8>, reply: Seq<u8>)
    requires
        info_hash.len() == 20,
        peer_id.len() == 20,
        reply.len() == 68,
    ensures
        handshake_message(info_hash, peer_id).len() == 68,
        handshake_message(info_hash, peer_id)[0] == protocol_name().len(),
        handshake_message(info_hash, peer_id).subrange(1, 20) == protocol_name(),
        forall|i: int| 20 <= i < 28 ==> #[trigger] handshake_message(info_hash, peer_id)[i] == 0u8,
        handshake_message(info_hash, peer_id).subrange(28, 48) == info_hash,
        handshake_message(info_hash, peer_id).subrange(48, 68) == peer_id,
        spec_check_reply(reply, info_hash) is Ok <==> (reply.subrange(1, 20) == protocol_name()
            && reply.subrange(28, 48) == info_hash),
{
    let m = handshake_message(info_hash, peer_id);
    assert(m.subrange(1, 20) =~= protocol_name());
    assert(m.subrange(28, 48) =~= info_hash);
    assert(m.subrange(48, 68) =~= peer_id);
}

} // verus!
