//! The provider's request handling: the client request wire format, the
//! length-prefixed framing of retrieval responses, the retrieval operation
//! against ledger and mailbox store, the handling of an unwrapped mix
//! packet, and the mapping of socket failures onto provider errors.

use vstd::prelude::*;
use crate::addr::HostAddress;
use crate::ledger::{AuthToken, ClientLedger, token_index};
use crate::store::{MessageStore, store_wf, box_index};
use crate::topology::seq_views;
use crate::MESSAGE_RETRIEVAL_LIMIT;

verus! {

/// Greatest size of one client request, in bytes.
pub const MAX_REQUEST_SIZE: usize = 1024;

/// Opcode of a registration request.
pub const REGISTER_OPCODE: u8 = 1;

/// Opcode of a retrieval request.
pub const RETRIEVE_OPCODE: u8 = 2;

/// The acknowledgement written back after every stored mix packet.  Peers
/// must not parse its contents.
pub const MIX_ACK: &'static str = "foomp";

/// The fixed response to a client request that could not be served.
pub const FAILURE_RESPONSE: &'static str = "bad foomp";

/// A client request, once read off the wire.
pub enum ClientRequest {
    /// Register the client whose address these bytes are.
    Register { client_pub_key: Vec<u8> },
    /// Hand out stored messages for the mailbox this token owns.
    Retrieve { token: AuthToken },
}

pub enum ClientRequestV {
    Register { client_pub_key: Seq<u8> },
    Retrieve { token: Seq<u8> },
}

impl View for ClientRequest {
    type V = ClientRequestV;

    open spec fn view(&self) -> ClientRequestV {
        match self {
            ClientRequest::Register { client_pub_key } => ClientRequestV::Register {
                client_pub_key: client_pub_key@,
            },
            ClientRequest::Retrieve { token } => ClientRequestV::Retrieve { token: token@ },
        }
    }
}

/// Ways a client request can be refused before it is acted on.
#[derive(Clone, Copy, Debug, PartialEq, Eq, Structural)]
pub enum RequestError {
    /// Longer than `MAX_REQUEST_SIZE` bytes.
    TooLong,
    /// Not an opcode byte followed by a 32-byte identity.
    Malformed,
}

/// The request a byte string carries: a one-byte opcode followed by a
/// 32-byte identity, within the request size bound.
pub open spec fn parse_request(b: Seq<u8>) -> Result<ClientRequestV, RequestError> {
    if b.len() > MAX_REQUEST_SIZE {
        Err(RequestError::TooLong)
    } else if b.len() == 33 && b[0] == REGISTER_OPCODE {
        Ok(ClientRequestV::Register { client_pub_key: b.subrange(1, 33) })
    } else if b.len() == 33 && b[0] == RETRIEVE_OPCODE {
        Ok(ClientRequestV::Retrieve { token: b.subrange(1, 33) })
    } else {
        Err(RequestError::Malformed)
    }
}

/// Reads a client request off its wire bytes.
pub fn parse_client_request(b: &Vec<u8>) -> (r: Result<ClientRequest, RequestError>)
    ensures
        match parse_request(b@) {
            Ok(v) => r matches Ok(req) && req@ == v,
            Err(e) => r matches Err(e2) && e2 == e,
        },
{
    if b.len() > MAX_REQUEST_SIZE {
        return Err(RequestError::TooLong);
    }
    if b.len() != 33 {
        return Err(RequestError::Malformed);
    }
    let opcode = b[0];
    if opcode != REGISTER_OPCODE && opcode != RETRIEVE_OPCODE {
        return Err(RequestError::Malformed);
    }
    let mut identity: Vec<u8> = Vec::new();
    let mut i: usize = 1;
    while i < 33
        invariant
            1 <= i <= 33,
            b@.len() == 33,
            identity@ == b@.subrange(1, i as int),
        decreases 33 - i,
    {
        identity.push(b[i]);
        i = i + 1;
        assert(identity@ =~= b@.subrange(1, i as int));
    }
    if opcode == REGISTER_OPCODE {
        Ok(ClientRequest::Register { client_pub_key: identity })
    } else {
        Ok(ClientRequest::Retrieve { token: AuthToken::from_bytes(identity) })
    }
}

/// The four big-endian bytes of a 32-bit length.
pub open spec fn be32(n: int) -> Seq<u8> {
    seq![
        (n / 0x1000000 % 0x100) as u8,
        (n / 0x10000 % 0x100) as u8,
        (n / 0x100 % 0x100) as u8,
        (n % 0x100) as u8,
    ]
}

/// Messages concatenated behind big-endian 32-bit length prefixes, in order.
pub open spec fn framed(msgs: Seq<Seq<u8>>) -> Seq<u8>
    decreases msgs.len(),
{
    if msgs.len() == 0 {
        Seq::empty()
    } else {
        framed(msgs.drop_last()) + be32(msgs.last().len() as int) + msgs.last()
    }
}

/// Frames messages for one retrieval response: each message behind its
/// four-byte big-endian length, in order.
pub fn frame_messages(msgs: &Vec<Vec<u8>>) -> (r: Vec<u8>)
    requires
        forall|i: int| 0 <= i < msgs@.len() ==> (#[trigger] msgs@[i]@).len() <= u32::MAX,
    ensures
        r@ == framed(seq_views(msgs@)),
{
    let mut out: Vec<u8> = Vec::new();
    let mut i: usize = 0;
    while i < msgs.len()
        invariant
            i <= msgs@.len(),
            forall|q: int| 0 <= q < msgs@.len() ==> (#[trigger] msgs@[q]@).len() <= u32::MAX,
            out@ == framed(seq_views(msgs@).take(i as int)),
        decreases msgs@.len() - i,
    {
        proof {
            assert(seq_views(msgs@).take(i + 1).drop_last() =~= seq_views(msgs@).take(i as int));
            assert(seq_views(msgs@).take(i + 1).last() == msgs@[i as int]@);
        }
        let l = msgs[i].len();
        out.push((l / 0x1000000 % 0x100) as u8);
        out.push((l / 0x10000 % 0x100) as u8);
        out.push((l / 0x100 % 0x100) as u8);
        out.push((l % 0x100) as u8);
        let mut t: usize = 0;
        let ghost mid = out@;
        while t < l
            invariant
                t <= l,
                i < msgs@.len(),
                l == msgs@[i as int]@.len(),
                out@ == mid + msgs@[i as int]@.take(t as int),
            decreases l - t,
        {
            out.push(msgs[i][t]);
            t = t + 1;
            assert(out@ =~= mid + msgs@[i as int]@.take(t as int));
        }
        i = i + 1;
        proof {
            assert(msgs@[i - 1]@.take(msgs@[i - 1]@.len() as int) =~= msgs@[i - 1]@);
            assert(out@ =~= framed(seq_views(msgs@).take(i as int)));
        }
    }
    proof {
        assert(seq_views(msgs@).take(msgs@.len() as int) =~= seq_views(msgs@));
    }
    out
}

/// A retrieval that cannot be served.
#[derive(Clone, Copy, Debug, PartialEq, Eq, Structural)]
pub enum RetrieveError {
    /// The token matches no registered client.
    Unauthorized,
}

/// Serves one retrieval request: an unknown token is refused and changes
/// nothing; a known token's mailbox gives up its oldest messages, at most
/// `MESSAGE_RETRIEVAL_LIMIT` of them, framed into one response.
///
/// The messages leave the mailbox here, before the caller has sent the
/// response; the caller owns the returned blobs, and after a failed send it
/// puts each back with `MessageStore::store_message`, so that a message is
/// gone for good only once its response went out.
pub fn handle_retrieve(ledger: &ClientLedger, store: &mut MessageStore, token: &AuthToken) -> (r:
    Result<(Vec<u8>, Vec<Vec<u8>>), RetrieveError>)
    requires
        store_wf(old(store)@),
    ensures
        store_wf(final(store)@),
        match token_index(ledger@, token@) {
            None => r matches Err(e) && e == RetrieveError::Unauthorized && final(store)@ == old(
                store,
            )@,
            Some(i) => r matches Ok(batch) && ({
                let dest = ledger@[i].1;
                match box_index(old(store)@, dest) {
                    None => batch.0@ == framed(Seq::<Seq<u8>>::empty()) && batch.1@.len() == 0
                        && final(store)@ == old(store)@,
                    Some(bi) => {
                        let msgs = old(store)@[bi].1;
                        let k = if msgs.len() <= MESSAGE_RETRIEVAL_LIMIT {
                            msgs.len() as int
                        } else {
                            MESSAGE_RETRIEVAL_LIMIT as int
                        };
                        &&& batch.0@ == framed(msgs.take(k))
                        &&& seq_views(batch.1@) == msgs.take(k)
                        &&& final(store)@ == old(store)@.update(bi, (dest, msgs.skip(k)))
                    },
                }
            }),
        },
        r matches Ok(batch) ==> forall|j: int|
            0 <= j < batch.1@.len() ==> (#[trigger] batch.1@[j]@).len() <= u32::MAX,
{
    let dest = match ledger.lookup_token(token) {
        Some(d) => d,
        None => {
            return Err(RetrieveError::Unauthorized);
        },
    };
    let taken = store.retrieve_messages(&dest);
    let response = frame_messages(&taken);
    proof {
        if box_index(old(store)@, dest@) is None {
            assert(seq_views(taken@) =~= Seq::<Seq<u8>>::empty());
        }
    }
    Ok((response, taken))
}

/// What one onion layer of a mix packet unwraps to: either directions for a
/// further hop, or a final delivery.
pub enum ProcessedPacket {
    /// The packet is meant to travel on; a provider never forwards.
    ForwardHop { address: HostAddress, packet: Vec<u8> },
    /// The packet ends here: a payload for a client's mailbox.
    FinalHop { destination: Vec<u8>, payload: Vec<u8> },
}

/// Why an unwrapped mix packet is dropped.
#[derive(Clone, Copy, Debug, PartialEq, Eq, Structural)]
pub enum MixProcessingError {
    /// This node is terminal: a packet asking to be forwarded is refused.
    ReceivedForwardHopData,
}

/// What to store for an unwrapped packet.
pub struct StoreData {
    pub destination: Vec<u8>,
    pub payload: Vec<u8>,
}

/// Decides what becomes of an unwrapped mix packet: a final delivery is
/// stored under its destination; a forward hop is refused, since providers
/// are terminal.
pub fn process_packet(packet: ProcessedPacket) -> (r: Result<StoreData, MixProcessingError>)
    ensures
        match packet {
            ProcessedPacket::FinalHop { destination, payload } => r matches Ok(sd)
                && sd.destination@ == destination@ && sd.payload@ == payload@,
            ProcessedPacket::ForwardHop { .. } => r matches Err(e) && e
                == MixProcessingError::ReceivedForwardHopData,
        },
{
    match packet {
        ProcessedPacket::FinalHop { destination, payload } => Ok(
            StoreData { destination, payload },
        ),
        ProcessedPacket::ForwardHop { .. } => Err(MixProcessingError::ReceivedForwardHopData),
    }
}

/// Files a final delivery into its destination's mailbox.
pub fn store_processed_data(store: &mut MessageStore, data: StoreData)
    requires
        store_wf(old(store)@),
        data.payload@.len() <= u32::MAX,
    ensures
        store_wf(final(store)@),
        match box_index(old(store)@, data.destination@) {
            None => final(store)@ == old(store)@.push((data.destination@, seq![data.payload@])),
            Some(i) => final(store)@ == old(store)@.update(
                i,
                (data.destination@, old(store)@[i].1.push(data.payload@)),
            ),
        },
{
    store.store_message(&data.destination, data.payload)
}

/// The socket failures the listeners tell apart, as plain values.
#[derive(Clone, Copy, Debug, PartialEq, Eq, Structural)]
pub enum SocketErrorKind {
    ConnectionRefused,
    ConnectionReset,
    ConnectionAborted,
    NotConnected,
    AddrInUse,
    AddrNotAvailable,
    UnexpectedEof,
    Other,
}

/// Failures of the provider's listeners.
#[derive(Clone, Copy, Debug, PartialEq, Eq, Structural)]
pub enum ProviderError {
    TcpListenerBindingError,
    TcpListenerConnectionError,
    TcpListenerUnexpectedEof,
    TcpListenerUnknownError,
}

impl ProviderError {
    /// How each socket failure is classified: connection failures end one
    /// connection, address failures mean the listener could not bind, and
    /// anything else is unknown.
    pub fn from_kind(kind: SocketErrorKind) -> (r: ProviderError)
        ensures
            r == match kind {
                SocketErrorKind::ConnectionRefused => ProviderError::TcpListenerConnectionError,
                SocketErrorKind::ConnectionReset => ProviderError::TcpListenerConnectionError,
                SocketErrorKind::ConnectionAborted => ProviderError::TcpListenerConnectionError,
                SocketErrorKind::NotConnected => ProviderError::TcpListenerConnectionError,
                SocketErrorKind::AddrInUse => ProviderError::TcpListenerBindingError,
                SocketErrorKind::AddrNotAvailable => ProviderError::TcpListenerBindingError,
                SocketErrorKind::UnexpectedEof => ProviderError::TcpListenerUnexpectedEof,
                SocketErrorKind::Other => ProviderError::TcpListenerUnknownError,
            },
    {
        match kind {
            SocketErrorKind::ConnectionRefused => ProviderError::TcpListenerConnectionError,
            SocketErrorKind::ConnectionReset => ProviderError::TcpListenerConnectionError,
            SocketErrorKind::ConnectionAborted => ProviderError::TcpListenerConnectionError,
            SocketErrorKind::NotConnected => ProviderError::TcpListenerConnectionError,
            SocketErrorKind::AddrInUse => ProviderError::TcpListenerBindingError,
            SocketErrorKind::AddrNotAvailable => ProviderError::TcpListenerBindingError,
            SocketErrorKind::UnexpectedEof => ProviderError::TcpListenerUnexpectedEof,
            SocketErrorKind::Other => ProviderError::TcpListenerUnknownError,
        }
    }
}

} // verus!
