use vstd::prelude::*;

verus! {

/// Largest message, in bytes, that a reassembly may accumulate.
pub const MAX_BUFFER_LEN: usize = 5000;

/// Kinds of write-initiated messages; each has its own reassembly cursor.
#[derive(Debug, Clone, Copy, PartialEq, Eq, Hash, Structural)]
pub enum CmdApi {
    /// The peer reports that it is going away.
    MobileDisconnected,
    /// The peer registers itself with the host.
    RegisterMobile,
    /// The peer sends its SDP offer.
    SdpOffer,
}

/// Kinds of read-initiated messages; each has its own fragmentation cursor.
#[derive(Debug, Clone, Copy, PartialEq, Eq, Hash, Structural)]
pub enum QueryApi {
    /// Provisioning record of the host.
    HostInfo,
    /// SDP answer prepared for the peer.
    SdpAnswer,
}

/// Publish/subscribe topics.
#[derive(Debug, Clone, Copy, PartialEq, Eq, Hash, Structural)]
pub enum PubSubTopic {
    /// Notifies a peer that its SDP answer is ready.
    SdpAnswerReady,
}

/// A read request: which kind, and the transport budget for one response.
#[derive(Debug, Clone, Copy)]
pub struct QueryReq {
    pub query_type: QueryApi,
    pub resp_buffer_len: usize,
}

/// A write request: which kind, and one encoded envelope.
#[derive(Debug, Clone)]
pub struct CommandReq {
    pub cmd_type: CmdApi,
    pub payload: Vec<u8>,
}

/// A subscription request: the topic and the transport budget of each notification.
#[derive(Debug, Clone, Copy)]
pub struct SubReq {
    pub topic: PubSubTopic,
    pub resp_buffer_len: usize,
}

/// A publication request: the topic and the whole payload to fan out.
#[derive(Debug, Clone)]
pub struct PubReq {
    pub topic: PubSubTopic,
    pub payload: Vec<u8>,
}

} // verus!
