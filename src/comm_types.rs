//! Application messages carried over the link. Their wire encoding is the
//! caller's; these are the plain values.
use vstd::prelude::*;

verus! {

/// Resolution and frame rate of a video stream.
#[derive(Debug, Clone, Copy, PartialEq, Eq, Default)]
pub struct VideoProp {
    pub resolution: (u32, u32),
    pub fps: u32,
}

/// One camera's SDP, with its name and video format.
#[derive(Debug, Clone, Default)]
pub struct CameraSdp {
    pub name: String,
    pub format: VideoProp,
    pub sdp: String,
}

/// SDP offer a peer sends to set up its cameras.
#[derive(Debug, Clone, Default)]
pub struct MobileSdpOffer {
    pub mobile_id: String,
    pub camera_offer: Vec<CameraSdp>,
}

/// SDP answer the host prepares for a peer.
#[derive(Debug, Clone, Default)]
pub struct MobileSdpAnswer {
    pub camera_answer: Vec<CameraSdp>,
}

/// Provisioning record of the host.
#[derive(Debug, Clone, Default)]
pub struct HostProvInfo {
    pub id: String,
    pub name: String,
    pub connection_type: String,
}

/// Notification that a peer's SDP answer is ready.
#[derive(Debug, Clone, Default)]
pub struct SdpAnswerReady {
    pub mobile_id: String,
}

} // verus!
