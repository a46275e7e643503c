//! What MQTT packets carry, as far as a router looks at it.
use crate::payload::bytes_clone;
use bytes::Bytes;
use vstd::prelude::*;

verus! {

#[derive(Debug, Clone, Copy, PartialEq, Eq, Structural)]
pub enum QoS {
    AtMostOnce,
    AtLeastOnce,
    ExactlyOnce,
}

impl QoS {
    pub open spec fn spec_level(self) -> u8 {
        match self {
            QoS::AtMostOnce => 0,
            QoS::AtLeastOnce => 1,
            QoS::ExactlyOnce => 2,
        }
    }

    /// The number that stands for this quality of service on the wire.
    pub fn level(self) -> (level: u8)
        ensures
            level == self.spec_level(),
    {
        match self {
            QoS::AtMostOnce => 0,
            QoS::AtLeastOnce => 1,
            QoS::ExactlyOnce => 2,
        }
    }
}

pub open spec fn spec_qos(level: u8) -> Option<QoS> {
    if level == 0 {
        Some(QoS::AtMostOnce)
    } else if level == 1 {
        Some(QoS::AtLeastOnce)
    } else if level == 2 {
        Some(QoS::ExactlyOnce)
    } else {
        None
    }
}

/// The quality of service that a number on the wire stands for.
pub fn qos(level: u8) -> (qos: Option<QoS>)
    ensures
        qos == spec_qos(level),
{
    if level == 0 {
        Some(QoS::AtMostOnce)
    } else if level == 1 {
        Some(QoS::AtLeastOnce)
    } else if level == 2 {
        Some(QoS::ExactlyOnce)
    } else {
        None
    }
}

#[derive(Debug, PartialEq, Eq)]
pub struct Publish {
    pub dup: bool,
    pub qos: QoS,
    pub retain: bool,
    pub topic: Bytes,
    pub pkid: u16,
    pub payload: Bytes,
}

impl Clone for Publish {
    fn clone(&self) -> (copy: Self)
        ensures
            copy == *self,
    {
        Publish {
            dup: self.dup,
            qos: self.qos,
            retain: self.retain,
            topic: bytes_clone(&self.topic),
            pkid: self.pkid,
            payload: bytes_clone(&self.payload),
        }
    }
}

#[derive(Debug, Clone, Copy, PartialEq, Eq, Structural)]
pub struct PublishProperties {
    /// Seconds after which the message is no longer worth delivering.
    pub message_expiry_interval: Option<u32>,
}

#[derive(Debug, PartialEq, Eq)]
pub struct LastWill {
    pub topic: Bytes,
    pub message: Bytes,
    pub qos: QoS,
    pub retain: bool,
}

/// What a client asks to be sent.
#[derive(Debug, PartialEq, Eq)]
pub struct Filter {
    pub path: String,
    pub qos: QoS,
}

#[derive(Debug, PartialEq, Eq)]
pub struct Subscribe {
    pub pkid: u16,
    pub filters: Vec<Filter>,
}

#[derive(Debug, PartialEq, Eq)]
pub struct Unsubscribe {
    pub pkid: u16,
    pub filters: Vec<String>,
}

#[derive(Debug, Clone, Copy, PartialEq, Eq, Structural)]
pub enum ConnectReturnCode {
    Success,
    RefusedProtocolVersion,
    BadClientId,
    ServiceUnavailable,
    BadUserNamePassword,
    NotAuthorized,
}

#[derive(Debug, Clone, Copy, PartialEq, Eq, Structural)]
pub struct ConnAck {
    pub session_present: bool,
    pub code: ConnectReturnCode,
}

#[derive(Debug, Clone, Copy, PartialEq, Eq, Structural)]
pub enum PubAckReason {
    Success,
    NoMatchingSubscribers,
    UnspecifiedError,
    ImplementationSpecificError,
    NotAuthorized,
    TopicNameInvalid,
    PacketIdentifierInUse,
    QuotaExceeded,
    PayloadFormatInvalid,
}

#[derive(Debug, Clone, Copy, PartialEq, Eq, Structural)]
pub struct PubAck {
    pub pkid: u16,
    pub reason: PubAckReason,
}

#[derive(Debug, Clone, Copy, PartialEq, Eq, Structural)]
pub enum PubRecReason {
    Success,
    NoMatchingSubscribers,
    UnspecifiedError,
    ImplementationSpecificError,
    NotAuthorized,
    TopicNameInvalid,
    PacketIdentifierInUse,
    QuotaExceeded,
    PayloadFormatInvalid,
}

#[derive(Debug, Clone, Copy, PartialEq, Eq, Structural)]
pub struct PubRec {
    pub pkid: u16,
    pub reason: PubRecReason,
}

#[derive(Debug, Clone, Copy, PartialEq, Eq, Structural)]
pub enum PubRelReason {
    Success,
    PacketIdentifierNotFound,
}

#[derive(Debug, Clone, Copy, PartialEq, Eq, Structural)]
pub struct PubRel {
    pub pkid: u16,
    pub reason: PubRelReason,
}

#[derive(Debug, PartialEq, Eq)]
pub struct PubRelProperties {
    pub reason_string: Option<String>,
}

#[derive(Debug, Clone, Copy, PartialEq, Eq, Structural)]
pub enum PubCompReason {
    Success,
    PacketIdentifierNotFound,
}

#[derive(Debug, Clone, Copy, PartialEq, Eq, Structural)]
pub struct PubComp {
    pub pkid: u16,
    pub reason: PubCompReason,
}

#[derive(Debug, Clone, Copy, PartialEq, Eq, Structural)]
pub enum SubscribeReasonCode {
    QoS0,
    QoS1,
    QoS2,
    Failure,
}

#[derive(Debug, PartialEq, Eq)]
pub struct SubAck {
    pub pkid: u16,
    pub return_codes: Vec<SubscribeReasonCode>,
}

#[derive(Debug, Clone, Copy, PartialEq, Eq, Structural)]
pub enum UnsubAckReason {
    Success,
    NoSubscriptionExisted,
    UnspecifiedError,
    NotAuthorized,
    TopicFilterInvalid,
}

#[derive(Debug, PartialEq, Eq)]
pub struct UnsubAck {
    pub pkid: u16,
    pub reasons: Vec<UnsubAckReason>,
}

/// A packet from a client that is connected.
#[derive(Debug, PartialEq, Eq)]
pub enum Packet {
    Publish(Publish, Option<PublishProperties>),
    Subscribe(Subscribe),
    Unsubscribe(Unsubscribe),
    PubAck(PubAck),
    PubRec(PubRec),
    PubRel(PubRel, Option<PubRelProperties>),
    PubComp(PubComp),
    PingReq,
    Disconnect,
    ConnAck(ConnAck),
    SubAck(SubAck),
    UnsubAck(UnsubAck),
    PingResp,
}

/// The three qualities of service are numbered from zero, and no other number
/// stands for one.
pub proof fn law_levels_of_service(qos: QoS, level: u8)
    ensures
        qos is AtMostOnce <==> qos.spec_level() == 0,
        qos is AtLeastOnce <==> qos.spec_level() == 1,
        qos is ExactlyOnce <==> qos.spec_level() == 2,
        spec_qos(qos.spec_level()) == Some(qos),
        spec_qos(level) == Some(qos) ==> qos.spec_level() == level,
        spec_qos(level) is None <==> level > 2,
{
}

} // verus!
