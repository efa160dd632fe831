//! The wire payloads: tagged request and reply variants, and the envelope
//! that carries one of them together with a correlation token and the
//! source and destination descriptors.
use vstd::prelude::*;

use crate::key::Key;
use crate::routing::{NodeAndDistance, NodeInfo, NodeView};
use crate::KEY_LEN;

verus! {

/// The mathematical content of a request.
pub ghost enum RequestView {
    Ping,
    Store(Seq<char>, Seq<char>),
    FindNode(Seq<u8>),
    FindValue(Seq<char>),
}

/// The mathematical content of the answer to a value lookup.
pub ghost enum FindValueResultView {
    Nodes(Seq<(NodeView, Seq<u8>)>),
    Value(Seq<char>),
}

/// The mathematical content of a reply.
pub ghost enum ReplyView {
    Ping,
    FindNode(Seq<(NodeView, Seq<u8>)>),
    FindValue(FindValueResultView),
}

/// The mathematical content of a message body.
pub ghost enum MessageView {
    Kill,
    Request(RequestView),
    Reply(ReplyView),
}

/// The mathematical content of an envelope.
pub ghost struct RpcMessageView {
    pub token: Seq<u8>,
    pub src: NodeView,
    pub dst: NodeView,
    pub msg: MessageView,
}

/// A request served by a node.
#[derive(Clone, Debug)]
pub enum Request {
    /// Liveness probe.
    Ping,
    /// Bind a value to a key in the receiver's store.
    Store(String, String),
    /// Ask for the peers closest to an identifier.
    FindNode(Key),
    /// Ask for a stored value, or failing that the closest peers.
    FindValue(String),
}

/// The answer to a value lookup: either the value itself or closer peers.
#[derive(Clone, Debug)]
pub enum FindValueResult {
    Nodes(Vec<NodeAndDistance>),
    Value(String),
}

/// A reply to a request.
#[derive(Clone, Debug)]
pub enum Reply {
    /// Acknowledges a ping or a store.
    Ping,
    /// The peers closest to the requested identifier.
    FindNode(Vec<NodeAndDistance>),
    /// The answer to a value lookup.
    FindValue(FindValueResult),
}

/// A message body: a request, a reply, or the order to shut the receiver
/// down.
#[derive(Clone, Debug)]
pub enum Message {
    Kill,
    Request(Request),
    Reply(Reply),
}

/// The envelope every datagram carries: a correlation token, the source and
/// destination descriptors, and the body.
#[derive(Clone, Debug)]
pub struct RpcMessage {
    pub token: Key,
    pub src: NodeInfo,
    pub dst: NodeInfo,
    pub msg: Message,
}

impl View for Request {
    type V = RequestView;

    open spec fn view(&self) -> RequestView {
        match self {
            Request::Ping => RequestView::Ping,
            Request::Store(k, v) => RequestView::Store(k@, v@),
            Request::FindNode(id) => RequestView::FindNode(id@),
            Request::FindValue(k) => RequestView::FindValue(k@),
        }
    }
}

impl View for FindValueResult {
    type V = FindValueResultView;

    open spec fn view(&self) -> FindValueResultView {
        match self {
            FindValueResult::Nodes(ns) => FindValueResultView::Nodes(ns.deep_view()),
            FindValueResult::Value(v) => FindValueResultView::Value(v@),
        }
    }
}

impl View for Reply {
    type V = ReplyView;

    open spec fn view(&self) -> ReplyView {
        match self {
            Reply::Ping => ReplyView::Ping,
            Reply::FindNode(ns) => ReplyView::FindNode(ns.deep_view()),
            Reply::FindValue(r) => ReplyView::FindValue(r@),
        }
    }
}

impl View for Message {
    type V = MessageView;

    open spec fn view(&self) -> MessageView {
        match self {
            Message::Kill => MessageView::Kill,
            Message::Request(r) => MessageView::Request(r@),
            Message::Reply(r) => MessageView::Reply(r@),
        }
    }
}

impl View for RpcMessage {
    type V = RpcMessageView;

    open spec fn view(&self) -> RpcMessageView {
        RpcMessageView { token: self.token@, src: self.src@, dst: self.dst@, msg: self.msg@ }
    }
}

impl RequestView {
    /// Identifiers inside the request are full-width.
    pub open spec fn wf(&self) -> bool {
        match self {
            RequestView::FindNode(id) => id.len() == KEY_LEN,
            _ => true,
        }
    }
}

impl FindValueResultView {
    /// Peers and distances inside the result are full-width.
    pub open spec fn wf(&self) -> bool {
        match self {
            FindValueResultView::Nodes(ns) => crate::routing::pairs_wf(*ns),
            FindValueResultView::Value(_) => true,
        }
    }
}

impl ReplyView {
    /// Peers and distances inside the reply are full-width.
    pub open spec fn wf(&self) -> bool {
        match self {
            ReplyView::FindNode(ns) => crate::routing::pairs_wf(*ns),
            ReplyView::FindValue(r) => r.wf(),
            ReplyView::Ping => true,
        }
    }
}

impl MessageView {
    /// The body's identifiers are full-width.
    pub open spec fn wf(&self) -> bool {
        match self {
            MessageView::Kill => true,
            MessageView::Request(r) => r.wf(),
            MessageView::Reply(r) => r.wf(),
        }
    }
}

impl RpcMessageView {
    /// Every identifier in the envelope is full-width.
    pub open spec fn wf(&self) -> bool {
        &&& self.token.len() == KEY_LEN
        &&& self.src.wf()
        &&& self.dst.wf()
        &&& self.msg.wf()
    }
}

} // verus!
