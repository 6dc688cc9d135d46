use crate::bencode::{dict_get, key_less, lemma_dict_insert_last, Bencode, Dict, Value};
use crate::node_id::{contacts_from_compact, from_slice, is_compact_contact, random_bytes, NodeId};
use crate::routing::NodeContactInfo;
use vstd::prelude::*;
use vstd::slice::slice_to_vec;
use vstd::string::StringSliceAdditionalSpecFns;

verus! {

/// Key `t`: transaction id.
pub open spec fn key_t() -> Seq<u8> {
    seq![116u8]
}

/// Key `y`: message type.
pub open spec fn key_y() -> Seq<u8> {
    seq![121u8]
}

/// Key `q`: method name of a query.
pub open spec fn key_q() -> Seq<u8> {
    seq![113u8]
}

/// Key `a`: arguments of a query.
pub open spec fn key_a() -> Seq<u8> {
    seq![97u8]
}

/// Key `r`: return values of a response.
pub open spec fn key_r() -> Seq<u8> {
    seq![114u8]
}

/// Key `v`: client version.
pub open spec fn key_v() -> Seq<u8> {
    seq![118u8]
}

/// Key `id`: node id of the sender.
pub open spec fn key_id() -> Seq<u8> {
    seq![105u8, 100u8]
}

/// Key `nodes`: packed compact contacts.
pub open spec fn key_nodes() -> Seq<u8> {
    seq![110u8, 111u8, 100u8, 101u8, 115u8]
}

/// Our own identity as it appears in outgoing messages.
pub struct MyInfo {
    pub client_version: Option<Vec<u8>>,
    pub id: NodeId,
    pub port: u16,
}

/// Failures of a KRPC exchange.
#[derive(Debug, Clone, Copy, PartialEq, Eq, Structural)]
pub enum KrpcError {
    SendError,
    ResponseTimeout,
    MalformedResponse,
    InvalidResponse,
    ErrorResponse,
}

/// The kinds of KRPC message.
#[derive(Debug, Clone, Copy, PartialEq, Eq, Structural)]
pub enum MessageKind {
    Query,
    Response,
    Error,
}

pub open spec fn version_of(v: Option<Vec<u8>>) -> Option<Seq<u8>> {
    match v {
        Some(b) => Some(b@),
        None => None,
    }
}

/// The query envelope `{a: args, q: method, t: tid, v: version (if any), y: "q"}`.
pub open spec fn request_model(
    method: Seq<u8>,
    args: Seq<(Seq<u8>, Value)>,
    version: Option<Seq<u8>>,
    tid: Seq<u8>,
) -> Value {
    Value::Dict(
        seq![
            (key_a(), Value::Dict(args)),
            (key_q(), Value::Bytes(method)),
            (key_t(), Value::Bytes(tid)),
        ] + match version {
            Some(v) => seq![(key_v(), Value::Bytes(v))],
            None => seq![],
        } + seq![(key_y(), Value::Bytes(seq![113u8]))],
    )
}

/// Builds a query envelope carrying `transaction_id`.
pub fn build_request(
    method: &[u8],
    args: Dict,
    client_version: &Option<Vec<u8>>,
    transaction_id: &[u8],
) -> (r: Bencode)
    ensures
        r@ == request_model(method@, args@, version_of(*client_version), transaction_id@),
{
    let ghost args_view = args@;
    let ka: [u8; 1] = [97u8];
    let kq: [u8; 1] = [113u8];
    let kt: [u8; 1] = [116u8];
    let kv: [u8; 1] = [118u8];
    let ky: [u8; 1] = [121u8];
    assert(ka@ =~= key_a() && kq@ =~= key_q() && kt@ =~= key_t());
    assert(kv@ =~= key_v() && ky@ =~= key_y());
    let mut dict = Dict::new();
    proof {
        lemma_dict_insert_last(dict@, key_a(), Value::Dict(args_view));
    }
    dict.insert(slice_to_vec(ka.as_slice()), Bencode::Dict(args));
    proof {
        lemma_dict_insert_last(dict@, key_q(), Value::Bytes(method@));
    }
    dict.insert(slice_to_vec(kq.as_slice()), Bencode::Bytes(slice_to_vec(method)));
    proof {
        lemma_dict_insert_last(dict@, key_t(), Value::Bytes(transaction_id@));
    }
    dict.insert(slice_to_vec(kt.as_slice()), Bencode::Bytes(slice_to_vec(transaction_id)));
    match client_version {
        Some(v) => {
            proof {
                lemma_dict_insert_last(dict@, key_v(), Value::Bytes(v@));
            }
            dict.insert(slice_to_vec(kv.as_slice()), Bencode::Bytes(slice_to_vec(v.as_slice())));
        },
        None => {},
    }
    proof {
        lemma_dict_insert_last(dict@, key_y(), Value::Bytes(kq@));
    }
    dict.insert(slice_to_vec(ky.as_slice()), Bencode::Bytes(slice_to_vec(kq.as_slice())));
    let r = Bencode::Dict(dict);
    assert(r@ == Value::Dict(dict@));
    assert(dict@ =~= request_model(method@, args_view, version_of(*client_version), transaction_id@)->Dict_0);
    r
}

/// Builds a query envelope for `method` with a fresh random 2-byte transaction id.
/// `args` carries our node id under `id`.
pub fn krpc_request(method: &str, args: Dict, my_info: &MyInfo) -> (r: Bencode)
    requires
        dict_get(args@, key_id()) is Some,
    ensures
        exists|tid: Seq<u8>|
            tid.len() == 2 && r@ == request_model(
                method.spec_bytes(),
                args@,
                version_of(my_info.client_version),
                tid,
            ),
{
    let tid = random_bytes(2);
    build_request(method.as_bytes(), args, &my_info.client_version, tid.as_slice())
}

/// The kind named by a message's `y` entry, if it is a dictionary with a known one.
pub open spec fn message_kind(v: Value) -> Option<MessageKind> {
    match v {
        Value::Dict(d) => match dict_get(d, key_y()) {
            Some(Value::Bytes(y)) => if y == seq![113u8] {
                Some(MessageKind::Query)
            } else if y == seq![114u8] {
                Some(MessageKind::Response)
            } else if y == seq![101u8] {
                Some(MessageKind::Error)
            } else {
                None
            },
            _ => None,
        },
        _ => None,
    }
}

/// Classifies an inbound message by its `y` entry.
pub fn classify(msg: &Bencode) -> (r: Result<MessageKind, &'static str>)
    ensures
        match r {
            Ok(k) => message_kind(msg@) == Some(k),
            Err(_) => message_kind(msg@) is None,
        },
{
    let ky: [u8; 1] = [121u8];
    assert(ky@ =~= key_y());
    match msg {
        Bencode::Dict(d) => {
            assert(msg@ == Value::Dict(d@));
            match d.get(ky.as_slice()) {
                Some(Bencode::Bytes(y)) => {
                    if y.len() == 1 && y[0] == 113 {
                        assert(y@ =~= seq![113u8]);
                        Ok(MessageKind::Query)
                    } else if y.len() == 1 && y[0] == 114 {
                        assert(y@ =~= seq![114u8]);
                        Ok(MessageKind::Response)
                    } else if y.len() == 1 && y[0] == 101 {
                        assert(y@ =~= seq![101u8]);
                        Ok(MessageKind::Error)
                    } else {
                        Err("Unhandled KRPC message type")
                    }
                },
                _ => Err("KRPC message does not contain key y or invalid value type"),
            }
        },
        _ => Err("KRPC message is not a Dict"),
    }
}

/// The bytes bound to `k`, if they are bytes.
pub open spec fn bytes_at(d: Seq<(Seq<u8>, Value)>, k: Seq<u8>) -> Option<Seq<u8>> {
    match dict_get(d, k) {
        Some(Value::Bytes(b)) => Some(b),
        _ => None,
    }
}

/// The dictionary bound to `k`, if it is one.
pub open spec fn dict_at(d: Seq<(Seq<u8>, Value)>, k: Seq<u8>) -> Option<Seq<(Seq<u8>, Value)>> {
    match dict_get(d, k) {
        Some(Value::Dict(e)) => Some(e),
        _ => None,
    }
}

/// Whether `d` is a well-formed `find_node` response: bytes under `t`, and under `r` a
/// dictionary with a 20-byte `id` and `nodes` made of whole 26-byte contacts.
pub open spec fn is_find_node_response(d: Seq<(Seq<u8>, Value)>) -> bool {
    &&& bytes_at(d, key_t()) is Some
    &&& dict_at(d, key_r()) is Some
    &&& bytes_at(dict_at(d, key_r())->0, key_id()) is Some
    &&& bytes_at(dict_at(d, key_r())->0, key_id())->0.len() == 20
    &&& bytes_at(dict_at(d, key_r())->0, key_nodes()) is Some
    &&& bytes_at(dict_at(d, key_r())->0, key_nodes())->0.len() % 26 == 0
}

/// The payload of a `find_node` response.
pub struct FindNodeResponse {
    pub transaction_id: Vec<u8>,
    pub client_version: Option<Vec<u8>>,
    pub responder_id: NodeId,
    pub nodes: Vec<NodeContactInfo>,
}

impl FindNodeResponse {
    /// Whether `self` holds what the well-formed response `d` carries.
    pub open spec fn read_from(&self, d: Seq<(Seq<u8>, Value)>) -> bool {
        let rv = dict_at(d, key_r())->0;
        let packed = bytes_at(rv, key_nodes())->0;
        &&& self.transaction_id@ == bytes_at(d, key_t())->0
        &&& version_of(self.client_version) == bytes_at(d, key_v())
        &&& self.responder_id@ == bytes_at(rv, key_id())->0
        &&& self.nodes@.len() == packed.len() / 26
        &&& forall|i: int|
            0 <= i < self.nodes@.len() ==> is_compact_contact(#[trigger] self.nodes@[i], packed, 26 * i)
    }

    /// Extracts the payload of a `find_node` response.
    pub fn from_bencode(dict: Dict) -> (r: Result<FindNodeResponse, &'static str>)
        ensures
            r is Ok <==> is_find_node_response(dict@),
            match r {
                Ok(resp) => resp.read_from(dict@),
                Err(_) => true,
            },
    {
        let kt: [u8; 1] = [116u8];
        let kv: [u8; 1] = [118u8];
        let kr: [u8; 1] = [114u8];
        let kid: [u8; 2] = [105u8, 100u8];
        let knodes: [u8; 5] = [110u8, 111u8, 100u8, 101u8, 115u8];
        assert(kt@ =~= key_t() && kv@ =~= key_v() && kr@ =~= key_r());
        assert(kid@ =~= key_id() && knodes@ =~= key_nodes());
        let transaction_id = match dict.get(kt.as_slice()) {
            Some(Bencode::Bytes(v)) => slice_to_vec(v.as_slice()),
            _ => return Err("No or invalid transaction id"),
        };
        let client_version = match dict.get(kv.as_slice()) {
            Some(Bencode::Bytes(v)) => Some(slice_to_vec(v.as_slice())),
            _ => None,
        };
        let return_values = match dict.get(kr.as_slice()) {
            Some(Bencode::Dict(v)) => v,
            _ => return Err("No or invalid return value dict"),
        };
        let responder_id = match return_values.get(kid.as_slice()) {
            Some(Bencode::Bytes(v)) => match from_slice(v.as_slice()) {
                Ok(id) => id,
                Err(e) => return Err(e),
            },
            _ => return Err("No or invalid responder id"),
        };
        let nodes = match return_values.get(knodes.as_slice()) {
            Some(Bencode::Bytes(v)) => match contacts_from_compact(v.as_slice()) {
                Ok(cs) => cs,
                Err(e) => return Err(e),
            },
            _ => return Err("No or invalid nodes"),
        };
        Ok(FindNodeResponse { transaction_id, client_version, responder_id, nodes })
    }

    pub fn transaction_id(&self) -> (r: &Vec<u8>)
        ensures
            *r == self.transaction_id,
    {
        &self.transaction_id
    }
}

} // verus!
