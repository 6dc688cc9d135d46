use kademlia_dht::bencode::{Bencode, Dict};
use kademlia_dht::krpc::{build_request, classify, krpc_request, FindNodeResponse, MessageKind, MyInfo};

fn bytes(b: &[u8]) -> Bencode {
    Bencode::Bytes(b.to_vec())
}

fn find_node_args(id: &[u8; 20]) -> Dict {
    let mut args = Dict::new();
    args.insert(b"id".to_vec(), bytes(id));
    args.insert(b"target".to_vec(), bytes(id));
    args
}

#[test]
fn build_request_envelope() {
    let id = [7u8; 20];
    let request = build_request(b"find_node", find_node_args(&id), &None, b"aa");
    let mut expected = b"d1:ad2:id20:".to_vec();
    expected.extend_from_slice(&id);
    expected.extend_from_slice(b"6:target20:");
    expected.extend_from_slice(&id);
    expected.extend_from_slice(b"e1:q9:find_node1:t2:aa1:y1:qe");
    assert_eq!(expected, request.encode());
}

#[test]
fn build_request_with_version() {
    let id = [1u8; 20];
    let request = build_request(b"ping", find_node_args(&id), &Some(b"LT01".to_vec()), b"xy");
    let encoded = request.encode();
    let text = String::from_utf8_lossy(&encoded).to_string();
    assert!(text.ends_with("1:q4:ping1:t2:xy1:v4:LT011:y1:qe"));
}

#[test]
fn request_has_fresh_two_byte_transaction_id() {
    let me = MyInfo { client_version: None, id: [3u8; 20], port: 6881 };
    let request = krpc_request("find_node", find_node_args(&me.id), &me);
    match request {
        Bencode::Dict(d) => {
            match d.get(b"t") {
                Some(Bencode::Bytes(t)) => assert_eq!(2, t.len()),
                _ => panic!("no transaction id"),
            }
            assert_eq!(Some(&bytes(b"q")), d.get(b"y"));
            assert_eq!(Some(&bytes(b"find_node")), d.get(b"q"));
            assert!(!d.contains_key(b"v"));
        }
        _ => panic!("request is not a dictionary"),
    }
}

#[test]
fn classify_messages() {
    for (y, kind) in [
        (&b"q"[..], MessageKind::Query),
        (&b"r"[..], MessageKind::Response),
        (&b"e"[..], MessageKind::Error),
    ] {
        let mut d = Dict::new();
        d.insert(b"t".to_vec(), bytes(b"aa"));
        d.insert(b"y".to_vec(), bytes(y));
        assert_eq!(Ok(kind), classify(&Bencode::Dict(d)));
    }
    let mut unknown = Dict::new();
    unknown.insert(b"y".to_vec(), bytes(b"z"));
    assert!(classify(&Bencode::Dict(unknown)).is_err());
    let mut wrong_type = Dict::new();
    wrong_type.insert(b"y".to_vec(), Bencode::Integer(1));
    assert!(classify(&Bencode::Dict(wrong_type)).is_err());
    assert!(classify(&Bencode::Dict(Dict::new())).is_err());
    assert!(classify(&Bencode::Integer(0)).is_err());
}

fn response(nodes: Vec<u8>, id_len: usize) -> Dict {
    let mut r = Dict::new();
    r.insert(b"id".to_vec(), Bencode::Bytes(vec![5u8; id_len]));
    r.insert(b"nodes".to_vec(), Bencode::Bytes(nodes));
    let mut d = Dict::new();
    d.insert(b"t".to_vec(), bytes(b"aa"));
    d.insert(b"y".to_vec(), bytes(b"r"));
    d.insert(b"v".to_vec(), bytes(b"UT"));
    d.insert(b"r".to_vec(), Bencode::Dict(r));
    d
}

#[test]
fn parse_find_node_response() {
    let mut nodes = vec![9u8; 20];
    nodes.extend_from_slice(&[1, 2, 3, 4, 0x1A, 0xE1]);
    let parsed = FindNodeResponse::from_bencode(response(nodes, 20)).unwrap();
    assert_eq!(&b"aa".to_vec(), parsed.transaction_id());
    assert_eq!(Some(b"UT".to_vec()), parsed.client_version);
    assert_eq!([5u8; 20], parsed.responder_id);
    assert_eq!(1, parsed.nodes.len());
    assert_eq!([9u8; 20], parsed.nodes[0].id);
    assert_eq!([1, 2, 3, 4], parsed.nodes[0].address.ip);
    assert_eq!(6881, parsed.nodes[0].address.port);
}

#[test]
fn reject_malformed_find_node_response() {
    assert!(FindNodeResponse::from_bencode(response(vec![0u8; 25], 20)).is_err());
    assert!(FindNodeResponse::from_bencode(response(vec![0u8; 26], 19)).is_err());
    assert!(FindNodeResponse::from_bencode(Dict::new()).is_err());
}

#[test]
fn decode_then_parse_response() {
    let mut wire = b"d1:rd2:id20:".to_vec();
    wire.extend_from_slice(&[1u8; 20]);
    wire.extend_from_slice(b"5:nodes0:e1:t2:aa1:y1:re");
    let msg = Bencode::decode(&wire).unwrap();
    assert_eq!(Ok(MessageKind::Response), classify(&msg));
    match msg {
        Bencode::Dict(d) => {
            let parsed = FindNodeResponse::from_bencode(d).unwrap();
            assert_eq!(0, parsed.nodes.len());
            assert_eq!(None, parsed.client_version);
        }
        _ => panic!("not a dictionary"),
    }
}
