use coap::message::{CoAPRequest, CoAPResponse, PeerAddress};
use coap::packet::{OptionType, PacketClass, PacketType, Requests};
use coap::router::CoAPRouter;
use coap::server::{handle_datagram, CoAPDispatcher};

type Handler = fn(CoAPRequest) -> Option<CoAPResponse>;

fn echo_handler(request: CoAPRequest) -> Option<CoAPResponse> {
    let uri_path = request.message.get_option(OptionType::UriPath).unwrap();
    let mut response = request.response.unwrap();
    response.message.set_payload(uri_path[0].clone());

    Some(response)
}

fn request(method: Requests, path: &[u8]) -> CoAPRequest {
    let mut req = CoAPRequest::new();
    req.message.add_option(OptionType::UriPath, path.to_vec());
    req.message.header.code = PacketClass::Request(method);
    req.message.header.set_type(PacketType::Confirmable);
    req.response = CoAPResponse::new(&req.message);
    req
}

#[test]
fn basic_test() {
    let req_1 = request(Requests::Get, b"foo");
    let mut req_2 = request(Requests::Get, b"bar");
    req_2.response = CoAPResponse::new(&req_1.message);
    let req_3 = request(Requests::Post, b"foo");
    let req_4 = req_1.clone();

    let mut rtr: CoAPRouter<Handler> = CoAPRouter::new();
    rtr.get(&"foo".to_string(), echo_handler);

    assert!(rtr.handle(req_1).is_some());
    assert!(rtr.handle(req_2).is_none());
    assert!(rtr.handle(req_3).is_none());

    assert_eq!(b"foo".to_vec(), rtr.handle(req_4).unwrap().message.payload);
}

fn answer_one(_request: CoAPRequest) -> Option<CoAPResponse> {
    let mut response = CoAPResponse::new(&CoAPRequest::new().message);
    if response.is_none() {
        let mut req = CoAPRequest::new();
        req.message.header.set_type(PacketType::NonConfirmable);
        response = CoAPResponse::new(&req.message);
    }
    let mut response = response.unwrap();
    response.message.set_payload(b"one".to_vec());
    Some(response)
}

#[test]
fn router_selects_by_method_and_first_segment() {
    let mut rtr: CoAPRouter<Handler> = CoAPRouter::new();
    rtr.get(&"foo".to_string(), echo_handler);
    rtr.post(&"foo".to_string(), answer_one);
    rtr.put(&"héllo".to_string(), echo_handler);
    rtr.delete(&"foo".to_string(), echo_handler);

    let r = rtr.handle(request(Requests::Post, b"foo")).unwrap();
    assert_eq!(r.message.payload, b"one".to_vec());
    let r = rtr.handle(request(Requests::Put, "héllo".as_bytes())).unwrap();
    assert_eq!(r.message.payload, "héllo".as_bytes().to_vec());
    assert!(rtr.handle(request(Requests::Delete, b"foo")).is_some());

    // Later path segments are ignored.
    let mut req = request(Requests::Get, b"foo");
    req.message.add_option(OptionType::UriPath, b"more".to_vec());
    assert_eq!(rtr.handle(req).unwrap().message.payload, b"foo".to_vec());

    // A path that is not UTF-8 matches nothing.
    assert!(rtr.handle(request(Requests::Get, &[0xC3])).is_none());

    // No path, or a class that is not a request.
    let mut req = CoAPRequest::new();
    req.message.header.code = PacketClass::Request(Requests::Get);
    assert!(rtr.handle(req).is_none());
    let mut req = request(Requests::Get, b"foo");
    req.message.header.code = PacketClass::Empty;
    assert!(rtr.handle(req).is_none());

    // Registering again replaces the handler.
    rtr.get(&"foo".to_string(), answer_one);
    let r = rtr.handle(request(Requests::Get, b"foo")).unwrap();
    assert_eq!(r.message.payload, b"one".to_vec());
}

#[test]
fn datagram_to_response() {
    let mut rtr: CoAPRouter<Handler> = CoAPRouter::new();
    rtr.get(&"foo".to_string(), echo_handler);
    let dispatcher = CoAPDispatcher::RouterHandler(rtr);

    // Confirmable GET /foo, message id 0x0102, token 0xAA.
    let datagram = [0x41, 0x01, 0x01, 0x02, 0xAA, 0xB3, b'f', b'o', b'o'];
    let response = handle_datagram(&dispatcher, &datagram, peer()).unwrap();
    assert_eq!(response.message.to_bytes().unwrap(),
               vec![0x61, 0x45, 0x01, 0x02, 0xAA, 0xFF, b'f', b'o', b'o']);

    // Undecodable datagrams are dropped.
    assert!(handle_datagram(&dispatcher, &[0x41, 0x01], peer()).is_none());
    // Unrouted paths give no response.
    let datagram = [0x41, 0x01, 0x01, 0x02, 0xAA, 0xB3, b'b', b'a', b'r'];
    assert!(handle_datagram(&dispatcher, &datagram, peer()).is_none());

    let function: CoAPDispatcher<Handler> = CoAPDispatcher::FunctionHandler(answer_one);
    let datagram = [0x50, 0x02, 0x00, 0x09];
    let response = handle_datagram(&function, &datagram, peer()).unwrap();
    assert_eq!(response.message.payload, b"one".to_vec());
}

fn peer() -> PeerAddress {
    PeerAddress { ip: vec![192, 0, 2, 7], port: 5683 }
}

fn answer_with_port(request: CoAPRequest) -> Option<CoAPResponse> {
    let source = request.source.unwrap();
    let mut response = request.response.unwrap();
    let mut payload = source.ip.clone();
    payload.extend_from_slice(&source.port.to_be_bytes());
    response.message.set_payload(payload);
    Some(response)
}

#[test]
fn handlers_see_the_peer() {
    let function: CoAPDispatcher<Handler> = CoAPDispatcher::FunctionHandler(answer_with_port);
    let datagram = [0x40, 0x01, 0x00, 0x09];
    let response = handle_datagram(&function, &datagram, peer()).unwrap();
    assert_eq!(response.message.payload, vec![192, 0, 2, 7, 0x16, 0x33]);

    let mut rtr: CoAPRouter<Handler> = CoAPRouter::new();
    rtr.get(&"who".to_string(), answer_with_port);
    let dispatcher = CoAPDispatcher::RouterHandler(rtr);
    let datagram = [0x40, 0x01, 0x00, 0x09, 0xB3, b'w', b'h', b'o'];
    let source = PeerAddress { ip: vec![0, 0, 0, 0, 0, 0, 0, 0, 0, 0, 0, 0, 0, 0, 0, 1], port: 1 };
    let response = handle_datagram(&dispatcher, &datagram, source).unwrap();
    assert_eq!(response.message.payload,
               vec![0, 0, 0, 0, 0, 0, 0, 0, 0, 0, 0, 0, 0, 0, 0, 1, 0, 1]);
}
