use coap::packet::{
    auto_response, class_to_code, class_to_str, code_to_class, code_to_str, str_to_code,
    OptionType, PackageError, Packet, PacketClass, PacketType, ParseError, Requests, Responses,
};

#[test]
fn test_header_codes() {
    for code in 0..255 {
        let class = code_to_class(&code);
        let code_str = code_to_str(&code);
        let class_str = class_to_str(&class);

        // Reserved covers many codes, so only the known ones are checked.
        if class != PacketClass::Reserved {
            assert_eq!(class_to_code(&class), code);
            assert_eq!(code_str, class_str);
        }
    }
}

#[test]
fn test_decode_packet_with_options() {
    let buf = [0x44, 0x01, 0x84, 0x9e, 0x51, 0x55, 0x77, 0xe8, 0xb2, 0x48, 0x69, 0x04, 0x54,
               0x65, 0x73, 0x74, 0x43, 0x61, 0x3d, 0x31];
    let packet = Packet::from_bytes(&buf);
    assert!(packet.is_ok());
    let packet = packet.unwrap();
    assert_eq!(packet.header.get_version(), 1);
    assert_eq!(packet.header.get_type(), PacketType::Confirmable);
    assert_eq!(packet.header.get_token_length(), 4);
    assert_eq!(packet.header.code, PacketClass::Request(Requests::Get));
    assert_eq!(packet.header.get_message_id(), 33950);
    assert_eq!(*packet.get_token(), vec![0x51, 0x55, 0x77, 0xE8]);
    assert_eq!(packet.option_count(), 2);

    let uri_path = packet.get_option(OptionType::UriPath);
    assert!(uri_path.is_some());
    let uri_path = uri_path.unwrap();
    let expected_uri_path = vec!["Hi".as_bytes().to_vec(), "Test".as_bytes().to_vec()];
    assert_eq!(uri_path, expected_uri_path);

    let uri_query = packet.get_option(OptionType::UriQuery);
    assert!(uri_query.is_some());
    let uri_query = uri_query.unwrap();
    let expected_uri_query = vec!["a=1".as_bytes().to_vec()];
    assert_eq!(uri_query, expected_uri_query);
    assert!(packet.payload.is_empty());
}

#[test]
fn test_decode_packet_with_payload() {
    let buf = [0x64, 0x45, 0x13, 0xFD, 0xD0, 0xE2, 0x4D, 0xAC, 0xFF, 0x48, 0x65, 0x6C, 0x6C,
               0x6F];
    let packet = Packet::from_bytes(&buf);
    assert!(packet.is_ok());
    let packet = packet.unwrap();
    assert_eq!(packet.header.get_version(), 1);
    assert_eq!(packet.header.get_type(), PacketType::Acknowledgement);
    assert_eq!(packet.header.get_token_length(), 4);
    assert_eq!(packet.header.code, PacketClass::Response(Responses::Content));
    assert_eq!(packet.header.get_message_id(), 5117);
    assert_eq!(*packet.get_token(), vec![0xD0, 0xE2, 0x4D, 0xAC]);
    assert_eq!(packet.payload, "Hello".as_bytes().to_vec());
}

#[test]
fn test_encode_packet_with_options() {
    let mut packet = Packet::new();
    packet.header.set_version(1);
    packet.header.set_type(PacketType::Confirmable);
    packet.header.code = PacketClass::Request(Requests::Get);
    packet.header.set_message_id(33950);
    packet.set_token(vec![0x51, 0x55, 0x77, 0xE8]);
    packet.add_option(OptionType::UriPath, b"Hi".to_vec());
    packet.add_option(OptionType::UriPath, b"Test".to_vec());
    packet.add_option(OptionType::UriQuery, b"a=1".to_vec());
    assert_eq!(packet.to_bytes().unwrap(),
               vec![0x44, 0x01, 0x84, 0x9e, 0x51, 0x55, 0x77, 0xe8, 0xb2, 0x48, 0x69, 0x04,
                    0x54, 0x65, 0x73, 0x74, 0x43, 0x61, 0x3d, 0x31]);
}

#[test]
fn test_encode_packet_with_payload() {
    let mut packet = Packet::new();
    packet.header.set_version(1);
    packet.header.set_type(PacketType::Acknowledgement);
    packet.header.code = PacketClass::Response(Responses::Content);
    packet.header.set_message_id(5117);
    packet.set_token(vec![0xD0, 0xE2, 0x4D, 0xAC]);
    packet.payload = "Hello".as_bytes().to_vec();
    assert_eq!(packet.to_bytes().unwrap(),
               vec![0x64, 0x45, 0x13, 0xFD, 0xD0, 0xE2, 0x4D, 0xAC, 0xFF, 0x48, 0x65, 0x6C,
                    0x6C, 0x6F]);
}

/// A small deterministic generator for the random inputs below.
struct Lcg(u64);

impl Lcg {
    fn next(&mut self) -> u64 {
        self.0 = self.0.wrapping_mul(6364136223846793005).wrapping_add(1442695040888963407);
        self.0 >> 33
    }
}

#[test]
fn test_malicious_packet() {
    let mut rng = Lcg(0x5eed);
    for _ in 0..10000 {
        let len = (rng.next() % 1501) as usize;
        let bytes: Vec<u8> = (0..len).map(|_| rng.next() as u8).collect();
        match Packet::from_bytes(&bytes[..]) {
            Ok(packet) => {
                assert_eq!(packet.get_token().len(), packet.header.get_token_length() as usize);
            }
            Err(_) => {}
        }
    }
}

#[test]
fn malicious_packets_with_plausible_headers() {
    // Headers with a small token length, so that the option walk is reached.
    let mut rng = Lcg(77);
    for _ in 0..10000 {
        let len = 4 + (rng.next() % 60) as usize;
        let mut bytes: Vec<u8> = (0..len).map(|_| rng.next() as u8).collect();
        bytes[0] = 0x40 | (bytes[0] & 0x07);
        if let Ok(packet) = Packet::from_bytes(&bytes) {
            assert_eq!(packet.get_token().len(), packet.header.get_token_length() as usize);
            assert!(packet.get_token().len() <= 8);
        }
    }
}

#[test]
fn decode_errors() {
    assert_eq!(Packet::from_bytes(&[]).unwrap_err(), ParseError::InvalidHeader);
    assert_eq!(Packet::from_bytes(&[0x40, 0x01, 0x00]).unwrap_err(), ParseError::InvalidHeader);
    // Token length 9.
    assert_eq!(Packet::from_bytes(&[0x49, 0x01, 0, 1, 1, 2, 3, 4, 5, 6, 7, 8, 9]).unwrap_err(),
               ParseError::InvalidTokenLength);
    // Token length 4 with two token bytes.
    assert_eq!(Packet::from_bytes(&[0x44, 0x01, 0, 1, 1, 2]).unwrap_err(),
               ParseError::InvalidTokenLength);
    // Delta nibble 15 without the whole byte being the marker.
    assert_eq!(Packet::from_bytes(&[0x40, 0x01, 0, 1, 0xF0]).unwrap_err(),
               ParseError::InvalidOptionDelta);
    // Length nibble 15.
    assert_eq!(Packet::from_bytes(&[0x40, 0x01, 0, 1, 0x0F]).unwrap_err(),
               ParseError::InvalidOptionLength);
    // Delta extension byte missing.
    assert_eq!(Packet::from_bytes(&[0x40, 0x01, 0, 1, 0xD0]).unwrap_err(),
               ParseError::InvalidOptionLength);
    // Two-byte length extension cut short.
    assert_eq!(Packet::from_bytes(&[0x40, 0x01, 0, 1, 0x0E, 0x00]).unwrap_err(),
               ParseError::InvalidOptionLength);
    // Value runs past the end.
    assert_eq!(Packet::from_bytes(&[0x40, 0x01, 0, 1, 0x13, b'a']).unwrap_err(),
               ParseError::InvalidOptionLength);
}

#[test]
fn decode_edge_cases() {
    // Header only.
    let p = Packet::from_bytes(&[0x40, 0x00, 0x12, 0x34]).unwrap();
    assert_eq!(p.header.code, PacketClass::Empty);
    assert_eq!(p.header.get_message_id(), 0x1234);
    assert_eq!(p.option_count(), 0);
    assert!(p.payload.is_empty());
    // A marker at the very end leaves an empty payload.
    let p = Packet::from_bytes(&[0x40, 0x45, 0, 1, 0xFF]).unwrap();
    assert!(p.payload.is_empty());
    // Unknown codes are Reserved; version bits are not checked.
    let p = Packet::from_bytes(&[0xC0, 0x07, 0, 1]).unwrap();
    assert_eq!(p.header.code, PacketClass::Reserved);
    assert_eq!(p.header.get_version(), 3);
    assert_eq!(p.header.get_type(), PacketType::Confirmable);
    // Extended deltas and lengths: delta 13 + 2 = 15 (UriQuery), then a
    // two-byte delta 269 + 1 = 270 with a 13-byte value.
    let mut buf = vec![0x40, 0x01, 0, 1, 0xD1, 0x02, b'q', 0xED, 0x00, 0x01, 0x00];
    buf.extend_from_slice(b"thirteen-byte");
    let p = Packet::from_bytes(&buf).unwrap();
    assert_eq!(p.get_option(OptionType::UriQuery).unwrap(), vec![b"q".to_vec()]);
    assert_eq!(p.option_count(), 2);
    assert_eq!(p.to_bytes().unwrap(), buf);
}

#[test]
fn encode_round_trips() {
    let mut packet = Packet::new();
    packet.header.set_version(1);
    packet.header.set_type(PacketType::NonConfirmable);
    packet.header.code = PacketClass::Request(Requests::Post);
    packet.header.set_message_id(0xBEEF);
    packet.set_token(vec![1, 2, 3, 4, 5, 6, 7, 8]);
    packet.add_option(OptionType::Size1, vec![0x01, 0x00]);
    packet.add_option(OptionType::UriHost, b"example".to_vec());
    packet.add_option(OptionType::UriPath, vec![b'x'; 20]);
    packet.add_option(OptionType::UriPath, vec![b'y'; 300]);
    packet.add_option(OptionType::UriPath, Vec::new());
    packet.payload = vec![0xFF, 0x00, 0xFF];
    let bytes = packet.to_bytes().unwrap();
    let back = Packet::from_bytes(&bytes).unwrap();
    assert_eq!(back.to_bytes().unwrap(), bytes);
    assert_eq!(back.header.get_message_id(), 0xBEEF);
    assert_eq!(back.header.get_type(), PacketType::NonConfirmable);
    assert_eq!(back.header.code, PacketClass::Request(Requests::Post));
    assert_eq!(*back.get_token(), vec![1, 2, 3, 4, 5, 6, 7, 8]);
    assert_eq!(back.get_option(OptionType::UriPath).unwrap(),
               vec![vec![b'x'; 20], vec![b'y'; 300], Vec::new()]);
    assert_eq!(back.get_option(OptionType::UriHost).unwrap(), vec![b"example".to_vec()]);
    assert_eq!(back.get_option(OptionType::Size1).unwrap(), vec![vec![0x01, 0x00]]);
    assert_eq!(back.payload, vec![0xFF, 0x00, 0xFF]);
    assert_eq!(back.option_count(), 3);
}

#[test]
fn empty_code_drops_payload() {
    let mut packet = Packet::new();
    packet.header.set_version(1);
    packet.header.set_message_id(7);
    packet.payload = b"dropped".to_vec();
    let bytes = packet.to_bytes().unwrap();
    assert_eq!(bytes, vec![0x40, 0x00, 0x00, 0x07]);
    assert!(!bytes.contains(&0xFF));
    let back = Packet::from_bytes(&bytes).unwrap();
    assert!(back.payload.is_empty());
}

#[test]
fn wire_numbers_ascend_and_deltas_sum() {
    let mut packet = Packet::new();
    packet.header.code = PacketClass::Request(Requests::Get);
    packet.add_option(OptionType::ProxyUri, b"p".to_vec());
    packet.add_option(OptionType::UriPath, b"a".to_vec());
    packet.add_option(OptionType::IfMatch, b"i".to_vec());
    packet.add_option(OptionType::UriPath, b"b".to_vec());
    let bytes = packet.to_bytes().unwrap();
    // Walk the options: each first byte is (delta << 4) | length here.
    let mut i = 4;
    let mut number = 0;
    let mut numbers = Vec::new();
    while i < bytes.len() {
        let delta = (bytes[i] >> 4) as usize;
        let length = (bytes[i] & 0x0F) as usize;
        let (delta, header) = if delta == 13 { (bytes[i + 1] as usize + 13, 2) } else { (delta, 1) };
        number += delta;
        numbers.push(number);
        i += header + length;
    }
    assert_eq!(numbers, vec![1, 11, 11, 35]);
}

#[test]
fn encode_errors() {
    let mut packet = Packet::new();
    packet.header.code = PacketClass::Response(Responses::Content);
    packet.payload = vec![0; 1276];
    assert_eq!(packet.to_bytes().unwrap_err(), PackageError::InvalidPacketLength);
    packet.payload = vec![0; 1275];
    assert_eq!(packet.to_bytes().unwrap().len(), 1280);
    // An empty value list leaves a gap that no delta can span.
    let buf = [0x40, 0x01, 0, 1, 0xB0, 0xE0, 0xFF, 0xFF];
    let mut far = Packet::from_bytes(&buf).unwrap();
    assert_eq!(far.to_bytes().unwrap(), buf.to_vec());
    far.set_option(OptionType::UriPath, Vec::new());
    assert_eq!(far.to_bytes().unwrap_err(), PackageError::InvalidHeader);
}

#[test]
fn option_map_operations() {
    let mut packet = Packet::new();
    assert!(packet.get_option(OptionType::ETag).is_none());
    packet.add_option(OptionType::ETag, vec![1]);
    packet.add_option(OptionType::ETag, vec![2]);
    assert_eq!(packet.get_option(OptionType::ETag).unwrap(), vec![vec![1], vec![2]]);
    packet.set_option(OptionType::ETag, vec![vec![9]]);
    assert_eq!(packet.get_option(OptionType::ETag).unwrap(), vec![vec![9]]);
    packet.set_option(OptionType::Accept, vec![vec![0], vec![1]]);
    assert_eq!(packet.get_option(OptionType::Accept).unwrap(), vec![vec![0], vec![1]]);
    assert_eq!(packet.option_count(), 2);
}

#[test]
fn header_bit_fields() {
    let mut packet = Packet::new();
    packet.set_token(vec![9, 9, 9]);
    packet.header.set_version(1);
    packet.header.set_type(PacketType::Reset);
    assert_eq!(packet.header.get_version(), 1);
    assert_eq!(packet.header.get_type(), PacketType::Reset);
    assert_eq!(packet.header.get_token_length(), 3);
    packet.header.set_version(6);
    assert_eq!(packet.header.get_version(), 2);
    assert_eq!(packet.header.get_type(), PacketType::Reset);
    let raw = packet.header.to_raw();
    let again = coap::packet::PacketHeader::from_raw(&raw);
    assert_eq!(again.get_version(), 2);
    assert_eq!(again.get_token_length(), 3);
}

#[test]
fn code_strings() {
    assert_eq!(code_to_str(&0x45), "2.05");
    assert_eq!(code_to_str(&0x84), "4.04");
    assert_eq!(code_to_str(&0xFF), "7.31");
    assert_eq!(class_to_str(&PacketClass::Request(Requests::Delete)), "0.04");
    assert_eq!(str_to_code("4.04"), Some(0x84));
    assert_eq!(str_to_code("2.5"), Some(0x45));
    assert_eq!(str_to_code("+0.+01"), Some(0x01));
    assert_eq!(str_to_code("8.00"), None);
    assert_eq!(str_to_code("1.32"), None);
    assert_eq!(str_to_code("2.05.1"), None);
    assert_eq!(str_to_code("205"), None);
    assert_eq!(str_to_code(".05"), None);
    assert_eq!(str_to_code("x.05"), None);
    let mut packet = Packet::new();
    packet.header.set_code("4.04");
    assert_eq!(packet.header.code, PacketClass::Response(Responses::NotFound));
    assert_eq!(packet.header.get_code(), "4.04");
    packet.header.set_code("0.01");
    assert_eq!(packet.header.code, PacketClass::Request(Requests::Get));
    packet.header.set_code("3.00");
    assert_eq!(packet.header.code, PacketClass::Reserved);
    assert_eq!(class_to_code(&PacketClass::Reserved), 0xFF);
}

#[test]
fn auto_response_shapes() {
    let mut request = Packet::new();
    request.header.set_version(1);
    request.header.set_type(PacketType::Confirmable);
    request.header.code = PacketClass::Request(Requests::Get);
    request.header.set_message_id(42);
    request.set_token(vec![7, 8]);
    request.add_option(OptionType::UriPath, b"x".to_vec());
    request.payload = b"body".to_vec();
    let response = auto_response(&request).unwrap();
    assert_eq!(response.header.get_version(), 1);
    assert_eq!(response.header.get_type(), PacketType::Acknowledgement);
    assert_eq!(response.header.code, PacketClass::Response(Responses::Content));
    assert_eq!(response.header.get_message_id(), 42);
    assert_eq!(*response.get_token(), vec![7, 8]);
    assert_eq!(response.header.get_token_length(), 2);
    assert_eq!(response.payload, b"body".to_vec());
    assert_eq!(response.option_count(), 0);

    request.header.set_type(PacketType::NonConfirmable);
    let response = auto_response(&request).unwrap();
    assert_eq!(response.header.get_type(), PacketType::NonConfirmable);

    request.header.set_type(PacketType::Acknowledgement);
    assert!(auto_response(&request).is_none());
    request.header.set_type(PacketType::Reset);
    assert!(auto_response(&request).is_none());
}

#[test]
fn packet_level_accessors() {
    let mut packet = Packet::new();
    packet.set_version(1);
    packet.set_type(PacketType::Acknowledgement);
    packet.set_class(PacketClass::Response(Responses::Content));
    packet.set_message_id(5117);
    packet.set_token(vec![0xD0, 0xE2, 0x4D, 0xAC]);
    packet.set_payload(b"Hello".to_vec());
    assert_eq!(packet.get_version(), 1);
    assert_eq!(packet.get_type(), PacketType::Acknowledgement);
    assert_eq!(packet.get_class(), PacketClass::Response(Responses::Content));
    assert_eq!(packet.header.get_class(), PacketClass::Response(Responses::Content));
    assert_eq!(packet.get_message_id(), 5117);
    assert_eq!(packet.get_token_length(), 4);
    assert_eq!(*packet.payload(), b"Hello".to_vec());
    assert_eq!(packet.to_bytes().unwrap(),
               vec![0x64, 0x45, 0x13, 0xFD, 0xD0, 0xE2, 0x4D, 0xAC, 0xFF, 0x48, 0x65, 0x6C,
                    0x6C, 0x6F]);
}
