use rust_snell::obfs::{ObfsMode, ObfsState};
use rust_snell::wire::{IoError, Wire};

fn pairs() -> Vec<(ObfsState, ObfsState)> {
    vec![
        (ObfsState::new(ObfsMode::Plain), ObfsState::new(ObfsMode::Plain)),
        (ObfsState::new(ObfsMode::TlsClient { host: "bing.com".to_string() }), ObfsState::new(ObfsMode::TlsServer)),
        (ObfsState::new(ObfsMode::TlsServer), ObfsState::new(ObfsMode::TlsClient { host: "bing.com".to_string() })),
        (
            ObfsState::new(ObfsMode::HttpClient { host: "bing.com".to_string(), port: "80".to_string() }),
            ObfsState::new(ObfsMode::HttpServer),
        ),
        (
            ObfsState::new(ObfsMode::HttpServer),
            ObfsState::new(ObfsMode::HttpClient { host: "bing.com".to_string(), port: "80".to_string() }),
        ),
    ]
}

fn read_all(reader: &mut ObfsState, wire: &mut Wire, cap: usize) -> Vec<u8> {
    let mut all = Vec::new();
    loop {
        match reader.read_up_to(wire, cap) {
            Ok(data) => {
                assert!(!data.is_empty() && data.len() <= cap);
                all.extend_from_slice(&data);
            }
            Err(IoError::WouldBlock) => return all,
            Err(e) => panic!("{:?}", e),
        }
    }
}

#[test]
fn every_disguise_carries_the_stream() {
    for cap in [1usize, 7, 4096, 100000] {
        for (mut writer, mut reader) in pairs() {
            let first = vec![1u8; 50];
            let second = vec![2u8; 40000];
            let mut sent = Wire::new();
            assert_eq!(writer.write(&mut sent, &first).unwrap(), 50);
            assert_eq!(writer.write(&mut sent, &second).unwrap(), 40000);
            assert_eq!(writer.write(&mut sent, b"end").unwrap(), 3);
            let mut wire = Wire::new();
            wire.feed(&sent.take_output());
            let got = read_all(&mut reader, &mut wire, cap);
            assert_eq!(got, [first, second, b"end".to_vec()].concat());
        }
    }
}

#[test]
fn streams_may_arrive_byte_by_byte() {
    for (mut writer, mut reader) in pairs() {
        let mut sent = Wire::new();
        writer.write(&mut sent, b"hello").unwrap();
        writer.write(&mut sent, b"world").unwrap();
        let mut wire = Wire::new();
        let mut got = Vec::new();
        for b in sent.take_output() {
            wire.feed(&[b]);
            got.extend_from_slice(&read_all(&mut reader, &mut wire, 4096));
        }
        assert_eq!(got, b"helloworld".to_vec());
    }
}

#[test]
fn the_disguise_is_on_the_wire() {
    let mut wire = Wire::new();
    ObfsState::new(ObfsMode::TlsClient { host: "bing.com".to_string() }).write(&mut wire, b"x").unwrap();
    assert_eq!(wire.take_output()[..3], [22, 3, 1]);
    ObfsState::new(ObfsMode::TlsServer).write(&mut wire, b"x").unwrap();
    assert_eq!(wire.take_output()[..3], [22, 3, 1]);
    ObfsState::new(ObfsMode::HttpServer).write(&mut wire, b"x").unwrap();
    assert!(wire.take_output().starts_with(b"HTTP/1.1 101 Switching Protocols\r\nServer: nginx/1."));
    let client = ObfsMode::HttpClient { host: "bing.com".to_string(), port: "80".to_string() };
    ObfsState::new(client).write(&mut wire, b"x").unwrap();
    let out = wire.take_output();
    assert!(out.starts_with(b"GET / HTTP/1.1\r\nHost: bing.com:80\r\nUser-Agent: curl/7."));
    assert!(out.ends_with(b"Content-Length: 1\r\n\r\nx"));
}

#[test]
fn only_the_first_write_is_a_hello() {
    let mut state = ObfsState::new(ObfsMode::TlsServer);
    let mut wire = Wire::new();
    state.write(&mut wire, b"x").unwrap();
    wire.take_output();
    state.write(&mut wire, b"abc").unwrap();
    assert_eq!(wire.take_output(), vec![0x17, 3, 3, 0, 3, b'a', b'b', b'c']);
    let mut state = ObfsState::new(ObfsMode::HttpServer);
    state.write(&mut wire, b"x").unwrap();
    wire.take_output();
    state.write(&mut wire, b"abc").unwrap();
    assert_eq!(wire.take_output(), b"abc".to_vec());
}

#[test]
fn a_request_without_body_hands_out_nothing() {
    let mut wire = Wire::new();
    wire.feed(b"GET / HTTP/1.1\r\n\r\nrest");
    let mut state = ObfsState::new(ObfsMode::HttpServer);
    let mut buf = [9u8; 8];
    assert_eq!(state.read(&mut wire, &mut buf).unwrap(), 0);
    assert_eq!(buf, [9u8; 8]);
    assert_eq!(state.read(&mut wire, &mut buf).unwrap(), 4);
    assert_eq!(&buf[..4], b"rest");
    assert_eq!(buf[4..], [9u8; 4]);
}

#[test]
fn a_response_with_body_is_read_to_its_end() {
    let mut wire = Wire::new();
    wire.feed(b"HTTP/1.1 200 OK\r\ncontent-length: 6\r\n\r\nabcdefghi");
    let mut state = ObfsState::new(ObfsMode::HttpClient { host: String::new(), port: String::new() });
    assert_eq!(state.read_up_to(&mut wire, 4).unwrap(), b"abcd".to_vec());
    assert_eq!(state.read_up_to(&mut wire, 4).unwrap(), b"ef".to_vec());
    assert_eq!(state.read_up_to(&mut wire, 4).unwrap(), b"ghi".to_vec());
}

#[test]
fn headers_that_are_no_text_are_read_too() {
    let mut wire = Wire::new();
    wire.feed(b"X: \xff\xfe\r\nContent-Length: 2\r\n\r\nab");
    let mut state = ObfsState::new(ObfsMode::HttpServer);
    assert_eq!(state.read_up_to(&mut wire, 10).unwrap(), b"ab".to_vec());
}

#[test]
fn the_end_of_a_stream_is_told_from_lacking_bytes() {
    let mut wire = Wire::new();
    let mut state = ObfsState::new(ObfsMode::TlsServer);
    assert!(matches!(state.read_up_to(&mut wire, 4), Err(IoError::WouldBlock)));
    wire.close();
    assert!(matches!(state.read_up_to(&mut wire, 4), Err(IoError::UnexpectedEof)));
    let mut plain = ObfsState::new(ObfsMode::Plain);
    assert_eq!(plain.read_up_to(&mut wire, 4).unwrap(), Vec::<u8>::new());
}

#[test]
fn an_upgrade_response_is_dropped() {
    for cap in [1usize, 4, 100] {
        let mut server = ObfsState::new(ObfsMode::HttpServer);
        let mut client = ObfsState::new(ObfsMode::HttpClient { host: "bing.com".to_string(), port: "80".to_string() });
        let mut sent = Wire::new();
        server.write(&mut sent, b"payload").unwrap();
        let mut wire = Wire::new();
        wire.feed(&sent.take_output());
        let mut buf = vec![0u8; cap];
        let n = client.read(&mut wire, &mut buf).unwrap();
        assert!(0 < n && n <= cap);
        assert_eq!(buf[..n], b"payload"[..n]);
    }
}

#[test]
fn a_long_record_is_read_as_it_arrives() {
    let mut writer = ObfsState::new(ObfsMode::TlsServer);
    let mut reader = ObfsState::new(ObfsMode::TlsClient { host: "bing.com".to_string() });
    let mut sent = Wire::new();
    writer.write(&mut sent, b"hello").unwrap();
    let hello = sent.take_output();
    writer.write(&mut sent, &[7u8; 5000]).unwrap();
    let record = sent.take_output();
    assert_eq!(record.len(), 5005);
    let mut wire = Wire::new();
    wire.feed(&hello);
    assert_eq!(reader.read_up_to(&mut wire, 4096).unwrap(), b"hello".to_vec());
    wire.feed(&record[..105]);
    assert_eq!(reader.read_up_to(&mut wire, 4096).unwrap().len(), 100);
    wire.feed(&record[105..4105]);
    assert!(matches!(reader.read_up_to(&mut wire, 4096), Err(IoError::WouldBlock)));
    wire.feed(&record[4105..]);
    assert_eq!(reader.read_up_to(&mut wire, 4096).unwrap().len(), 4096);
    assert_eq!(reader.read_up_to(&mut wire, 4096).unwrap().len(), 804);
}

#[test]
fn a_stream_that_ends_early_is_used_up() {
    let mut wire = Wire::new();
    wire.feed(b"GET / HTTP/1.1\r\nContent-Len");
    let mut state = ObfsState::new(ObfsMode::HttpServer);
    assert!(matches!(state.read_up_to(&mut wire, 4), Err(IoError::WouldBlock)));
    assert_eq!(wire.inbox.len(), 27);
    wire.close();
    assert!(matches!(state.read_up_to(&mut wire, 4), Err(IoError::UnexpectedEof)));
    assert!(wire.inbox.is_empty());
    // The header block counts as read, so the next read is a plain one.
    assert_eq!(state.read_up_to(&mut wire, 4).unwrap(), Vec::<u8>::new());

    let mut wire = Wire::new();
    wire.feed(&[0u8; 100]);
    wire.close();
    let mut state = ObfsState::new(ObfsMode::TlsClient { host: "h".to_string() });
    assert!(matches!(state.read_up_to(&mut wire, 4), Err(IoError::UnexpectedEof)));
    assert!(wire.inbox.is_empty());
    // The hello counts as read, so a record comes next.
    wire.feed(&[0x17, 3, 3, 0, 2, 8, 9]);
    assert_eq!(state.read_up_to(&mut wire, 4).unwrap(), vec![8, 9]);

    let mut wire = Wire::new();
    wire.feed(&[0x17, 3, 3, 0, 9, 1]);
    wire.close();
    assert!(matches!(state.read_up_to(&mut wire, 20), Err(IoError::UnexpectedEof)));
    assert!(wire.inbox.is_empty());
}
