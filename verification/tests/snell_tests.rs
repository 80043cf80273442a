use rust_snell::aead::{new_aes128_gcm, new_chacha20_poly1305, AeadCipher, Cipher};
use rust_snell::snell::{hand_out, record_size, SnellConn};
use rust_snell::wire::{is_zero_chunk, IoError, Wire, ZeroChunkError};

const PSK: &[u8] = b"secret";

fn server(obfs: &str) -> SnellConn {
    SnellConn::new_server_conn(Wire::new(), PSK, obfs).unwrap()
}

fn client(obfs: &str, is_v2: bool) -> SnellConn {
    SnellConn::new_client_conn(Wire::new(), PSK, obfs, "bing.com", "443", is_v2).unwrap()
}

fn carry(from: &mut SnellConn, to: &mut SnellConn) {
    let out = from.take_output();
    to.feed(&out);
}

#[test]
fn both_versions_carry_data_both_ways_in_every_disguise() {
    for obfs in ["", "tls", "http", "unknown"] {
        for is_v2 in [true, false] {
            let mut c = client(obfs, is_v2);
            let mut s = server(obfs);
            assert_eq!(c.snell_write(b"request").unwrap(), 7);
            carry(&mut c, &mut s);
            assert_eq!(s.read_up_to(100).unwrap(), b"request".to_vec());
            s.snell_write(b"response").unwrap();
            s.snell_write(b"more").unwrap();
            carry(&mut s, &mut c);
            assert_eq!(c.read_up_to(100).unwrap(), b"response".to_vec());
            assert_eq!(c.read_up_to(100).unwrap(), b"more".to_vec());
            assert!(matches!(c.read_up_to(100), Err(IoError::WouldBlock)));
            c.snell_write(b"again").unwrap();
            carry(&mut c, &mut s);
            assert_eq!(s.read_up_to(100).unwrap(), b"again".to_vec());
        }
    }
}

#[test]
fn a_fresh_server_answers_in_its_own_suite() {
    let mut s = server("");
    s.snell_write(b"hello").unwrap();
    let out = s.take_output();
    let aead = new_aes128_gcm(PSK).decrypter(&out[..16]);
    assert_eq!(aead.decrypt(&[0u8; 12], &out[16..34]).unwrap(), vec![0, 5]);
    let mut nonce = [0u8; 12];
    nonce[0] = 1;
    assert_eq!(aead.decrypt(&nonce, &out[34..]).unwrap(), b"hello".to_vec());
    assert_eq!(out.len(), 16 + 18 + 21);
}

#[test]
fn salts_are_fresh() {
    let mut a = client("", true);
    let mut b = client("", true);
    a.snell_write(b"x").unwrap();
    b.snell_write(b"x").unwrap();
    assert_ne!(a.take_output()[..16], b.take_output()[..16]);
}

#[test]
fn long_data_goes_in_several_records() {
    let mut c = client("tls", true);
    let mut s = server("tls");
    let data: Vec<u8> = (0..50000u32).map(|i| i as u8).collect();
    assert_eq!(c.snell_write(&data).unwrap(), 50000);
    carry(&mut c, &mut s);
    let mut sizes = Vec::new();
    let mut got = Vec::new();
    while let Ok(part) = s.read_up_to(20 * 1024) {
        sizes.push(part.len());
        got.extend_from_slice(&part);
    }
    assert_eq!(got, data);
    assert_eq!(sizes, vec![16383, 16383, 16383, 851]);
}

#[test]
fn short_reads_leave_the_rest_of_a_record() {
    let mut c = client("", true);
    let mut s = server("");
    c.snell_write(b"abcdef").unwrap();
    c.snell_write(b"gh").unwrap();
    carry(&mut c, &mut s);
    let mut buf = [9u8; 4];
    assert_eq!(s.snell_read(&mut buf).unwrap(), 4);
    assert_eq!(&buf, b"abcd");
    assert_eq!(s.snell_read(&mut buf).unwrap(), 2);
    assert_eq!(&buf, b"efcd");
    assert_eq!(s.snell_read(&mut buf).unwrap(), 2);
    assert_eq!(&buf, b"ghcd");
    assert!(matches!(s.snell_read(&mut buf), Err(IoError::WouldBlock)));
    assert_eq!(&buf, b"ghcd");
}

#[test]
fn reads_of_any_size_hand_out_what_was_written() {
    let data: Vec<u8> = (0..40000u32).map(|i| (i % 251) as u8).collect();
    for obfs in ["", "tls", "http"] {
        for is_v2 in [true, false] {
            for caps in [vec![1000usize], vec![1, 16382, 5], vec![16383], vec![16384, 3]] {
                let mut c = client(obfs, is_v2);
                let mut s = server(obfs);
                c.snell_write(&data[..30000]).unwrap();
                c.snell_write(&data[30000..]).unwrap();
                carry(&mut c, &mut s);
                let mut got = Vec::new();
                let mut calls = 0;
                loop {
                    let cap = caps[calls % caps.len()];
                    calls += 1;
                    match s.read_up_to(cap) {
                        Ok(part) => {
                            assert!(!part.is_empty() && part.len() <= cap);
                            got.extend_from_slice(&part);
                        }
                        Err(e) => {
                            assert!(matches!(e, IoError::WouldBlock));
                            break;
                        }
                    }
                }
                assert_eq!(got, data);
            }
        }
    }
}

#[test]
fn small_reads_meet_a_record_without_payload_once() {
    for is_v2 in [true, false] {
        let mut c = client("tls", is_v2);
        let mut s = server("tls");
        c.snell_write(b"first").unwrap();
        c.write_zero_chunk().unwrap();
        c.snell_write(b"second").unwrap();
        carry(&mut c, &mut s);
        let mut got = Vec::new();
        loop {
            match s.read_up_to(2) {
                Ok(part) => got.push(part),
                Err(e) if is_zero_chunk(&e) => got.push(vec![]),
                Err(e) => {
                    assert!(matches!(e, IoError::WouldBlock));
                    break;
                }
            }
        }
        let expected: Vec<Vec<u8>> = ["fi", "rs", "t", "", "se", "co", "nd"].iter().map(|p| p.as_bytes().to_vec()).collect();
        assert_eq!(got, expected);
    }
}

#[test]
fn a_record_without_payload_ends_a_stream() {
    let mut c = client("", true);
    let mut s = server("");
    c.snell_write(b"x").unwrap();
    c.write_zero_chunk().unwrap();
    c.snell_write(b"y").unwrap();
    carry(&mut c, &mut s);
    assert_eq!(s.read_up_to(10).unwrap(), b"x".to_vec());
    let e = s.read_up_to(10).unwrap_err();
    assert!(is_zero_chunk(&e));
    assert_eq!(e.message(), "Snell ZERO_CHUNK occurred");
    assert_eq!(ZeroChunkError.message(), e.message());
    assert_eq!(s.read_up_to(10).unwrap(), b"y".to_vec());
    assert!(!is_zero_chunk(&IoError::UnexpectedEof));
}

#[test]
fn streams_may_arrive_in_pieces() {
    for obfs in ["", "tls", "http"] {
        for is_v2 in [true, false] {
            let mut c = client(obfs, is_v2);
            let mut s = server(obfs);
            c.snell_write(b"hello").unwrap();
            c.snell_write(b"world").unwrap();
            let mut got = Vec::new();
            for b in c.take_output() {
                s.feed(&[b]);
                match s.read_up_to(100) {
                    Ok(part) => got.push(part),
                    Err(IoError::WouldBlock) => {}
                    Err(e) => panic!("{:?}", e),
                }
            }
            assert_eq!(got, vec![b"hello".to_vec(), b"world".to_vec()]);
        }
    }
}

#[test]
fn any_pieces_and_any_sizes() {
    let data: Vec<u8> = (0..20000u32).map(|i| (i % 253) as u8).collect();
    for obfs in ["", "tls", "http"] {
        for is_v2 in [true, false] {
            for piece in [1usize, 100, 4500] {
                let mut c = client(obfs, is_v2);
                let mut s = server(obfs);
                c.snell_write(&data).unwrap();
                let out = c.take_output();
                let mut got = Vec::new();
                for part in out.chunks(piece) {
                    s.feed(part);
                    match s.read_up_to(700) {
                        Ok(part) => got.extend_from_slice(&part),
                        Err(e) => assert!(matches!(e, IoError::WouldBlock)),
                    }
                    assert_eq!(got[..], data[..got.len()]);
                }
                while let Ok(part) = s.read_up_to(333) {
                    got.extend_from_slice(&part);
                }
                assert_eq!(got, data);
            }
        }
    }
}

#[test]
fn changed_records_are_rejected() {
    let mut c = client("", true);
    let mut s = server("");
    c.snell_write(b"x").unwrap();
    let mut out = c.take_output();
    out[20] ^= 1;
    s.feed(&out);
    assert!(matches!(s.read_up_to(10), Err(IoError::Aead(_))));

    let mut c = client("", true);
    let mut s = server("");
    c.snell_write(b"x").unwrap();
    let mut out = c.take_output();
    out[40] ^= 1;
    s.feed(&out);
    let e = s.read_up_to(10).unwrap_err();
    assert!(matches!(e, IoError::Aead(_)));
    assert_eq!(e.message(), "aead::Error");
}

#[test]
fn another_key_opens_nothing() {
    let mut c = SnellConn::new_client_conn(Wire::new(), b"other", "", "h", "1", true).unwrap();
    let mut s = server("");
    c.snell_write(b"x").unwrap();
    carry(&mut c, &mut s);
    assert!(matches!(s.read_up_to(10), Err(IoError::Aead(_))));
}

#[test]
fn a_server_falls_back_on_the_first_record_alone() {
    let mut c = client("", true);
    let mut s = server("");
    c.snell_write(b"x").unwrap();
    let out = c.take_output();
    s.feed(&out);
    assert_eq!(s.read_up_to(10).unwrap(), b"x".to_vec());

    let other = new_chacha20_poly1305(PSK).encrypter(&out[..16]);
    let mut nonce = [0u8; 12];
    nonce[0] = 2;
    s.feed(&other.encrypt(&nonce, &[0, 1]).unwrap());
    assert!(matches!(s.read_up_to(10), Err(IoError::Aead(_))));

    c.snell_write(b"y").unwrap();
    carry(&mut c, &mut s);
    assert_eq!(s.read_up_to(10).unwrap(), b"y".to_vec());
    s.snell_write(b"z").unwrap();
    let reply = s.take_output();
    let own = new_aes128_gcm(PSK).decrypter(&reply[..16]);
    assert_eq!(own.decrypt(&[0u8; 12], &reply[16..34]).unwrap(), vec![0, 1]);
}

#[test]
fn a_server_tries_the_fallback_suite_once() {
    let mut c = client("", false);
    let mut s = server("");
    c.snell_write(b"x").unwrap();
    let out = c.take_output();
    let mut broken = out.clone();
    broken[20] ^= 1;
    s.feed(&broken[..34]);
    assert!(matches!(s.read_up_to(10), Err(IoError::Aead(_))));
    s.feed(&out[16..]);
    assert!(matches!(s.read_up_to(10), Err(IoError::Aead(_))));
}

#[test]
fn a_client_does_not_fall_back() {
    let mut s = SnellConn::new_client_conn(Wire::new(), PSK, "", "h", "1", false).unwrap();
    let mut c = client("", true);
    s.snell_write(b"x").unwrap();
    carry(&mut s, &mut c);
    assert!(matches!(c.read_up_to(10), Err(IoError::Aead(_))));
}

#[test]
fn the_end_of_the_stream_is_reported() {
    let mut c = client("", true);
    let mut s = server("");
    assert!(matches!(s.read_up_to(10), Err(IoError::WouldBlock)));
    c.snell_write(b"x").unwrap();
    let out = c.take_output();
    s.feed(&out[..30]);
    assert!(matches!(s.read_up_to(10), Err(IoError::WouldBlock)));
    s.close();
    let e = s.read_up_to(10).unwrap_err();
    assert!(matches!(e, IoError::ConnectionClosed));
    assert_eq!(e.message(), "connection closed");
    assert_eq!(IoError::WouldBlock.message(), "operation would block");
}

#[test]
fn what_came_before_the_end_of_the_stream_is_lost() {
    let mut c = client("", true);
    let mut s = server("");
    c.snell_write(b"x").unwrap();
    let out = c.take_output();
    s.feed(&out[..40]);
    s.close();
    assert!(matches!(s.read_up_to(10), Err(IoError::ConnectionClosed)));
    s.feed(&out[34..]);
    assert!(matches!(s.read_up_to(10), Err(IoError::ConnectionClosed)));
}

#[test]
fn a_disguise_that_ends_early_is_told_apart() {
    for obfs in ["tls", "http"] {
        let mut c = client(obfs, true);
        let mut s = server(obfs);
        c.snell_write(b"x").unwrap();
        let out = c.take_output();
        s.feed(&out[..50]);
        s.close();
        let e = s.read_up_to(10).unwrap_err();
        assert!(matches!(e, IoError::UnexpectedEof));
        assert_eq!(e.message(), "early eof");
    }
    let mut c = client("http", true);
    let mut s = server("http");
    c.snell_write(b"x").unwrap();
    let out = c.take_output();
    s.feed(&out[..out.len() - 1]);
    s.close();
    assert!(matches!(s.read_up_to(10), Err(IoError::ConnectionClosed)));
}

#[test]
fn exact_reads_hand_out_consecutive_slices() {
    for obfs in ["", "tls", "http"] {
        let mut c = client(obfs, true);
        let mut s = server(obfs);
        let mut t = server(obfs);
        c.snell_write(&[7u8; 9000]).unwrap();
        let out = c.take_output();
        s.feed(&out);
        t.feed(&out);
        let mut parts = s.obfs_read_exact(10).unwrap();
        parts.extend_from_slice(&s.obfs_read_exact(4500).unwrap());
        parts.extend_from_slice(&s.obfs_read_exact(0).unwrap());
        assert_eq!(t.obfs_read_exact(4510).unwrap(), parts);
        assert!(matches!(s.obfs_read_exact(9000), Err(IoError::WouldBlock)));
        assert_eq!(s.obfs_read_exact(4540).unwrap(), t.obfs_read_exact(4540).unwrap());
        s.close();
        assert!(s.obfs_read_exact(1).is_err());
    }
}

#[test]
fn a_request_without_body_closes_the_stream() {
    let mut s = server("http");
    s.feed(b"GET / HTTP/1.1\r\n\r\n");
    assert!(matches!(s.read_up_to(10), Err(IoError::ConnectionClosed)));
}

#[test]
fn a_header_holds_14_bits() {
    assert_eq!(record_size(&[0, 0]), 0);
    assert_eq!(record_size(&[1, 2]), 258);
    assert_eq!(record_size(&[0x3f, 0xff]), 16383);
    assert_eq!(record_size(&[0xc0, 0x05]), 5);
    assert_eq!(record_size(&[0x40, 0x00]), 0);
}

#[test]
fn payload_is_split_at_what_was_asked_for() {
    assert_eq!(hand_out(b"abc".to_vec(), 2), (b"ab".to_vec(), b"c".to_vec()));
    assert_eq!(hand_out(b"abc".to_vec(), 3), (b"abc".to_vec(), vec![]));
    assert_eq!(hand_out(b"abc".to_vec(), 9), (b"abc".to_vec(), vec![]));
    assert_eq!(hand_out(b"abc".to_vec(), 0), (vec![], b"abc".to_vec()));
}
