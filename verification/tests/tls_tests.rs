use rust_snell::tls::{build_client_hello, build_server_hello, make_client_hello, make_server_hello, push_app_data};

#[test]
fn server_hello_layout() {
    let random = [7u8; 28];
    let session_id = [8u8; 32];
    let hello = build_server_hello(0x01020304, &random, &session_id, b"data");
    assert_eq!(hello.len(), 107 + 4);
    assert_eq!(hello[..15], [0x16, 0x03, 0x01, 0, 91, 0x02, 0, 0, 0x57, 0x03, 0x03, 1, 2, 3, 4]);
    assert_eq!(hello[15..43], random);
    assert_eq!(hello[43], 32);
    assert_eq!(hello[44..76], session_id);
    assert_eq!(hello[96..107], [0x14, 0x03, 0x03, 0, 1, 1, 0x16, 0x03, 0x03, 0, 4]);
    assert_eq!(hello[107..], *b"data");
}

#[test]
fn client_hello_layout() {
    let random = [7u8; 28];
    let session_id = [8u8; 32];
    let hello = build_client_hello(0x01020304, &random, &session_id, b"ticket", "bing.com");
    assert_eq!(hello.len(), 217 + 6 + 8);
    assert_eq!(hello[..15], [22, 3, 1, 0, 226, 1, 0, 0, 222, 3, 3, 1, 2, 3, 4]);
    assert_eq!(hello[15..43], random);
    assert_eq!(hello[43], 32);
    assert_eq!(hello[44..76], session_id);
    assert_eq!(hello[76..78], [0, 0x38]);
    assert_eq!(hello[134..142], [1, 0, 0, 93, 0, 0x23, 0, 6]);
    assert_eq!(hello[142..148], *b"ticket");
    assert_eq!(hello[148..157], [0, 0, 0, 13, 0, 11, 0, 0, 8]);
    assert_eq!(hello[157..165], *b"bing.com");
    assert_eq!(hello[165..173], [0, 0x0b, 0, 4, 3, 1, 0, 2]);
    assert_eq!(hello[223..], [0, 0x16, 0, 0, 0, 0x17, 0, 0]);
}

#[test]
fn lengths_are_cut_to_two_bytes() {
    let data = vec![1u8; 0x1_0003];
    let hello = build_server_hello(0, &[0u8; 28], &[0u8; 32], &data);
    assert_eq!(hello[105..107], [0, 3]);
    assert_eq!(hello.len(), 107 + data.len());
}

#[test]
fn hellos_hold_fresh_values() {
    let a = make_server_hello(b"x");
    let b = make_server_hello(b"x");
    assert_eq!(a.len(), 108);
    assert_ne!(a[15..43], b[15..43]);
    assert_ne!(a[44..76], b[44..76]);
    let c = make_client_hello(b"x", "h");
    let d = make_client_hello(b"x", "h");
    assert_eq!(c.len(), 219);
    assert_ne!(c[15..43], d[15..43]);
    assert_ne!(a[11..15], [0, 0, 0, 0]);
}

#[test]
fn application_data_is_cut_into_records() {
    let mut out = vec![9u8];
    push_app_data(&mut out, b"abc");
    assert_eq!(out, vec![9, 0x17, 3, 3, 0, 3, b'a', b'b', b'c']);
    let mut none = Vec::new();
    push_app_data(&mut none, b"");
    assert!(none.is_empty());
    let data = vec![5u8; 16384 + 1];
    let mut two = Vec::new();
    push_app_data(&mut two, &data);
    assert_eq!(two.len(), data.len() + 10);
    assert_eq!(two[..5], [0x17, 3, 3, 0x40, 0]);
    assert_eq!(two[5 + 16384..], [0x17, 3, 3, 0, 1, 5]);
}
