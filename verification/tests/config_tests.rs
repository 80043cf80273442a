use rust_snell::config::{Config, Launch};

#[test]
fn a_server_file() {
    let c = Config::parse_file_auto("[snell-server]\nlisten = 0.0.0.0:12345\npsk = your-secret-key\nobfs = tls\n");
    assert!(c.server);
    assert_eq!(c.listen, "0.0.0.0:12345");
    assert_eq!(c.psk, "your-secret-key");
    assert_eq!(c.obfs, "tls");
    assert_eq!(c.server_addr, "");
}

#[test]
fn a_client_file() {
    let c = Config::parse_file_auto(
        "[snell-client]\r\nlisten = 127.0.0.1:1080\r\nserver = your-server:12345\r\npsk = your-secret-key\r\n\
         obfs = http\r\nobfs-host = www.bing.com\r\nversion = 2",
    );
    assert!(!c.server);
    assert_eq!(c.listen, "127.0.0.1:1080");
    assert_eq!(c.server_addr, "your-server:12345");
    assert_eq!(c.psk, "your-secret-key");
    assert_eq!(c.obfs, "http");
    assert_eq!(c.obfs_host, "www.bing.com");
    assert_eq!(c.version, "2");
}

#[test]
fn lines_that_say_nothing() {
    let plain = Config::parse_file_auto("[snell-server]\npsk=a=b\n");
    let noisy = Config::parse_file_auto("# x\n\n[snell-server]\n ; psk = z\n  psk = a=b  \nnonsense\n#psk = q\n");
    assert_eq!(plain.psk, "a=b");
    assert_eq!(noisy.psk, "a=b");
    assert_eq!(noisy.server, plain.server);
}

#[test]
fn blanks_do_not_matter() {
    let plain = Config::parse_file_auto("[snell-client]\nserver=s:1\npsk=a b\nversion=2\n");
    let spaced = Config::parse_file_auto(
        "\t[  snell-client\t]  \nno key here\n  server\t=  s:1\npsk \u{3000}= a b \u{a0}\n\n[half\n version=2\t\n",
    );
    assert_eq!(plain.server_addr, "s:1");
    assert_eq!(plain.psk, "a b");
    assert_eq!(plain.version, "2");
    assert_eq!(spaced.server_addr, plain.server_addr);
    assert_eq!(spaced.psk, plain.psk);
    assert_eq!(spaced.version, plain.version);
    assert_eq!(spaced.server, plain.server);
    let odd = Config::parse_file_auto("[snell-server]\n[ listen = x ]\nlisten = y\n");
    let other = Config::parse_file_auto("[snell-server]\n[listen=x]\nlisten=y\n");
    assert_eq!(odd.listen, "");
    assert_eq!(odd.listen, other.listen);
}

#[test]
fn keys_outside_known_sections_are_ignored() {
    let c = Config::parse_file_auto("psk = a\n[other]\npsk = b\n[ snell-client ]\nserver = s:1\n[]\nversion = 1\n");
    assert_eq!(c.psk, "");
    assert_eq!(c.server_addr, "s:1");
    assert_eq!(c.version, "");
    assert_eq!(Config::parse_file_auto("[snell-server]\nserver = x\nversion = 1\n").server_addr, "");
}

#[test]
fn later_lines_hold() {
    let c = Config::parse_file_auto("[snell-server]\npsk = a\n[snell-client]\npsk = b\nunknown = c\n");
    assert_eq!(c.psk, "b");
    assert!(!c.server);
    let c = Config::parse_file_auto("[snell-client]\npsk = b\n[snell-server]\nunknown = c\n");
    assert!(c.server);
    assert!(!Config::parse_file_auto("[snell-server]\n").server);
}

#[test]
fn what_a_configuration_starts() {
    let mut c = Config::default();
    assert!(matches!(c.launch(), Launch::NoPsk));
    c.psk = "k".to_string();
    assert!(matches!(c.launch(), Launch::NoServer));
    c.server = true;
    c.listen = "l:1".to_string();
    c.obfs = "off".to_string();
    match c.launch() {
        Launch::Server { listen, psk, obfs } => {
            assert_eq!((listen.as_str(), psk.as_str(), obfs.as_str()), ("l:1", "k", ""));
        }
        _ => panic!("a server starts"),
    }
    c.obfs = "http".to_string();
    assert!(matches!(c.launch(), Launch::Server { obfs, .. } if obfs == "http"));
}

#[test]
fn what_a_client_configuration_starts() {
    let mut c = Config::default();
    c.psk = "k".to_string();
    c.server_addr = "server:443".to_string();
    c.listen = "l:1".to_string();
    c.obfs = "http".to_string();
    c.version = "1".to_string();
    match c.launch() {
        Launch::Client { listen, client } => {
            assert_eq!(listen, "l:1");
            assert_eq!(client.server_addr(), "server:443");
            let mut session = client.create_session("t:1").unwrap();
            assert!(!session.is_v2);
            let out = session.conn.take_output();
            assert!(out.starts_with(b"GET / HTTP/1.1\r\nHost: www.bing.com:443\r\n"));
        }
        _ => panic!("a client starts"),
    }
    c.version = "3".to_string();
    c.obfs = "none".to_string();
    match c.launch() {
        Launch::Client { client, .. } => {
            let session = client.create_session("t:1").unwrap();
            assert!(session.is_v2);
        }
        _ => panic!("a client starts"),
    }
}
