use rdp_client::proto::credssp::{
    reply_of, target, Answer, Credentials, Logon, LogonError, Reading, Request, Turn,
};

/// The bytes of an answer one at a time, and what the last of them asks for.
fn read(bytes: &[u8]) -> Result<Reading, LogonError> {
    let mut answer = Answer::new();
    for byte in &bytes[..bytes.len() - 1] {
        assert_eq!(answer.push(*byte), Ok(Reading::Byte));
    }
    answer.push(bytes[bytes.len() - 1])
}

/// The length is discovered from the header, in each of its forms, and what is left to read
/// is what it announces less what has been read.
#[test]
fn the_header_says_how_much_is_left_to_read() {
    assert_eq!(read(&[0x30, 0x05]), Ok(Reading::Rest(5)));
    assert_eq!(read(&[0x30, 0x81, 0xC8]), Ok(Reading::Rest(200)));
    assert_eq!(read(&[0x30, 0x82, 0x01, 0x00]), Ok(Reading::Rest(256)));
    assert_eq!(read(&[0x30, 0x82, 0xFF, 0xFB]), Ok(Reading::Rest(0xFFFB)));
}

/// What is not the header of a sequence is given as many bytes as a header can take, and
/// then is not an answer at all.
#[test]
fn what_is_not_a_credssp_response_is_said_to_be_none() {
    let err = read(&[0x31, 0x05, 0, 0, 0, 0]).unwrap_err();
    assert_eq!(
        err.to_string(),
        "the server's answer is not a CredSSP response: invalid sequence tag identifier"
    );
    let cause = "invalid length of the length".to_owned();
    assert_eq!(read(&[0x30, 0x83, 0, 0, 5, 0]), Err(LogonError::NotCredssp { cause }));
    let cause = "the length is too big".to_owned();
    assert_eq!(read(&[0x30, 0x82, 0xFF, 0xFC, 0, 0]), Err(LogonError::NotCredssp { cause }));
    // A length written in more bytes than it needs announces a shorter header than it has.
    let err = read(&[0x30, 0x82, 0x00, 0x01]).unwrap_err();
    assert_eq!(err.to_string(), "a CredSSP response announced 3 bytes, fewer than its own header");
    let mut answer = Answer::new();
    answer.push(0x30).unwrap();
    assert_eq!(
        answer.cut_short().to_string(),
        "the server closed the connection during the logon attempt, after 1 bytes"
    );
}

/// The client speaks first: its first message is one whole `TSRequest`, and not the last.
#[test]
fn the_first_message_is_a_whole_request() {
    let credentials = Credentials { username: "andrew", password: "x", domain: None };
    let logon = Logon::new(vec![1, 2, 3], &credentials, "desk").ok().unwrap();
    let (_, reply) = logon.start().ok().unwrap();
    assert!(!reply.done);
    let mut answer = Answer::new();
    let mut read = 0;
    let rest = loop {
        let reading = answer.push(reply.bytes[read]).unwrap();
        read += 1;
        if let Reading::Rest(rest) = reading {
            break rest;
        }
    };
    assert_eq!(read + rest, reply.bytes.len());
}

/// A logon that has said its first word.
fn started() -> Logon {
    let credentials = Credentials { username: "andrew", password: "x", domain: Some("HOME") };
    Logon::new(vec![1, 2, 3], &credentials, "desk").ok().unwrap().start().ok().unwrap().0
}

/// A request of nothing but a version.
fn bare() -> Request {
    Request {
        version: 6,
        nego_tokens: None,
        auth_info: None,
        pub_key_auth: None,
        error_code: None,
        client_nonce: None,
    }
}

/// An answer that decodes to nothing, and one the mechanism refuses, each end the logon.
#[test]
fn an_answer_that_is_not_one_ends_the_logon() {
    let err = started().answer(&Answer { bytes: vec![0x30, 0x00] }).err().unwrap();
    assert_eq!(err.to_string(), "decoding a CredSSP response: failed to fill whole buffer");
    // A request of nothing but a version carries no token to answer.
    let bytes = vec![0x30, 0x05, 0xA0, 0x03, 0x02, 0x01, 0x06];
    let err = started().answer(&Answer { bytes }).err().unwrap();
    assert!(err.to_string().starts_with("the logon attempt was refused: "), "{}", err.to_string());
}

/// An error code of the server's is a refusal, and the mechanism says so in its own words.
#[test]
fn an_error_code_refuses_the_logon() {
    let turn = Turn { request: Request { error_code: Some(0xC000_006D), ..bare() }, done: false };
    let bytes = reply_of(turn).ok().unwrap().bytes;
    assert_eq!(
        bytes,
        [0x30, 0x0D, 0xA0, 0x03, 0x02, 0x01, 0x06, 0xA4, 0x06, 0x02, 0x04, 0xC0, 0x00, 0x00, 0x6D]
    );
    let err = started().answer(&Answer { bytes }).err().unwrap();
    assert!(err.to_string().contains("CredSSP server returned an error status"), "{}", err.to_string());
}

/// A name that mixes two ways of writing one is no user name.
#[test]
fn a_name_written_two_ways_is_refused() {
    let credentials = Credentials { username: "HOME\\andrew", password: "x", domain: Some("HOME") };
    let err = Logon::new(vec![1, 2, 3], &credentials, "desk").err().unwrap();
    assert_eq!(err.to_string(), "\"HOME\\\\andrew\" is not a user name: mixed username format");
}

/// A request comes out in the bytes the mechanism writes it in, unless its length cannot be
/// written.
#[test]
fn a_request_goes_out_as_it_is_written() {
    let reply = reply_of(Turn { request: bare(), done: true }).ok().unwrap();
    assert_eq!((reply.bytes, reply.done), (vec![0x30, 0x05, 0xA0, 0x03, 0x02, 0x01, 0x06], true));
    let request = Request { nego_tokens: Some(vec![7]), ..bare() };
    let reply = reply_of(Turn { request, done: false }).ok().unwrap();
    assert_eq!(
        reply.bytes,
        [
            0x30, 0x10, 0xA0, 0x03, 0x02, 0x01, 0x06, 0xA1, 0x09, 0x30, 0x07, 0x30, 0x05, 0xA0, 0x03, 0x04,
            0x01, 0x07
        ]
    );
    // 25 bytes of headers and a version go with the token.
    let request = Request { nego_tokens: Some(vec![0; 0xFFFF - 25]), ..bare() };
    assert!(request.fits());
    assert_eq!(reply_of(Turn { request, done: false }).ok().unwrap().bytes.len(), 0xFFFF + 4);
    let request = Request { nego_tokens: Some(vec![0; 0xFFFF - 24]), ..bare() };
    let err = reply_of(Turn { request, done: false }).err().unwrap();
    assert_eq!(err.to_string(), "encoding a CredSSP request");
}

/// A proof with no room for a signature is none.
#[test]
fn a_short_proof_is_none() {
    let short = Request { pub_key_auth: Some(vec![1; 15]), ..bare() };
    assert_eq!(short.signed().pub_key_auth, None);
    let whole = Request { pub_key_auth: Some(vec![1; 16]), ..bare() };
    assert_eq!(whole.signed().pub_key_auth, Some(vec![1; 16]));
}

/// What the mechanism sends of the credentials is counted in 16 bits.
#[test]
fn credentials_that_cannot_be_sent_are_known() {
    let password = "p".repeat((0xFFFF - 64 - 12) / 2);
    assert!(Credentials { username: "andrew", password: &password, domain: None }.fit());
    assert!(!Credentials { username: "andrew", password: &password, domain: Some("HOME") }.fit());
}

/// A password that is a hash is taken apart two bytes at a time, which must not cut a
/// character in two.
#[test]
fn a_hash_that_cannot_be_taken_apart_is_known() {
    let fit = |rest: &str| {
        let password = format!("$NTLM$:{rest}");
        Credentials { username: "andrew", password: &password, domain: None }.fit()
    };
    let wide = "\u{e9}".repeat(15);
    assert!(!fit(&format!("a{wide}a")));
    assert!(fit(&format!("{wide}\u{e9}")), "the first two bytes are a character, and no number");
    assert!(fit(&format!("zz{wide}")), "what is no number is not read past");
    assert!(!fit(&format!("00a{}a{}", "\u{e9}".repeat(6), "0".repeat(16))));
    assert!(!fit(&"\u{20ac}".repeat(10).chars().chain("00".chars()).collect::<String>()));
    assert!(fit("8119935C5F7FA5F57135620C8073AACA"));
    assert!(fit(&format!("a{wide}")), "too short to be a hash");
    let plain = format!("a{wide}a");
    assert!(Credentials { username: "andrew", password: &plain, domain: None }.fit());
}

#[test]
fn the_errors_of_a_logon_say_what_was_being_done() {
    assert_eq!(target("desk.example"), "TERMSRV/desk.example");
    let starting = LogonError::Starting { cause: "no".to_owned() };
    assert_eq!(starting.to_string(), "starting CredSSP: no");
    assert_eq!(LogonError::Encoding.to_string(), "encoding a CredSSP request");
    let name = LogonError::NotAUserName { username: "a/\"b".to_owned(), cause: "no".to_owned() };
    assert_eq!(name.to_string(), "\"a/\\\"b\" is not a user name: no");
}
