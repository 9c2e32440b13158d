use mc_ping::error::CodecError;
use mc_ping::exchange::{Action, Event, Phase, StatusExchange};
use mc_ping::frame::serialize_envelope;
use mc_ping::mc_string::write_string;
use mc_ping::packets::ClientHandshake;
use mc_ping::varint::VarInt;

fn response(id: i32, json: &str) -> Vec<u8> {
    let mut payload = Vec::new();
    write_string(&mut payload, json);
    serialize_envelope(&VarInt::from(id), &payload)
}

fn sent(action: Action) -> Vec<u8> {
    match action {
        Action::Send(bytes) => bytes,
        other => panic!("expected bytes to send, got {:?}", other),
    }
}

fn wanted(action: Action) -> usize {
    match action {
        Action::Read(n) => n,
        other => panic!("expected a read, got {:?}", other),
    }
}

/// Hands the stream to the exchange in chunks of `size` bytes, as a transport
/// would, and returns what the exchange ends with and the phases it passed.
fn drive(
    mut exchange: StatusExchange,
    stream: &[u8],
    size: usize,
) -> (Result<String, CodecError>, Vec<Phase>, Vec<Vec<u8>>) {
    let mut phases = vec![exchange.phase()];
    let mut sends = Vec::new();
    let mut at = 0;
    let mut action = exchange.step(Event::Proceed);
    let mut steps = 0;
    loop {
        steps += 1;
        assert!(steps < 100_000, "the exchange does not end");
        if phases[phases.len() - 1] != exchange.phase() {
            phases.push(exchange.phase());
        }
        action = match action {
            Action::Send(bytes) => {
                sends.push(bytes);
                exchange.step(Event::Proceed)
            }
            Action::Read(n) => {
                assert!(n >= 1);
                let take = n.min(size).min(stream.len() - at);
                if take == 0 {
                    exchange.step(Event::EndOfStream)
                } else {
                    at += take;
                    exchange.step(Event::Data(&stream[at - take..at]))
                }
            }
            Action::Proceed => exchange.step(Event::Proceed),
            Action::Finish => break,
        };
    }
    assert_eq!(exchange.phase(), Phase::Done);
    let result = exchange.into_result().unwrap().map(|r| r.json);
    (result, phases, sends)
}

#[test]
fn exchange_sends_handshake_then_query_then_reads() {
    let handshake = ClientHandshake::new("127.0.0.1".to_string(), 25565).to_bytes();
    let mut exchange = StatusExchange::new(handshake.clone());
    assert_eq!(exchange.phase(), Phase::Idle);
    assert_eq!(sent(exchange.step(Event::Proceed)), handshake);
    assert_eq!(exchange.phase(), Phase::HandshakeSent);
    assert_eq!(sent(exchange.step(Event::Proceed)), vec![0x01, 0x00]);
    assert_eq!(exchange.phase(), Phase::QuerySent);
    assert_eq!(wanted(exchange.step(Event::Proceed)), 1);
    assert_eq!(exchange.phase(), Phase::AwaitingEnvelopeLength);

    let bytes = response(0, "{\"a\":1}");
    assert_eq!(bytes.len(), 10);
    // The length of the envelope: one byte.
    assert_eq!(wanted(exchange.step(Event::Data(&bytes[..1]))), 9);
    assert_eq!(exchange.phase(), Phase::AwaitingEnvelopeBody);
    assert_eq!(wanted(exchange.step(Event::Data(&bytes[1..4]))), 6);
    assert_eq!(exchange.phase(), Phase::AwaitingEnvelopeBody);
    // Nothing was read: the exchange asks again.
    assert_eq!(wanted(exchange.step(Event::Proceed)), 6);
    assert!(matches!(exchange.step(Event::Data(&bytes[4..])), Action::Proceed));
    assert_eq!(exchange.phase(), Phase::AwaitingJsonLength);
    assert!(matches!(exchange.step(Event::Proceed), Action::Proceed));
    assert_eq!(exchange.phase(), Phase::AwaitingJsonBody);
    assert!(matches!(exchange.step(Event::Proceed), Action::Finish));
    assert_eq!(exchange.phase(), Phase::Done);
    // An exchange that is done stays done.
    assert!(matches!(exchange.step(Event::Data(&[1, 2, 3])), Action::Finish));
    assert!(matches!(exchange.step(Event::EndOfStream), Action::Finish));
    assert_eq!(exchange.phase(), Phase::Done);
    let response = exchange.into_result().unwrap().unwrap();
    assert_eq!(response.json, "{\"a\":1}");
    assert_eq!(response.json_len.value(), 7);
    assert_eq!(response.len.value(), 9);
    assert_eq!(response.packet_id.value(), 0);
}

#[test]
fn exchange_after_the_handshake_sends_the_query_only() {
    let (result, phases, sends) =
        drive(StatusExchange::after_handshake(), &response(0, "{}"), 4096);
    assert_eq!(result, Ok("{}".to_string()));
    assert_eq!(sends, vec![vec![0x01, 0x00]]);
    assert_eq!(phases[0], Phase::HandshakeSent);
}

#[test]
fn exchange_that_is_not_done_has_no_result() {
    assert!(StatusExchange::new(vec![1, 2]).into_result().is_none());
    let mut exchange = StatusExchange::after_handshake();
    exchange.step(Event::Proceed);
    exchange.step(Event::Proceed);
    exchange.step(Event::Data(&[0x05, 0x00]));
    assert!(exchange.into_result().is_none());
}

#[test]
fn exchange_ends_the_same_however_the_stream_is_cut() {
    let json = format!("{{\"description\":\"{}\"}}", "m".repeat(1000));
    let streams: Vec<Vec<u8>> = vec![
        response(0, &json),
        response(0, ""),
        response(7, &json),
        response(0, &json)[..700].to_vec(),
        vec![],
        vec![0x80, 0x80, 0x80, 0x80, 0x80, 0x01],
        serialize_envelope(&VarInt::from(0), &[0xf4, 0x03, b'x', b'y']),
        serialize_envelope(&VarInt::from(0), &[]),
        vec![0x00],
    ];
    for stream in &streams {
        let (whole, _, _) = drive(StatusExchange::new(vec![9]), stream, usize::MAX);
        for size in [1usize, 2, 3, 7, 64, 1000] {
            let (cut, phases, sends) = drive(StatusExchange::new(vec![9]), stream, size);
            assert_eq!(cut, whole);
            assert_eq!(sends, vec![vec![9], vec![0x01, 0x00]]);
            // The phases are passed in their order, none twice.
            let order = [
                Phase::Idle,
                Phase::HandshakeSent,
                Phase::QuerySent,
                Phase::AwaitingEnvelopeLength,
                Phase::AwaitingEnvelopeBody,
                Phase::AwaitingJsonLength,
                Phase::AwaitingJsonBody,
                Phase::Done,
            ];
            let places: Vec<usize> = phases
                .iter()
                .map(|p| order.iter().position(|q| q == p).unwrap())
                .collect();
            for pair in places.windows(2) {
                assert!(pair[0] < pair[1]);
            }
        }
    }
}

#[test]
fn exchange_results() {
    let json = "{\"players\":{\"max\":20,\"online\":1}}";
    let run = |stream: &[u8]| drive(StatusExchange::after_handshake(), stream, 5).0;
    assert_eq!(run(&response(0, json)), Ok(json.to_string()));
    assert_eq!(run(&response(1, json)), Err(CodecError::UnexpectedPacketId));
    assert_eq!(
        run(&response(0, json)[..20]),
        Err(CodecError::IncompletePacket)
    );
    assert_eq!(run(&[]), Err(CodecError::IncompletePacket));
    assert_eq!(run(&[0x80]), Err(CodecError::IncompletePacket));
    assert_eq!(
        run(&[0xff, 0xff, 0xff, 0xff, 0xff]),
        Err(CodecError::MalformedVarInt)
    );
    assert_eq!(
        run(&serialize_envelope(&VarInt::from(0), &[0x80])),
        Err(CodecError::MalformedVarInt)
    );
    let mut payload = vec![0xf4, 0x03];
    payload.extend_from_slice(&[b'x'; 300]);
    assert_eq!(
        run(&serialize_envelope(&VarInt::from(0), &payload)),
        Err(CodecError::TruncatedString)
    );
}

#[test]
fn exchange_with_a_large_response_asks_for_what_is_missing() {
    let json = "j".repeat(50_000);
    let bytes = response(0, &json);
    let mut exchange = StatusExchange::after_handshake();
    exchange.step(Event::Proceed);
    assert_eq!(wanted(exchange.step(Event::Proceed)), 1);
    assert_eq!(wanted(exchange.step(Event::Data(&bytes[..1]))), 1);
    assert_eq!(wanted(exchange.step(Event::Data(&bytes[1..2]))), 1);
    let left = bytes.len() - 3;
    assert_eq!(wanted(exchange.step(Event::Data(&bytes[2..3]))), left);
    assert_eq!(
        wanted(exchange.step(Event::Data(&bytes[3..10_003]))),
        left - 10_000
    );
    let (result, _, _) = drive(StatusExchange::after_handshake(), &bytes, 10_000);
    assert_eq!(result, Ok(json));
}
