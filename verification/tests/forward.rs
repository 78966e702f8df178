//! Both directions of a connection, on given traffic.

use dows::client::NORMAL_CLOSURE;
use dows::close::close_frame;
use dows::forward::{
    upstream_close, Requests, Responses, RESPONSE_CAPACITY, RESPONSE_OFFSET,
};

/// A frame as a client sends it.
fn client_frame(first: u8, payload: &[u8], mask: [u8; 4]) -> Vec<u8> {
    let mut frame = vec![first];
    if payload.len() < 126 {
        frame.push(0x80 + payload.len() as u8);
    } else {
        frame.push(0x80 + 126);
        frame.extend_from_slice(&(payload.len() as u16).to_be_bytes());
    }
    frame.extend_from_slice(&mask);
    frame.extend(payload.iter().enumerate().map(|(i, b)| b ^ mask[i % 4]));
    frame
}

/// A message as DNS over TCP has it.
fn dns_packet(message: &[u8]) -> Vec<u8> {
    let mut packet = (message.len() as u16).to_be_bytes().to_vec();
    packet.extend_from_slice(message);
    packet
}

/// Feeds input to the forwarder, as much as it takes at a time but no more than
/// `step`: what it sends upstream, what it sends to the client, and the code it
/// closes with.
fn forward(input: &[u8], step: usize) -> (Vec<u8>, Vec<u8>, Option<u16>) {
    let mut requests = Requests::new();
    let (mut sent, mut pongs, mut pos) = (vec![], vec![], 0);
    loop {
        let result = if requests.read {
            if pos == input.len() {
                return (sent, pongs, None);
            }
            let end = requests.state.ws_remainder.end;
            let size = step.min(input.len() - pos).min(requests.state.ws.len() - end);
            assert!(size > 0);
            requests.state.ws[end..end + size].copy_from_slice(&input[pos..pos + size]);
            pos += size;
            requests.received(size)
        } else {
            requests.resume()
        };
        sent.extend_from_slice(requests.messages());
        pongs.extend_from_slice(requests.pongs());
        if let Some(code) = Requests::close_code(result, true) {
            return (sent, pongs, Some(code));
        }
        requests.release();
    }
}

/// Feeds input to the forwarder, as much as it takes at a time but no more than
/// `step`: what it sends to the client.
fn relay(input: &[u8], step: usize) -> Vec<u8> {
    let mut responses = Responses::new();
    let (mut sent, mut pos) = (vec![], 0);
    while pos < input.len() {
        let fill = responses.fill;
        let size = step.min(input.len() - pos).min(RESPONSE_CAPACITY - fill);
        assert!(size > 0);
        responses.buf[fill..fill + size].copy_from_slice(&input[pos..pos + size]);
        pos += size;
        match responses.received(size) {
            Some(len) => sent.extend_from_slice(&responses.buf[..len]),
            None => panic!("no end of input"),
        }
        responses.release();
    }
    sent
}

#[test]
fn single_query_is_proxied_to_dns() {
    let query = [0x12, 0x34, 0, 0, 0, 0, 0, 0, 0, 0, 0, 0];
    let (sent, pongs, code) = forward(&client_frame(0x82, &query, [1, 2, 3, 4]), usize::MAX);
    assert_eq!(sent, dns_packet(&query));
    assert_eq!(pongs, []);
    assert_eq!(code, None);

    let reply = [0, 12, 0x12, 0x34, 0x80, 0, 0, 0, 0, 0, 0, 0, 0, 0];
    let response = relay(&reply, usize::MAX);
    assert_eq!(&response[..2], [0x82, 12]);
    assert_eq!(&response[2..4], &[0x12, 0x34], "response should echo the query ID");
    assert_eq!(response[4] & 0x80, 0x80, "QR bit should mark this as a response");
}

#[test]
fn maximum_size_query_is_proxied_to_dns() {
    // The largest message DNS over TCP can carry: the 2-byte big-endian
    // length prefix caps a message at 65535 bytes.
    let mut query = vec![0; 65535];
    query[0] = 0xAB;
    query[1] = 0xCD;
    let frame = client_frame(0x82, &query, [9, 8, 7, 6]);
    for step in [usize::MAX, 1000] {
        let (sent, _, code) = forward(&frame, step);
        assert_eq!(sent, dns_packet(&query));
        assert_eq!(code, None);
    }
}

#[test]
fn maximum_size_response_is_relayed() {
    let message: Vec<u8> = (0..65535u32).map(|i| (i % 251) as u8).collect();
    let mut expected = vec![0x82, 126, 255, 255];
    expected.extend_from_slice(&message);
    for step in [usize::MAX, 999] {
        assert_eq!(relay(&dns_packet(&message), step), expected);
    }
}

#[test]
fn ping_is_answered_with_pong() {
    let payload = [0xDE, 0xAD, 0xBE, 0xEF];
    let (sent, pongs, code) = forward(&client_frame(0x89, &payload, [5, 6, 7, 8]), usize::MAX);
    assert_eq!(sent, []);
    assert_eq!(pongs, [0x8a, 4, 0xDE, 0xAD, 0xBE, 0xEF]);
    assert_eq!(code, None);
}

#[test]
fn clean_closure_is_handled() {
    let (sent, _, code) = forward(&client_frame(0x88, &[3, 0xe8], [5, 6, 7, 8]), usize::MAX);
    assert_eq!(sent, []);
    assert_eq!(code, Some(1000));
    let mut buf = [0; 127];
    assert_eq!(close_frame(&mut buf, 1000, ""), [0x88, 2, 3, 0xe8]);
}

#[test]
fn upstream_closure_returns_clean_close_frame() {
    let mut responses = Responses::new();
    assert_eq!(responses.received(0), None);
    assert_eq!(responses.fill, RESPONSE_OFFSET);
    let (mut buf, mut other) = ([0; 127], [0; 127]);
    let frame = upstream_close(&mut buf, None);
    assert_eq!(frame, [0x88, 2, 3, 0xe8]);
    assert_eq!(frame, close_frame(&mut other, NORMAL_CLOSURE, ""));
}

#[test]
fn invalid_upstream_returns_close_with_reason() {
    let mut buf = [0; 127];
    assert_eq!(upstream_close(&mut buf, Some("no route")), b"\x88\x0a\x03\xe8no route");
}

#[test]
fn session_is_closed_with_a_code_or_when_the_upstream_is_gone() {
    assert_eq!(Requests::close_code(Ok(()), true), None);
    assert_eq!(Requests::close_code(Ok(()), false), Some(1000));
    assert_eq!(Requests::close_code(Err(1009), true), Some(1009));
    assert_eq!(Requests::close_code(Err(1009), false), Some(1009));
}

#[test]
fn what_is_ahead_of_a_close_frame_is_sent() {
    let mut input = client_frame(0x89, b"p", [1, 2, 3, 4]);
    input.extend(client_frame(0x82, b"query", [5, 6, 7, 8]));
    input.extend(client_frame(0x88, &[], [9; 4]));
    input.extend(client_frame(0x82, b"late", [9; 4]));
    for step in [1, usize::MAX] {
        let (sent, pongs, code) = forward(&input, step);
        assert_eq!(sent, dns_packet(b"query"));
        assert_eq!(pongs, [0x8a, 1, b'p']);
        assert_eq!(code, Some(1000));
    }
}

#[test]
fn client_closure_ends_the_session() {
    let mut requests = Requests::new();
    assert!(requests.read);
    assert_eq!(requests.received(0), Err(1000));
}

#[test]
fn chunks_and_rounds_do_not_matter() {
    let mut input = vec![];
    let mut expected = vec![];
    let mut expected_pongs = vec![];
    for i in 0..40usize {
        let message: Vec<u8> = (0..i * i * 3).map(|k| (k * 7 + i) as u8).collect();
        let mask = [i as u8, 1, 2, 3];
        if i % 3 == 0 {
            let cut = message.len() / 2;
            input.extend(client_frame(0x02, &message[..cut], mask));
            input.extend(client_frame(0x89, &[i as u8], mask));
            expected_pongs.extend([0x8a, 1, i as u8]);
            input.extend(client_frame(0x00, &[], mask));
            input.extend(client_frame(0x80, &message[cut..], mask));
        } else {
            input.extend(client_frame(0x82, &message, mask));
            input.extend(client_frame(0x8a, b"unasked", mask));
        }
        expected.extend(dns_packet(&message));
    }
    for step in [1, 2, 3, 7, 100, 4096, usize::MAX] {
        let (sent, pongs, code) = forward(&input, step);
        assert_eq!(sent, expected, "{step}");
        assert_eq!(pongs, expected_pongs, "{step}");
        assert_eq!(code, None);
    }
}

#[test]
fn full_output_buffer_delays_but_loses_nothing() {
    let message = vec![3; 40000];
    let mut input = vec![];
    let mut expected = vec![];
    for _ in 0..5 {
        for _ in 0..2 {
            input.extend(client_frame(0x82, &[], [0; 4]));
            expected.extend([0, 0]);
        }
        input.extend(client_frame(0x82, &message, [1, 2, 3, 4]));
        expected.extend(dns_packet(&message));
    }
    for step in [50000, usize::MAX] {
        assert_eq!(forward(&input, step), (expected.clone(), vec![], None));
    }
}

#[test]
fn resuming_goes_on_without_new_input() {
    // Empty messages shrink to a third of their size, so the output buffer
    // cannot get full by them; a large message ahead of them fills it.
    let mut requests = Requests::new();
    let mut input = client_frame(0x02, &vec![0; 65000], [0; 4]);
    let len = input.len();
    requests.state.ws[..len].copy_from_slice(&input);
    assert_eq!(requests.received(len), Ok(()));
    assert_eq!(requests.messages(), []);
    requests.release();
    assert!(requests.read);

    input = client_frame(0x80, &[], [0; 4]);
    input.extend(client_frame(0x82, &vec![1; 1000], [0; 4]));
    let len = input.len();
    requests.state.ws[..len].copy_from_slice(&input);
    assert_eq!(requests.received(len), Ok(()));
    assert_eq!(requests.messages().len(), 65002);
    requests.release();
    assert!(!requests.read);

    assert_eq!(requests.resume(), Ok(()));
    assert_eq!(requests.messages(), dns_packet(&[1; 1000]));
    requests.release();
    assert!(requests.read);
}

#[test]
fn violations_close_the_session() {
    assert_eq!(forward(&client_frame(0x81, b"text", [0; 4]), 100).2, Some(1003));
    assert_eq!(forward(&[0x82, 0x01, 0x00], 100).2, Some(1002));
    assert_eq!(forward(&client_frame(0x80, b"", [0; 4]), 100).2, Some(1002));
    assert_eq!(forward(&[0x82, 0xff], 100).2, Some(1009));
    let mut input = client_frame(0x02, &vec![0; 65535], [0; 4]);
    input.extend(client_frame(0x80, &[0], [0; 4]));
    assert_eq!(forward(&input, 4096).2, Some(1009));
}

#[test]
fn responses_are_relayed_in_any_chunks() {
    let mut input = vec![];
    let mut expected = vec![];
    for i in 0..300usize {
        let message: Vec<u8> = (0..i).map(|k| (k + i) as u8).collect();
        input.extend(dns_packet(&message));
        expected.push(0x82);
        if i < 126 {
            expected.push(i as u8);
        } else {
            expected.push(126);
            expected.extend((i as u16).to_be_bytes());
        }
        expected.extend(message);
    }
    input.extend([0, 5, 1]);
    for step in [1, 2, 127, 1024, usize::MAX] {
        assert_eq!(relay(&input, step), expected, "{step}");
    }
}

#[test]
fn worst_case_of_the_framing_overhead_fits() {
    // 512 messages of 126 bytes grow by 2 bytes each.
    let mut input = vec![];
    for _ in 0..512 {
        input.extend(dns_packet(&[9; 126]));
    }
    let sent = relay(&input, usize::MAX);
    assert_eq!(sent.len(), 512 * 130);
    assert_eq!(&sent[..5], [0x82, 126, 0, 126, 9]);
}
