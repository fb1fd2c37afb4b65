use status_v2::framing::{decode_chunks, encode_frame, escape_pipes, find_frame, frame_in, FrameDecoder};
use status_v2::request::ServerError;

fn chunks_of(parts: &[&str]) -> Vec<Vec<u8>> {
    parts.iter().map(|p| p.as_bytes().to_vec()).collect()
}

#[test]
fn frame_found_among_shell_noise() {
    let out = b"user@host:~$ server --request={}\r\n||{\"Success\":1}|| trailing";
    assert_eq!(frame_in(out), Some(b"{\"Success\":1}".to_vec()));
}

#[test]
fn frame_bounds_exact() {
    assert_eq!(find_frame(b"ab||xyz||cd"), Some((4, 7)));
    assert_eq!(find_frame(b"ab||xyz|"), None);
    assert_eq!(find_frame(b"||||"), Some((2, 2)));
}

#[test]
fn first_pair_of_delimiters_wins() {
    assert_eq!(frame_in(b"||a||b||"), Some(b"a".to_vec()));
}

#[test]
fn chunking_does_not_change_frame() {
    let whole = "banner\n$ ||{\"Error\":\"RequestParse\"}|| prompt$ ";
    let expected = Ok(b"{\"Error\":\"RequestParse\"}".to_vec());
    assert_eq!(decode_chunks(&chunks_of(&[whole])), expected);
    for cut in 0..=whole.len() {
        let (a, b) = whole.split_at(cut);
        assert_eq!(decode_chunks(&chunks_of(&[a, b])), expected);
    }
    let singles: Vec<Vec<u8>> = whole.bytes().map(|b| vec![b]).collect();
    assert_eq!(decode_chunks(&singles), expected);
}

#[test]
fn split_inside_delimiter_still_decodes() {
    let parts = ["noise |", "|payload|", "|", " more"];
    assert_eq!(decode_chunks(&chunks_of(&parts)), Ok(b"payload".to_vec()));
}

#[test]
fn stream_without_frame_is_request_parse() {
    assert_eq!(
        decode_chunks(&chunks_of(&["no frame | here", " at all |"])),
        Err(ServerError::RequestParse)
    );
    assert_eq!(decode_chunks(&Vec::new()), Err(ServerError::RequestParse));
    assert_eq!(decode_chunks(&chunks_of(&["||only an opening"])), Err(ServerError::RequestParse));
}

#[test]
fn decoder_reports_frame_once_complete() {
    let mut d = FrameDecoder::new();
    assert_eq!(d.feed(b"$ ||{\"Succ"), None);
    assert_eq!(d.feed(b"ess\":3}|"), None);
    assert_eq!(d.feed(b"|\n$ "), Some(b"{\"Success\":3}".to_vec()));
    assert_eq!(d.ended(), ServerError::RequestParse);
}

#[test]
fn encoded_frame_decodes_to_payload() {
    let payload = b"{\"Success\":{\"done\":true}}";
    let framed = encode_frame(payload);
    assert_eq!(framed, b"||{\"Success\":{\"done\":true}}||".to_vec());
    let mut stream = b"echo\n".to_vec();
    stream.extend_from_slice(&framed);
    stream.extend_from_slice(b"\n$ ");
    assert_eq!(frame_in(&stream), Some(payload.to_vec()));
    assert_eq!(decode_chunks(&vec![stream[..7].to_vec(), stream[7..].to_vec()]), Ok(payload.to_vec()));
}

#[test]
fn empty_payload_round_trip() {
    assert_eq!(encode_frame(b""), b"||||".to_vec());
    assert_eq!(frame_in(&encode_frame(b"")), Some(Vec::new()));
}

#[test]
fn json_response_survives_noisy_chunked_shell() {
    let mut fields = serde_json::Map::new();
    fields.insert("Error".to_string(), serde_json::Value::String("BiggusDiskusNotSet".to_string()));
    let response = serde_json::Value::Object(fields);
    let text = serde_json::to_string(&response).unwrap();
    let mut stream = b"Last login: today\r\n$ server --request={}\r\n".to_vec();
    stream.extend_from_slice(&encode_frame(text.as_bytes()));
    stream.extend_from_slice(b"\r\n$ ");
    let chunks: Vec<Vec<u8>> = stream.chunks(5).map(|c| c.to_vec()).collect();
    let payload = decode_chunks(&chunks).unwrap();
    let back: serde_json::Value = serde_json::from_slice(&payload).unwrap();
    assert_eq!(back, response);
}

#[test]
fn pipes_in_payload_are_escaped() {
    let text = br#"{"Success":{"note":"a||b|c"}}"#;
    let escaped = escape_pipes(text);
    assert_eq!(escaped, br#"{"Success":{"note":"a\u007c\u007cb\u007cc"}}"#.to_vec());
    assert!(!escaped.contains(&b'|'));
    let frame = encode_frame(&escaped);
    assert_eq!(frame_in(&frame), Some(escaped.clone()));
    let back: serde_json::Value = serde_json::from_slice(&escaped).unwrap();
    let original: serde_json::Value = serde_json::from_slice(text).unwrap();
    assert_eq!(back, original);
    assert_eq!(escape_pipes(b"plain"), b"plain".to_vec());
}
