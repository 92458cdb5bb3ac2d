use baseline_llm_os::bytes::{read_le, write_le};
use baseline_llm_os::server::http::{
    default_eos, inference_of, line_kind, response_line, LineKind, WireRequest,
};
use baseline_llm_os::server::pipeline::{
    check_shape, decode_header, encode_header, payload, PipelineError, HEADER_SIZE, MAGIC,
};
use baseline_llm_os::text::{append_decimal, has_text, lower_text};

#[test]
fn lines_are_told_apart() {
    assert_eq!(line_kind("", 0), LineKind::Closed);
    assert_eq!(line_kind("{\"type\":\"stats\"}\n", 17), LineKind::Stats);
    assert_eq!(line_kind("{\"id\":1}\n", 9), LineKind::Request);
    assert_eq!(line_kind("stats\n", 6), LineKind::Request);
}

#[test]
fn requests_ask_for_inferences() {
    let req = WireRequest::Infer {
        id: 7,
        prompt_tokens: vec![1, 2],
        max_new_tokens: 5,
        eos_token_id: default_eos(),
    };
    let inf = inference_of(req).unwrap();
    assert_eq!(inf.id, 7);
    assert_eq!(inf.prompt_tokens, vec![1, 2]);
    assert_eq!(inf.max_new_tokens, 5);
    assert_eq!(inf.eos_token_id, 2);
    let legacy = WireRequest::LegacyInfer {
        id: 8,
        prompt_tokens: vec![],
        max_new_tokens: 1,
        eos_token_id: 9,
    };
    assert_eq!(inference_of(legacy).unwrap().eos_token_id, 9);
    assert!(inference_of(WireRequest::Stats).is_none());
}

#[test]
fn responses_end_with_a_line_end() {
    assert_eq!(response_line(b"{}".to_vec()), b"{}\n".to_vec());
}

#[test]
fn headers_come_back() {
    let h = encode_header(3, 4096);
    assert_eq!(h.len(), HEADER_SIZE);
    assert_eq!(h[0..4], MAGIC.to_le_bytes());
    assert_eq!(h[4..12], 3u64.to_le_bytes());
    assert_eq!(h[12..20], 4096u64.to_le_bytes());
    assert_eq!(decode_header(&h), Ok((3, 4096)));
}

#[test]
fn a_header_starts_with_its_mark() {
    assert_eq!(decode_header(&[0; 20]), Err(PipelineError::BadMagic(0)));
}

#[test]
fn activations_have_their_size() {
    assert_eq!(payload(2, 8), Ok((16, 32)));
    assert_eq!(payload(u64::MAX, 2), Err(PipelineError::TooLarge));
    assert_eq!(check_shape(16, 2, 8), Ok(()));
    assert_eq!(check_shape(15, 2, 8), Err(PipelineError::ShapeMismatch));
}

#[test]
fn numbers_are_written_low_byte_first() {
    let mut out = vec![];
    write_le(&mut out, 0x0102_0304, 4);
    assert_eq!(out, vec![4, 3, 2, 1]);
    assert_eq!(read_le(&out, 0, 4), 0x0102_0304);
    assert_eq!(read_le(&out, 1, 2), 0x0203);
}

#[test]
fn texts_are_searched_and_lowered() {
    assert!(has_text("abcabd", "abd"));
    assert!(has_text("abc", ""));
    assert!(!has_text("ab", "abc"));
    assert_eq!(lower_text("MiXed-42"), "mixed-42");
    let mut s = "n=".to_string();
    append_decimal(&mut s, 1203);
    assert_eq!(s, "n=1203");
    let mut z = String::new();
    append_decimal(&mut z, 0);
    assert_eq!(z, "0");
}
