use knowledge_graph::decoder::StreamDecoder;

fn decode_chunks(chunks: &[&[u8]]) -> String {
    let mut d = StreamDecoder::new();
    for c in chunks {
        d.push_chunk(c);
        if d.is_done() {
            break;
        }
    }
    d.into_text()
}

#[test]
fn single_record_line() {
    let text = decode_chunks(&[b"{\"response\":\"Hello\",\"done\":false}\n"]);
    assert_eq!(text, "Hello");
}

#[test]
fn fragments_concatenate_in_order() {
    let text = decode_chunks(&[
        b"{\"response\":\"Hel\",\"done\":false}\n",
        b"{\"response\":\"lo \",\"done\":false}\n{\"response\":\"world\",\"done\":true}\n",
    ]);
    assert_eq!(text, "Hello world");
}

#[test]
fn boundary_independence_same_bytes() {
    let whole: &[u8] =
        b"{\"response\":\"alpha\",\"done\":false}\n{\"response\":\" beta\",\"done\":true}\n";
    let as_one = decode_chunks(&[whole]);
    // Split in the middle of a line.
    let as_two = decode_chunks(&[&whole[..17], &whole[17..]]);
    // Split byte by byte.
    let mut d = StreamDecoder::new();
    for b in whole {
        d.push_chunk(&[*b]);
    }
    let byte_by_byte = d.into_text();
    assert_eq!(as_one, "alpha beta");
    assert_eq!(as_two, as_one);
    assert_eq!(byte_by_byte, as_one);
}

#[test]
fn multibyte_character_split_across_chunks() {
    // "é" is two bytes in UTF-8; the chunk boundary falls between them.
    let whole = "{\"response\":\"caf\u{e9} au lait\",\"done\":true}\n".as_bytes();
    let cut = whole.iter().position(|b| *b == 0xc3).unwrap() + 1;
    let split = decode_chunks(&[&whole[..cut], &whole[cut..]]);
    assert_eq!(split, "caf\u{e9} au lait");
}

#[test]
fn done_flag_stops_decoding_early() {
    let text = decode_chunks(&[
        b"{\"response\":\"kept\",\"done\":true}\n{\"response\":\" dropped\",\"done\":false}\n",
    ]);
    assert_eq!(text, "kept");
    let mut d = StreamDecoder::new();
    d.push_chunk(b"{\"response\":\"kept\",\"done\":true}\n");
    assert!(d.is_done());
    d.push_chunk(b"{\"response\":\" dropped\",\"done\":false}\ntrailing garbage");
    assert_eq!(d.into_text(), "kept");
}

#[test]
fn malformed_line_is_dropped_and_decoding_continues() {
    let text = decode_chunks(&[
        b"{\"response\":\"a\",\"done\":false}\nnot json at all\n{\"response\":\"b\",\"done\":false}\n",
    ]);
    assert_eq!(text, "ab");
}

#[test]
fn missing_fields_make_a_line_malformed() {
    let text = decode_chunks(&[
        b"{\"response\":\"a\"}\n{\"done\":false}\n{\"response\":\"b\",\"done\":false}\n",
    ]);
    assert_eq!(text, "b");
}

#[test]
fn stream_end_without_done_returns_accumulated_text() {
    let text = decode_chunks(&[b"{\"response\":\"partial\",\"done\":false}\n"]);
    assert_eq!(text, "partial");
}

#[test]
fn incomplete_last_line_is_ignored() {
    let text = decode_chunks(&[
        b"{\"response\":\"whole\",\"done\":false}\n{\"response\":\"cut off",
    ]);
    assert_eq!(text, "whole");
}

#[test]
fn blank_and_whitespace_lines_are_skipped() {
    let text = decode_chunks(&[
        b"\n   \n\t\r\n{\"response\":\"x\",\"done\":false}\n  \n",
    ]);
    assert_eq!(text, "x");
}

#[test]
fn whitespace_around_a_record_is_trimmed() {
    let text = decode_chunks(&[b"   {\"response\":\"y\",\"done\":true}  \r\n"]);
    assert_eq!(text, "y");
}

#[test]
fn unicode_whitespace_around_a_record_is_trimmed() {
    // Padded with no-break spaces (U+00A0), which ASCII trimming would miss.
    let line = format!("\u{a0} {{\"response\":\"z\",\"done\":true}} \u{a0}\n");
    let text = decode_chunks(&[line.as_bytes()]);
    assert_eq!(text, "z");
}

#[test]
fn dropped_lines_are_recorded_for_diagnostics() {
    let mut d = StreamDecoder::new();
    d.push_chunk(b"{\"response\":\"ok\",\"done\":false}\n  not json at all  \n\n");
    assert_eq!(d.dropped_lines(), &vec!["not json at all".to_string()]);
    assert_eq!(d.into_text(), "ok");
}
