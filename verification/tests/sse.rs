use ai_streaming_core::sse::{parse_sse, ServerSentEvent, Utf8Stream};

fn chunks(parts: &[&[u8]]) -> Vec<Vec<u8>> {
    parts.iter().map(|p| p.to_vec()).collect()
}

fn event_names(evs: &[ServerSentEvent]) -> Vec<Option<String>> {
    evs.iter().map(|e| e.event.clone()).collect()
}

#[test]
fn sse_single_event() {
    let evs = parse_sse(&chunks(&[b"event: ping\ndata: {}\n\n"]));
    assert_eq!(evs.len(), 1);
    assert_eq!(evs[0].event, Some("ping".to_string()));
    assert_eq!(evs[0].data, "{}");
    assert_eq!(evs[0].raw, vec!["event: ping".to_string(), "data: {}".to_string()]);
}

#[test]
fn sse_crlf_comments_and_multiline_data() {
    let evs = parse_sse(&chunks(&[b": keep-alive\r\nevent: a\r\ndata: x\r\ndata: y\r\n\r\n"]));
    assert_eq!(evs.len(), 1);
    assert_eq!(evs[0].event, Some("a".to_string()));
    assert_eq!(evs[0].data, "x\ny");
    assert_eq!(
        evs[0].raw,
        vec![": keep-alive".to_string(), "event: a".to_string(), "data: x".to_string(), "data: y".to_string()]
    );
}

#[test]
fn sse_lone_cr_ends_a_line() {
    let evs = parse_sse(&chunks(&[b"data: a\rdata: b\r\r"]));
    assert_eq!(evs.len(), 1);
    assert_eq!(evs[0].data, "a\nb");
}

#[test]
fn sse_multibyte_split_across_chunks() {
    // "é" is C3 A9; the chunk boundary falls inside it.
    let evs = parse_sse(&chunks(&[b"data: caf\xC3", b"\xA9\n\n"]));
    assert_eq!(evs.len(), 1);
    assert_eq!(evs[0].data, "café");
}

#[test]
fn sse_four_byte_char_split_three_ways() {
    // U+1F600 is F0 9F 98 80.
    let evs = parse_sse(&chunks(&[b"data: \xF0", b"\x9F\x98", b"\x80!\n\n"]));
    assert_eq!(evs.len(), 1);
    assert_eq!(evs[0].data, "\u{1F600}!");
}

#[test]
fn sse_invalid_bytes_become_replacement() {
    let evs = parse_sse(&chunks(&[b"data: a\xFFb\n\n"]));
    assert_eq!(evs[0].data, "a\u{FFFD}b");
}

#[test]
fn sse_truncated_sequence_at_end_becomes_one_replacement() {
    let evs = parse_sse(&chunks(&[b"data: a\xE2\x82"]));
    assert_eq!(evs.len(), 1);
    assert_eq!(evs[0].data, "a\u{FFFD}");
}

#[test]
fn sse_unterminated_last_line_is_fed() {
    let evs = parse_sse(&chunks(&[b"event: x\ndata: tail"]));
    assert_eq!(evs.len(), 1);
    assert_eq!(evs[0].event, Some("x".to_string()));
    assert_eq!(evs[0].data, "tail");
}

#[test]
fn sse_field_without_colon_and_single_space_strip() {
    let evs = parse_sse(&chunks(&[b"data\n\ndata:  two\n\ndata:three\n\n"]));
    assert_eq!(evs.len(), 3);
    assert_eq!(evs[0].data, "");
    assert_eq!(evs[1].data, " two");
    assert_eq!(evs[2].data, "three");
}

#[test]
fn sse_empty_event_name_alone_is_no_event() {
    let evs = parse_sse(&chunks(&[b"event:\n\nid: 3\n\n"]));
    assert!(evs.is_empty());
}

#[test]
fn sse_colon_in_value_is_kept() {
    let evs = parse_sse(&chunks(&[b"data: a:b:c\n\n"]));
    assert_eq!(evs[0].data, "a:b:c");
}

#[test]
fn sse_chunking_does_not_matter_away_from_cr() {
    let whole = b"event: m\ndata: {\"a\":1}\n\nevent: n\ndata: \xE2\x82\xAC\n\n";
    let one = parse_sse(&chunks(&[whole]));
    for cut in 0..whole.len() {
        if cut > 0 && whole[cut - 1] == b'\r' {
            continue;
        }
        let two = parse_sse(&chunks(&[&whole[..cut], &whole[cut..]]));
        assert_eq!(two.len(), one.len());
        for (x, y) in one.iter().zip(two.iter()) {
            assert_eq!(x.event, y.event);
            assert_eq!(x.data, y.data);
            assert_eq!(x.raw, y.raw);
        }
    }
    assert_eq!(event_names(&one), vec![Some("m".to_string()), Some("n".to_string())]);
    assert_eq!(one[1].data, "€");
}

#[test]
fn sse_cr_lf_split_across_chunks_makes_an_empty_line() {
    let split = parse_sse(&chunks(&[b"data: x\r", b"\ndata: y\n\n"]));
    assert_eq!(split.len(), 2);
    assert_eq!(split[0].data, "x");
    assert_eq!(split[1].data, "y");
    let joined = parse_sse(&chunks(&[b"data: x\r\ndata: y\n\n"]));
    assert_eq!(joined.len(), 1);
    assert_eq!(joined[0].data, "x\ny");
}

#[test]
fn utf8_stream_holds_incomplete_tail() {
    let mut s = Utf8Stream::new();
    let a = s.decode(&[0x61, 0xE2, 0x82]);
    assert_eq!(a, vec!['a']);
    let b = s.decode(&[0xAC, 0x62]);
    assert_eq!(b, vec!['€', 'b']);
    let c = s.flush();
    assert!(c.is_empty());
}

#[test]
fn utf8_stream_flush_replaces_pending() {
    let mut s = Utf8Stream::new();
    let a = s.decode(&[0xF0, 0x9F]);
    assert!(a.is_empty());
    assert_eq!(s.flush(), vec!['\u{FFFD}']);
    assert!(s.flush().is_empty());
}

#[test]
fn utf8_stream_rejects_overlong_and_surrogates() {
    let mut s = Utf8Stream::new();
    // C0 80 is an overlong NUL; ED A0 80 encodes a surrogate.  Each byte
    // that cannot continue a sequence is replaced on its own.
    let out = s.decode(&[0xC0, 0x80, 0xED, 0xA0, 0x80, 0x41]);
    assert_eq!(out, vec!['\u{FFFD}', '\u{FFFD}', '\u{FFFD}', '\u{FFFD}', '\u{FFFD}', 'A']);
}

#[test]
fn sse_cut_after_lone_cr_does_not_matter() {
    // A CR that is not followed by LF ends a line; cutting right after it
    // leaves the events unchanged.
    let whole: &[u8] = b"data: a\rdata: b\r\revent: e\rdata: c\r\r";
    let one = parse_sse(&chunks(&[whole]));
    assert_eq!(one.len(), 2);
    assert_eq!(one[0].data, "a\nb");
    assert_eq!(one[1].event, Some("e".to_string()));
    for cut in 0..=whole.len() {
        let two = parse_sse(&chunks(&[&whole[..cut], &whole[cut..]]));
        assert_eq!(two.len(), one.len());
        for (x, y) in one.iter().zip(two.iter()) {
            assert_eq!(x.event, y.event);
            assert_eq!(x.data, y.data);
            assert_eq!(x.raw, y.raw);
        }
    }
}

#[test]
fn sse_many_pieces_same_as_one() {
    let whole: &[u8] = b"event: m\ndata: \xF0\x9F\x98\x80 ok\n\n: note\ndata: z\r\n\r\n";
    let one = parse_sse(&chunks(&[whole]));
    let singles: Vec<Vec<u8>> = whole
        .iter()
        .enumerate()
        .map(|(i, b)| if i + 1 < whole.len() && *b == b'\r' { vec![*b, whole[i + 1]] } else { vec![*b] })
        .collect();
    // Keep each CR together with the byte after it.
    let mut pieces: Vec<Vec<u8>> = Vec::new();
    let mut skip = false;
    for p in singles {
        if skip {
            skip = false;
            continue;
        }
        if p.len() == 2 {
            skip = true;
        }
        pieces.push(p);
    }
    let many = parse_sse(&pieces);
    assert_eq!(many.len(), one.len());
    for (x, y) in one.iter().zip(many.iter()) {
        assert_eq!(x.event, y.event);
        assert_eq!(x.data, y.data);
        assert_eq!(x.raw, y.raw);
    }
    assert_eq!(one[0].data, "😀 ok");
    assert_eq!(one[1].data, "z");
}

#[test]
fn utf8_stream_many_pieces_then_flush_is_lossy_decode() {
    let bytes: Vec<u8> = vec![0x68, 0xC3, 0xA9, 0xF0, 0x9F, 0x98, 0x80, 0xE2, 0x82, 0xFF, 0x41, 0xE2];
    let mut s = Utf8Stream::new();
    let mut out: Vec<char> = Vec::new();
    for b in &bytes {
        out.extend(s.decode(&[*b]));
    }
    out.extend(s.flush());
    let expected: Vec<char> = String::from_utf8_lossy(&bytes).chars().collect();
    assert_eq!(out, expected);
}
