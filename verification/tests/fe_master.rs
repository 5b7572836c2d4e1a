use shush::fe_master::{
    sanitize_marker_echoes, viewers_step, MarkerEchoFilter, MarkerSequenceFilter,
    TerminalOutputFilter, TerminalPump, TerminalRead, ViewerAction, ViewerEvent,
};

#[test]
fn sanitize_marker_echoes_preserves_user_command_from_snapshot() {
    let raw = b"before\nprintf '\\033_BEGIN_deadbeefdeadbeefdeadbeefdeadbeefdeadbeefdeadbeefdeadbeefdeadbeef\\033\\\\'; echo hello; __shush_exit=$?; printf '\\033_END_deadbeefdeadbeefdeadbeefdeadbeefdeadbeefdeadbeefdeadbeefdeadbeef_%s\\033\\\\' \"$__shush_exit\"; unset __shush_exit\nafter\n";

    let filtered = sanitize_marker_echoes(raw);

    assert_eq!(
        String::from_utf8_lossy(&filtered),
        "before\necho hello\nafter\n"
    );
}

#[test]
fn marker_echo_filter_handles_chunk_boundaries() {
    let mut filter = MarkerEchoFilter::default();
    filter.queue_replacement(b"echo hello");
    let chunk1 = b"before\nprintf '\\033_BEGIN_deadbeefdeadbeef";
    let chunk2 = b"deadbeefdeadbeefdeadbeefdeadbeefdeadbeefdeadbeef\\033\\\\'; echo hello; __shush_exit=$?; printf '\\033_END_deadbeefdeadbeefdeadbeefdeadbeefdeadbeefdeadbeefdeadbeefdeadbeef_%s\\033\\\\' \"$__shush_exit\"; unset __shush_exit\nafter\n";

    let mut filtered = filter.filter_chunk(chunk1);
    filtered.extend(filter.filter_chunk(chunk2));
    filtered.extend(filter.finish());

    assert_eq!(
        String::from_utf8_lossy(&filtered),
        "before\necho hello\nafter\n"
    );
}

#[test]
fn terminal_output_filter_removes_apc_markers() {
    let mut filter = TerminalOutputFilter::default();
    let raw = b"before\x1b_BEGIN_deadbeefdeadbeefdeadbeefdeadbeefdeadbeefdeadbeefdeadbeefdeadbeef\x1b\\hello\x1b_END_deadbeefdeadbeefdeadbeefdeadbeefdeadbeefdeadbeefdeadbeefdeadbeef_0\x1b\\after";

    let mut filtered = filter.filter_chunk(raw);
    filtered.extend(filter.finish());

    assert_eq!(String::from_utf8_lossy(&filtered), "beforehelloafter");
}

// ── Edge cases ───────────────────────────────────────────────────────────────

#[test]
fn echo_filter_without_replacement_drops_echo_and_line_breaks() {
    let mut filter = MarkerEchoFilter::default();
    let raw = b"a printf '\\033_BEGIN_xx; unset __shush_exit\r\nb";
    let mut out = filter.filter_chunk(raw);
    out.extend(filter.finish());
    assert_eq!(out, b"a b");
}

#[test]
fn echo_filter_finish_inside_echo_emits_nothing() {
    let mut filter = MarkerEchoFilter::default();
    let mut out = filter.filter_chunk(b"x printf '\\033_BEGIN_never ends");
    out.extend(filter.finish());
    assert_eq!(out, b"x ");
}

#[test]
fn sequence_filter_keeps_unterminated_marker_until_finish() {
    let mut filter = MarkerSequenceFilter::default();
    let first = filter.filter_chunk(b"abc\x1b_END_1234");
    assert_eq!(first, b"abc");
    let second = filter.filter_chunk(b"56\x1b\\def");
    assert_eq!(second, b"");
    let rest = filter.finish();
    assert_eq!(rest, b"def");
}

#[test]
fn sanitize_keeps_unreadable_echo_verbatim() {
    let raw = b"x printf '\\033_BEGIN_notanonce; echo\n";
    assert_eq!(sanitize_marker_echoes(raw), raw.to_vec());
    assert_eq!(sanitize_marker_echoes(b"plain\n"), b"plain\n".to_vec());
}

#[test]
fn encode_terminal_chunk_base64() {
    let got = shush::fe_master::encode_terminal_chunk(b"abc\n");
    assert_eq!(got, "YWJjCg==");
}

#[test]
fn replay_buffer_keeps_the_newest_bytes() {
    let mut replay = vec![1u8; 131070];
    shush::fe_master::append_replay(&mut replay, &[2, 3, 4, 5]);
    assert_eq!(replay.len(), 131072);
    assert_eq!(&replay[131068..], &[2, 3, 4, 5]);
    assert_eq!(replay[0], 1);
    let mut small = vec![9u8];
    shush::fe_master::append_replay(&mut small, b"ab");
    assert_eq!(small, vec![9, b'a', b'b']);
}

#[test]
fn snapshot_payload_sanitises_then_encodes() {
    let raw = b"x\nprintf '\\033_BEGIN_deadbeefdeadbeefdeadbeefdeadbeefdeadbeefdeadbeefdeadbeefdeadbeef\\033\\\\'; ls; __shush_exit=$?; printf '\\033_END_deadbeefdeadbeefdeadbeefdeadbeefdeadbeefdeadbeefdeadbeefdeadbeef_%s\\033\\\\' \"$__shush_exit\"; unset __shush_exit\n";
    let payload = shush::fe_master::snapshot_payload(raw).unwrap();
    assert_eq!(payload, shush::fe_master::encode_terminal_chunk(b"x\nls\n"));
}

const ECHOED: &[u8] = b"before\nprintf '\\033_BEGIN_deadbeefdeadbeefdeadbeefdeadbeefdeadbeefdeadbeefdeadbeefdeadbeef\\033\\\\'; echo hello; __shush_exit=$?; printf '\\033_END_deadbeefdeadbeefdeadbeefdeadbeefdeadbeefdeadbeefdeadbeefdeadbeef_%s\\033\\\\' \"$__shush_exit\"; unset __shush_exit\r\n\x1b_BEGIN_deadbeefdeadbeefdeadbeefdeadbeefdeadbeefdeadbeefdeadbeefdeadbeef\x1b\\hello\n\x1b_END_deadbeefdeadbeefdeadbeefdeadbeefdeadbeefdeadbeefdeadbeefdeadbeef_0\x1b\\after\n";

fn sequence_in_two(raw: &[u8], k: usize) -> Vec<u8> {
    let mut filter = MarkerSequenceFilter::default();
    let mut out = filter.filter_chunk(&raw[..k]);
    out.extend(filter.filter_chunk(&raw[k..]));
    out.extend(filter.finish());
    out
}

fn echo_in_two(raw: &[u8], k: usize, replacement: Option<&[u8]>) -> Vec<u8> {
    let mut filter = MarkerEchoFilter::default();
    if let Some(r) = replacement {
        filter.queue_replacement(r);
    }
    let mut out = filter.filter_chunk(&raw[..k]);
    out.extend(filter.filter_chunk(&raw[k..]));
    out.extend(filter.finish());
    out
}

fn terminal_in_two(raw: &[u8], k: usize) -> Vec<u8> {
    let mut filter = TerminalOutputFilter::default();
    filter.queue_replacement(b"echo hello");
    let mut out = filter.filter_chunk(&raw[..k]);
    out.extend(filter.filter_chunk(&raw[k..]));
    out.extend(filter.finish());
    out
}

#[test]
fn marker_sequence_filter_output_does_not_depend_on_chunking() {
    let whole = sequence_in_two(ECHOED, ECHOED.len());
    for k in 0..=ECHOED.len() {
        assert_eq!(sequence_in_two(ECHOED, k), whole, "split at {k}");
    }
    let unterminated = b"a\x1b_END_ff_1 never closed";
    let kept = sequence_in_two(unterminated, unterminated.len());
    assert_eq!(kept, b"a\x1b_END_ff_1 never closed".to_vec());
    for k in 0..=unterminated.len() {
        assert_eq!(sequence_in_two(unterminated, k), kept, "split at {k}");
    }
}

#[test]
fn marker_echo_filter_output_does_not_depend_on_chunking_with_a_replacement() {
    let whole = echo_in_two(ECHOED, ECHOED.len(), Some(b"echo hello"));
    assert!(whole.starts_with(b"before\necho hello\r\n\x1b_BEGIN_"));
    for k in 0..=ECHOED.len() {
        assert_eq!(echo_in_two(ECHOED, k, Some(b"echo hello")), whole, "split at {k}");
    }
}

#[test]
fn marker_echo_filter_without_replacement_keeps_line_breaks_cut_off_from_the_echo() {
    let suffix_end = ECHOED.windows(20).position(|w| w == b"; unset __shush_exit").unwrap() + 20;
    let whole = echo_in_two(ECHOED, ECHOED.len(), None);
    assert!(whole.starts_with(b"before\n\x1b_BEGIN_"));
    assert_eq!(echo_in_two(ECHOED, suffix_end + 2, None), whole);
    let cut = echo_in_two(ECHOED, suffix_end + 1, None);
    assert!(cut.starts_with(b"before\n\n\x1b_BEGIN_"));
}

#[test]
fn terminal_output_filter_output_does_not_depend_on_chunking() {
    let whole = terminal_in_two(ECHOED, ECHOED.len());
    assert_eq!(String::from_utf8_lossy(&whole), "before\necho hello\r\nhello\nafter\n");
    for k in 0..=ECHOED.len() {
        assert_eq!(terminal_in_two(ECHOED, k), whole, "split at {k}");
    }
}

#[test]
fn replay_buffer_keeps_the_newest_bytes_however_they_arrive() {
    let data: Vec<u8> = (0..300_000u32).map(|i| (i % 251) as u8).collect();
    let mut whole = Vec::new();
    shush::fe_master::append_replay(&mut whole, &data);
    assert_eq!(whole.len(), 131072);
    assert_eq!(&whole[..], &data[data.len() - 131072..]);
    let mut pieces = Vec::new();
    for chunk in data.chunks(8192) {
        shush::fe_master::append_replay(&mut pieces, chunk);
    }
    assert_eq!(pieces, whole);
}

fn echo_of(command: &str, hex: &str) -> String {
    format!("printf '\\033_BEGIN_{hex}\\033\\\\'; {command}; __shush_exit=$?; printf '\\033_END_{hex}_%s\\033\\\\' \"$__shush_exit\"; unset __shush_exit")
}

#[test]
fn every_echo_in_a_snapshot_shows_as_its_command() {
    let hex_a = "0123456789abcdef".repeat(4);
    let hex_b = "ABCDEF0123456789".repeat(4);
    let screen = format!(
        "$ {}\r\nhello\n$ {}\n\nx\n",
        echo_of("echo hello", &hex_a),
        echo_of("ls -la | grep 'a b'", &hex_b)
    );
    let shown = sanitize_marker_echoes(screen.as_bytes());
    assert_eq!(
        String::from_utf8_lossy(&shown),
        "$ echo hello\r\nhello\n$ ls -la | grep 'a b'\n\nx\n"
    );
}

#[test]
fn marker_sequence_filter_output_does_not_depend_on_many_chunks() {
    let whole = sequence_in_two(ECHOED, ECHOED.len());
    for size in [1usize, 2, 3, 5, 7, 13] {
        let mut filter = MarkerSequenceFilter::default();
        let mut out = Vec::new();
        for chunk in ECHOED.chunks(size) {
            out.extend(filter.filter_chunk(chunk));
        }
        out.extend(filter.finish());
        assert_eq!(out, whole, "chunks of {size}");
    }
}

#[test]
fn echo_filter_passes_plain_output_unchanged() {
    let plain = b"ls -la\r\ntotal 0\n\x1b[0mprintf 'x'\n";
    let mut filter = MarkerEchoFilter::default();
    filter.queue_replacement(b"unused");
    let mut out = filter.filter_chunk(plain);
    out.extend(filter.finish());
    assert_eq!(out, plain.to_vec());
}

fn echo_in_chunks(raw: &[u8], size: usize, replacement: Option<&[u8]>) -> (Vec<u8>, Vec<usize>) {
    let mut filter = MarkerEchoFilter::default();
    if let Some(r) = replacement {
        filter.queue_replacement(r);
    }
    let mut out = Vec::new();
    let mut held = Vec::new();
    let mut fed = 0;
    for chunk in raw.chunks(size) {
        out.extend(filter.filter_chunk(chunk));
        fed += chunk.len();
        held.push(fed - out.len());
    }
    out.extend(filter.finish());
    (out, held)
}

#[test]
fn echo_filter_passes_plain_output_unchanged_in_any_chunks() {
    let plain = b"ls -la\r\ntotal 0\n\x1b[0mprintf 'x'\n$ printf '\\033_BEG no echo here\n";
    for size in [1usize, 2, 3, 7, 18, 19, 64] {
        for replacement in [None, Some(&b"unused"[..])] {
            let (out, held) = echo_in_chunks(plain, size, replacement);
            assert_eq!(out, plain.to_vec(), "chunks of {size}");
            assert!(held.iter().all(|&h| h <= 18), "chunks of {size}");
        }
    }
}

#[test]
fn echo_filter_replaces_the_echo_in_any_chunks() {
    let echo = echo_of("echo hello", &"0123456789abcdef".repeat(4));
    let raw = format!("$ {echo}\r\n\nhello\n");
    for size in [1usize, 2, 3, 5, 19, 20, 21, 64] {
        let (out, _) = echo_in_chunks(raw.as_bytes(), size, Some(b"echo hello"));
        assert_eq!(String::from_utf8_lossy(&out), "$ echo hello\r\n\nhello\n", "chunks of {size}");
    }
    let (dropped, _) = echo_in_chunks(raw.as_bytes(), raw.len(), None);
    assert_eq!(String::from_utf8_lossy(&dropped), "$ hello\n");
}

#[test]
fn pump_filters_keeps_for_replay_and_closes_at_the_end() {
    let mut pump = TerminalPump::new();
    pump.queue_replacement(b"echo hello");
    let mut shown = Vec::new();
    for chunk in ECHOED.chunks(40) {
        let step = pump.on_read(TerminalRead::Bytes(chunk.to_vec()));
        assert!(!step.closed && !step.wait);
        if let Some(c) = step.chunk {
            assert!(!c.is_empty());
            shown.extend(c);
        }
    }
    let again = pump.on_read(TerminalRead::Again);
    assert!(again.chunk.is_none() && !again.closed && again.wait);
    let end = pump.on_read(TerminalRead::End);
    assert!(end.closed && !end.wait);
    shown.extend(end.chunk.unwrap_or_default());
    assert_eq!(String::from_utf8_lossy(&shown), "before\necho hello\r\nhello\nafter\n");
    assert_eq!(pump.replay_bytes(), shown);
}

#[test]
fn pump_closes_on_a_read_error_with_nothing_more() {
    let mut pump = TerminalPump::new();
    let first = pump.on_read(TerminalRead::Bytes(b"abc".to_vec()));
    assert!(first.chunk.is_none());
    let failed = pump.on_read(TerminalRead::Failed);
    assert!(failed.closed && failed.chunk.is_none());
    assert!(pump.replay_bytes().is_empty());
}

#[test]
fn viewer_count_decides_idle_checks_and_teardown() {
    assert_eq!(viewers_step(0, ViewerEvent::Joined), (1, ViewerAction::CancelIdleCheck));
    assert_eq!(viewers_step(2, ViewerEvent::Left), (1, ViewerAction::Keep));
    assert_eq!(viewers_step(1, ViewerEvent::Left), (0, ViewerAction::ScheduleIdleCheck));
    assert_eq!(viewers_step(0, ViewerEvent::Left), (0, ViewerAction::ScheduleIdleCheck));
    assert_eq!(viewers_step(0, ViewerEvent::IdleTimeout), (0, ViewerAction::TearDown));
    assert_eq!(viewers_step(1, ViewerEvent::IdleTimeout), (1, ViewerAction::Keep));
    assert_eq!(viewers_step(usize::MAX, ViewerEvent::Joined).0, usize::MAX);
}
