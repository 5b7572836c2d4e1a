use shush::marker::{generate_nonce, MarkerDetector, MarkerEvent, MarkerInjector};

#[test]
fn inject_returns_wrapped_command_with_nonce() {
    let injector = MarkerInjector::new();
    let (wrapped, nonce) = injector.inject("echo hello");

    assert!(
        wrapped.contains("echo hello"),
        "wrapped command should contain original"
    );
    assert_eq!(
        nonce.hex().len(),
        64,
        "nonce should be 64 hex chars (32 bytes)"
    );
}

#[test]
fn roundtrip_inject_then_detect() {
    let injector = MarkerInjector::new();
    let (_, nonce) = injector.inject("true");

    let start_marker = format!("\x1b_BEGIN_{}\x1b\\", nonce.hex());
    let end_marker = format!("\x1b_END_{}\x1b\\", nonce.hex());
    let stream = format!("{}some output\n{}", start_marker, end_marker);

    let mut detector = MarkerDetector::new();
    let events = detector.feed(stream.as_bytes());

    assert_eq!(
        events,
        vec![MarkerEvent::Start(nonce.clone()), MarkerEvent::End(nonce)],
    );
}

#[test]
fn non_matching_nonce_is_rejected() {
    let injector = MarkerInjector::new();
    let (_, nonce) = injector.inject("true");

    // Simulate a different nonce in the end marker
    let other = generate_nonce();
    let start_marker = format!("\x1b_BEGIN_{}\x1b\\", nonce.hex());
    let bad_end = format!("\x1b_END_{}\x1b\\", other.hex());
    let stream = format!("{}output{}", start_marker, bad_end);

    let mut detector = MarkerDetector::new();
    let events = detector.feed(stream.as_bytes());

    assert_eq!(events.len(), 2, "both markers should be detected");
    assert_eq!(events[0], MarkerEvent::Start(nonce));
    assert_eq!(events[1], MarkerEvent::End(other));
}

#[test]
fn detect_multiple_markers_across_feed_calls() {
    let mut detector = MarkerDetector::new();
    let nonce1 = generate_nonce();
    let nonce2 = generate_nonce();

    let m1 = format!("\x1b_BEGIN_{}\x1b\\", nonce1.hex());
    let m2 = format!("\x1b_END_{}\x1b\\", nonce2.hex());

    // Feed in two chunks so marker crosses the boundary
    let chunk1 = &m1.as_bytes()[..20];
    let chunk2 = &m1.as_bytes()[20..];
    let _ = detector.feed(chunk1);
    let events = detector.feed(chunk2);
    assert_eq!(
        events,
        vec![MarkerEvent::Start(nonce1.clone())],
        "marker split across feed calls"
    );

    // Now feed the end marker
    let events = detector.feed(m2.as_bytes());
    assert_eq!(events, vec![MarkerEvent::End(nonce2)]);
}

#[test]
fn detect_marker_split_at_nonce_boundary() {
    let mut detector = MarkerDetector::new();
    let nonce = generate_nonce();
    let marker = format!("\x1b_BEGIN_{}\x1b\\", nonce.hex());

    // Split exactly at the nonce boundary: after ESC _ BEGIN_
    let prefix_len = 2 + 6; // ESC + '_' + "BEGIN_"
    let chunk1 = &marker.as_bytes()[..prefix_len];
    let chunk2 = &marker.as_bytes()[prefix_len..];

    let _ = detector.feed(chunk1);
    let events = detector.feed(chunk2);
    assert_eq!(
        events,
        vec![MarkerEvent::Start(nonce)],
        "marker split at nonce boundary"
    );
}

#[test]
fn detect_markers_with_garbage_between() {
    let mut detector = MarkerDetector::new();
    let nonce = generate_nonce();

    let start = format!("\x1b_BEGIN_{}\x1b\\", nonce.hex());
    let end = format!("\x1b_END_{}\x1b\\", nonce.hex());
    let garbage = b"random noise here!!!\x01\x02\x03";

    let stream = [start.as_bytes(), garbage, end.as_bytes()].concat();
    let events = detector.feed(&stream);

    assert_eq!(
        events,
        vec![MarkerEvent::Start(nonce.clone()), MarkerEvent::End(nonce)],
        "detector should find both markers ignoring garbage"
    );
}

#[test]
fn inject_preserves_command_with_special_chars() {
    let injector = MarkerInjector::new();
    let cmd = r#"echo "hello" | grep 'world' && ls `pwd`"#;
    let (wrapped, _) = injector.inject(cmd);

    assert!(
        wrapped.contains(cmd),
        "wrapped command should contain original verbatim"
    );
}

// ── Exact values and edge cases ──────────────────────────────────────────────

#[test]
fn wrapped_command_has_exact_shape() {
    let (wrapped, nonce) = MarkerInjector::new().inject("ls");
    let hex = nonce.hex();
    assert_eq!(
        wrapped,
        format!("printf '\\033_BEGIN_{hex}\\033\\\\'; ls; __shush_exit=$?; printf '\\033_END_{hex}_%s\\033\\\\' \"$__shush_exit\"; unset __shush_exit")
    );
}

#[test]
fn hex_is_lowercase_and_decodes_uppercase() {
    let upper = "00FF10A0".repeat(8);
    let marker = format!("\x1b_BEGIN_{}\x1b\\", upper);
    let mut detector = MarkerDetector::new();
    let events = detector.feed(marker.as_bytes());
    assert_eq!(events.len(), 1);
    match &events[0] {
        MarkerEvent::Start(n) => assert_eq!(n.hex(), "00ff10a0".repeat(8)),
        other => panic!("expected start, got {other:?}"),
    }
}

#[test]
fn feeding_byte_by_byte_equals_feeding_at_once() {
    let a = generate_nonce();
    let b = generate_nonce();
    let stream = format!(
        "x\x1b_BEGIN_{}\x1b\\out\x1b[0m\x1b_END_{}\x1b\\tail\x1b",
        a.hex(),
        b.hex()
    );
    let mut whole = MarkerDetector::new();
    let all = whole.feed(stream.as_bytes());
    let mut split = MarkerDetector::new();
    let mut pieces = Vec::new();
    for byte in stream.as_bytes() {
        pieces.extend(split.feed(std::slice::from_ref(byte)));
    }
    assert_eq!(all, pieces);
    assert_eq!(all, vec![MarkerEvent::Start(a), MarkerEvent::End(b)]);
}

#[test]
fn malformed_markers_are_skipped() {
    let bad_hex = format!("\x1b_BEGIN_{}\x1b\\", "g".repeat(64));
    let bad_term = format!("\x1b_END_{}\x1bX", "a".repeat(64));
    let mut detector = MarkerDetector::new();
    assert!(detector.feed(format!("{bad_hex}{bad_term}{}", "y".repeat(80)).as_bytes()).is_empty());
}

#[test]
fn wrapped_command_echo_shows_as_the_command() {
    let (wrapped, _) = MarkerInjector::new().inject("false || echo 'x y'");
    let shown = shush::fe_master::sanitize_marker_echoes(format!("$ {wrapped}\n").as_bytes());
    assert_eq!(String::from_utf8_lossy(&shown), "$ false || echo 'x y'\n");
}

#[test]
fn stray_escape_does_not_hide_the_marker_after_it() {
    let h = "ab".repeat(32);
    let s = format!("\x1b\x1b_BEGIN_{h}\x1b\\");
    let mut d = MarkerDetector::new();
    let events = d.feed(s.as_bytes());
    assert_eq!(events.len(), 1);
    match &events[0] {
        MarkerEvent::Start(n) => assert_eq!(n.hex(), h),
        other => panic!("expected a start marker, got {other:?}"),
    }
}

#[test]
fn every_marker_is_reported_once_in_any_chunks() {
    let a = generate_nonce();
    let b = generate_nonce();
    let stream = format!(
        "\x1b_BEGIN_{}\x1b\\\x1b\x1b_END_{}\x1b\\x\x1b_BEGIN_zz\x1b_END_{}\x1b\\",
        a.hex(),
        b.hex(),
        a.hex().to_uppercase()
    );
    let expected = vec![MarkerEvent::Start(a.clone()), MarkerEvent::End(b), MarkerEvent::End(a)];
    for size in [1usize, 2, 5, 71, 72, 73, 500] {
        let mut d = MarkerDetector::new();
        let mut events = Vec::new();
        for chunk in stream.as_bytes().chunks(size) {
            events.extend(d.feed(chunk));
        }
        assert_eq!(events, expected, "chunks of {size}");
    }
}
