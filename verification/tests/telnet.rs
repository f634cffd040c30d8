use tui::runner::{ParseState, TelnetRead, IAC, NEGOTIATION, SB, SE};

fn filtered(filter: &mut TelnetRead, bytes: &[u8]) -> Vec<u8> {
    let mut buf = bytes.to_vec();
    let kept = filter.filter(&mut buf);
    assert!(kept <= bytes.len());
    assert_eq!(buf.len(), bytes.len());
    let mut before = bytes.to_vec();
    let mut after = buf.clone();
    before.sort();
    after.sort();
    assert_eq!(before, after);
    buf.truncate(kept);
    buf
}

#[test]
fn plain_bytes_pass_unchanged() {
    let mut filter = TelnetRead::new();
    assert_eq!(filter.state(), ParseState::Plain);
    assert_eq!(filtered(&mut filter, b"hello"), b"hello");
    assert_eq!(filter.state(), ParseState::Plain);
}

#[test]
fn negotiation_is_stripped() {
    let mut filter = TelnetRead::new();
    let bytes = [b'a', 255, 253, 34, b'b', 255, 250, 34, 1, 0, 255, 240, b'c', 255, 251, 1];
    assert_eq!(filtered(&mut filter, &bytes), b"abc");
    assert_eq!(filter.state(), ParseState::Plain);
}

#[test]
fn session_greeting_is_stripped_whole() {
    let mut filter = TelnetRead::new();
    let bytes = [255, 253, 34, 255, 250, 34, 1, 0, 255, 240, 255, 251, 1];
    assert_eq!(NEGOTIATION, bytes);
    assert_eq!(filtered(&mut filter, &bytes), b"");
    assert_eq!(filter.state(), ParseState::Plain);
}

#[test]
fn noise_between_plain_bytes_is_removed() {
    let plain = b"The quick brown fox";
    let noises: [&[u8]; 5] = [
        &[IAC, 241],
        &[IAC, 251, 31],
        &[IAC, 254, 0],
        &[IAC, SB, 24, 0, b'x', b't', b'e', b'r', b'm', IAC, SE],
        &[IAC, SB, IAC, SE],
    ];
    for noise in noises {
        for at in 0..=plain.len() {
            let mut stream = plain[..at].to_vec();
            stream.extend_from_slice(noise);
            stream.extend_from_slice(&plain[at..]);
            let mut filter = TelnetRead::new();
            assert_eq!(filtered(&mut filter, &stream), plain);
            assert_eq!(filter.state(), ParseState::Plain);
        }
    }
}

#[test]
fn state_is_kept_from_one_read_to_the_next() {
    let stream = [b'a', IAC, 253, 34, b'b', IAC, SB, 1, 2, 3, IAC, SE, b'c', IAC, 240, b'd'];
    for cut in 0..=stream.len() {
        let mut filter = TelnetRead::new();
        let mut out = filtered(&mut filter, &stream[..cut]);
        out.extend(filtered(&mut filter, &stream[cut..]));
        assert_eq!(out, b"abcd");
        assert_eq!(filter.state(), ParseState::Plain);
    }
}

#[test]
fn empty_read_gives_empty_read() {
    let mut filter = TelnetRead::new();
    assert_eq!(filtered(&mut filter, b""), b"");
    assert_eq!(filtered(&mut filter, &[IAC]), b"");
    assert_eq!(filter.state(), ParseState::WaitCommand);
    assert_eq!(filtered(&mut filter, b""), b"");
    assert_eq!(filter.state(), ParseState::WaitCommand);
}

#[test]
fn states_follow_the_protocol() {
    let mut state = ParseState::Plain;
    assert!(state.is_plain_char(b'a'));
    assert_eq!(state, ParseState::Plain);
    assert!(!state.is_plain_char(255));
    assert_eq!(state, ParseState::WaitCommand);
    assert!(!state.is_plain_char(250));
    assert_eq!(state, ParseState::WaitSubnegotiation);
    assert!(!state.is_plain_char(b'x'));
    assert_eq!(state, ParseState::WaitSubnegotiation);
    assert!(!state.is_plain_char(255));
    assert_eq!(state, ParseState::WaitCommand);
    assert!(!state.is_plain_char(240));
    assert_eq!(state, ParseState::Plain);
    for verb in 251u8..=254 {
        assert!(!state.is_plain_char(255));
        assert!(!state.is_plain_char(verb));
        assert_eq!(state, ParseState::WaitOption);
        assert!(!state.is_plain_char(b'z'));
        assert_eq!(state, ParseState::Plain);
    }
    assert!(!state.is_plain_char(255));
    assert!(!state.is_plain_char(249));
    assert_eq!(state, ParseState::Plain);
    assert!(state.is_plain_char(0));
}

#[test]
fn iac_restarts_a_command_from_any_state() {
    for start in [
        ParseState::Plain,
        ParseState::WaitCommand,
        ParseState::WaitOption,
        ParseState::WaitSubnegotiation,
    ] {
        let mut state = start;
        assert!(!state.is_plain_char(255));
        assert_eq!(state, ParseState::WaitCommand);
    }
}

#[test]
fn only_bytes_outside_sequences_pass() {
    for byte in 0u8..=254 {
        let mut state = ParseState::Plain;
        assert!(state.is_plain_char(byte));
        for start in [
            ParseState::WaitCommand,
            ParseState::WaitOption,
            ParseState::WaitSubnegotiation,
        ] {
            let mut state = start;
            assert!(!state.is_plain_char(byte));
        }
    }
}

#[test]
fn option_byte_after_a_verb_is_dropped() {
    let mut filter = TelnetRead::new();
    assert_eq!(filtered(&mut filter, &[IAC, 251]), b"");
    assert_eq!(filter.state(), ParseState::WaitOption);
    assert_eq!(filtered(&mut filter, b"ab"), b"b");
}
