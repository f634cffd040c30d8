use tui::key::{process_escape, process_input, Key, KeyInput, MouseButton, BUF_LEN};

fn keys_of(bytes: &[u8]) -> Vec<Key> {
    let mut input = KeyInput::new();
    assert_eq!(input.fill_buf(bytes), bytes.len());
    let mut keys = Vec::new();
    while let Some(key) = input.get_key() {
        keys.push(key);
    }
    assert!(input.is_exhausted());
    keys
}

#[test]
fn new_decoder_holds_nothing() {
    let mut input = KeyInput::new();
    assert!(input.is_exhausted());
    assert_eq!(input.get_key(), None);
    assert_eq!(process_input(&mut input), None);
}

#[test]
fn printable_bytes_decode_one_for_one() {
    let text = b"Hello, world ~!";
    let expected: Vec<Key> = text.iter().map(|b| Key::Character(*b as char)).collect();
    assert_eq!(keys_of(text), expected);
}

#[test]
fn every_printable_byte_is_its_character() {
    for byte in 0x20u8..=0x7e {
        assert_eq!(keys_of(&[byte]), vec![Key::Character(byte as char)]);
    }
}

#[test]
fn arrows_decode_without_extra_events() {
    assert_eq!(keys_of(b"\x1b[A"), vec![Key::ArrowUp]);
    assert_eq!(keys_of(b"\x1b[B"), vec![Key::ArrowDown]);
    assert_eq!(keys_of(b"\x1b[C"), vec![Key::ArrowRight]);
    assert_eq!(keys_of(b"\x1b[D"), vec![Key::ArrowLeft]);
}

#[test]
fn mouse_reports_decode() {
    assert_eq!(
        keys_of(b"\x1b[<0;5;3M"),
        vec![Key::MouseDown(MouseButton::Left, 5, 3)]
    );
    assert_eq!(
        keys_of(b"\x1b[<2;10;1m"),
        vec![Key::MouseUp(MouseButton::Right, 10, 1)]
    );
    assert_eq!(
        keys_of(b"\x1b[<2;007;120M"),
        vec![Key::MouseDown(MouseButton::Right, 7, 120)]
    );
    assert_eq!(
        keys_of(b"\x1b[<0;1;2m"),
        vec![Key::MouseUp(MouseButton::Left, 1, 2)]
    );
}

#[test]
fn named_keys_decode() {
    assert_eq!(keys_of(&[9]), vec![Key::Tab]);
    assert_eq!(keys_of(&[13]), vec![Key::Return]);
    assert_eq!(keys_of(&[127]), vec![Key::Delete]);
    assert_eq!(keys_of(&[27]), vec![Key::Escape]);
}

#[test]
fn control_bytes_give_their_letter() {
    assert_eq!(keys_of(&[3]), vec![Key::Control('C')]);
    assert_eq!(keys_of(&[1]), vec![Key::Control('A')]);
    assert_eq!(keys_of(&[26]), vec![Key::Control('Z')]);
    assert_eq!(keys_of(&[31]), vec![Key::Control('_')]);
    assert_eq!(keys_of(&[10]), vec![Key::Control('J')]);
}

#[test]
fn bytes_without_a_meaning_give_nothing() {
    assert_eq!(keys_of(&[0]), vec![]);
    assert_eq!(keys_of(&[0x80]), vec![]);
    assert_eq!(keys_of(&[0xbf, 0xf8, 0xff]), vec![]);
    assert_eq!(keys_of(&[0x80, b'a', 0xff, b'b']), vec![Key::Character('a'), Key::Character('b')]);
}

#[test]
fn multibyte_characters_are_passed_over() {
    assert_eq!(keys_of("é".as_bytes()), vec![]);
    assert_eq!(keys_of("aéb".as_bytes()), vec![Key::Character('a'), Key::Character('b')]);
    assert_eq!(keys_of("a€b".as_bytes()), vec![Key::Character('a'), Key::Character('b')]);
    assert_eq!(keys_of("a😀b".as_bytes()), vec![Key::Character('a'), Key::Character('b')]);
}

#[test]
fn lead_byte_passes_over_continuation_bytes_alone() {
    assert_eq!(keys_of(&[0xc3, b'A']), vec![Key::Character('A')]);
    assert_eq!(
        keys_of(&[0xc3, b'A', b'b']),
        vec![Key::Character('A'), Key::Character('b')]
    );
    assert_eq!(keys_of(&[0xe2, 0x82, b'A']), vec![Key::Character('A')]);
    assert_eq!(
        keys_of(&[0xe2, b'A', b'B', b'C']),
        vec![Key::Character('A'), Key::Character('B'), Key::Character('C')]
    );
    assert_eq!(
        keys_of(&[0xf0, 0x9f, b'A', 0x98, b'D']),
        vec![Key::Character('A'), Key::Character('D')]
    );
    assert_eq!(keys_of(&[b'x', 0xf0, b'A']), vec![Key::Character('x'), Key::Character('A')]);
    assert_eq!(keys_of(&[0xc3, 0xa9, 0xa9, b'z']), vec![Key::Character('z')]);
}

#[test]
fn lead_byte_takes_no_more_than_it_announces() {
    let mut input = KeyInput::new();
    input.fill_buf(&[0xc3, 0xa9, 0xa9, 9]);
    assert_eq!(process_input(&mut input), None);
    assert_eq!(process_input(&mut input), None);
    assert_eq!(process_input(&mut input), Some(Key::Tab));
    assert!(input.is_exhausted());
    input.fill_buf(&[0xf0, 0x9f, 0x98, 0x80, 0x80, 9]);
    assert_eq!(process_input(&mut input), None);
    assert_eq!(process_input(&mut input), None);
    assert_eq!(process_input(&mut input), Some(Key::Tab));
    assert!(input.is_exhausted());
}

#[test]
fn malformed_escape_sequences_give_nothing() {
    assert_eq!(keys_of(b"\x1bx"), vec![]);
    assert_eq!(keys_of(b"\x1b["), vec![]);
    assert_eq!(keys_of(b"\x1b[Z"), vec![]);
    assert_eq!(keys_of(b"\x1bOA"), vec![]);
    assert_eq!(keys_of(b"\x1b[1;5A"), vec![]);
}

#[test]
fn malformed_mouse_reports_give_nothing() {
    assert_eq!(keys_of(b"\x1b[<"), vec![]);
    assert_eq!(keys_of(b"\x1b[<M"), vec![]);
    assert_eq!(keys_of(b"\x1b[<0;5M"), vec![]);
    assert_eq!(keys_of(b"\x1b[<0;5;M"), vec![]);
    assert_eq!(keys_of(b"\x1b[<0;5;3"), vec![]);
    assert_eq!(keys_of(b"\x1b[<0;5;3x"), vec![]);
    assert_eq!(keys_of(b"\x1b[<1;5;3M"), vec![]);
    assert_eq!(keys_of(b"\x1b[<3;5;3m"), vec![]);
    assert_eq!(keys_of(b"\x1b[<64;5;3M"), vec![]);
}

#[test]
fn empty_parameter_makes_no_report() {
    assert_eq!(keys_of(b"\x1b[<0;;5;3M"), vec![]);
    assert_eq!(keys_of(b"\x1b[<;2;5;3m"), vec![]);
    assert_eq!(keys_of(b"\x1b[<0;5;;M"), vec![]);
    assert_eq!(keys_of(b"\x1b[<;;M"), vec![]);
    assert_eq!(keys_of(b"\x1b[<;;;M"), vec![]);
}

#[test]
fn report_has_three_parameters() {
    assert_eq!(keys_of(b"\x1b[<0;5;3;9M"), vec![]);
    assert_eq!(keys_of(b"\x1b[<0;5;3;M"), vec![]);
    assert_eq!(keys_of(b"\x1b[<0;5M"), vec![]);
    assert_eq!(keys_of(b"\x1b[<0M"), vec![]);
    assert_eq!(
        keys_of(b"\x1b[<0;5;3M"),
        vec![Key::MouseDown(MouseButton::Left, 5, 3)]
    );
}

#[test]
fn what_follows_a_decoded_sequence_stays() {
    assert_eq!(
        keys_of(b"\x1b[Aabc"),
        vec![
            Key::ArrowUp,
            Key::Character('a'),
            Key::Character('b'),
            Key::Character('c'),
        ]
    );
    assert_eq!(
        keys_of(b"ab\x1b[Bcd"),
        vec![
            Key::Character('a'),
            Key::Character('b'),
            Key::ArrowDown,
            Key::Character('c'),
            Key::Character('d'),
        ]
    );
    assert_eq!(
        keys_of(b"\x1b[<0;5;3Mxyz"),
        vec![
            Key::MouseDown(MouseButton::Left, 5, 3),
            Key::Character('x'),
            Key::Character('y'),
            Key::Character('z'),
        ]
    );
    assert_eq!(
        keys_of(b"\x1b[<2;1;1m\x1b[D\x03"),
        vec![Key::MouseUp(MouseButton::Right, 1, 1), Key::ArrowLeft, Key::Control('C')]
    );
}

#[test]
fn sequences_of_one_read_all_decode() {
    assert_eq!(
        keys_of(b"\x1b[B\x1b[B\x1b[<0;5;3M"),
        vec![
            Key::ArrowDown,
            Key::ArrowDown,
            Key::MouseDown(MouseButton::Left, 5, 3),
        ]
    );
    assert_eq!(
        keys_of(b"\x1b[A\x1b[B\x1b[C\x1b[D\x1b"),
        vec![
            Key::ArrowUp,
            Key::ArrowDown,
            Key::ArrowRight,
            Key::ArrowLeft,
            Key::Escape,
        ]
    );
}

#[test]
fn sequence_without_an_event_takes_the_buffer_along() {
    assert_eq!(keys_of(b"\x1bxabc"), vec![]);
    assert_eq!(keys_of(b"\x1b[Zabc"), vec![]);
    assert_eq!(keys_of(b"a\x1b[<1;5;3Mbc"), vec![Key::Character('a')]);
    assert_eq!(keys_of(b"\x1b[<0;5;3xabc"), vec![]);
    assert_eq!(keys_of(b"\x1b[A\x1b[Z\x1b[B"), vec![Key::ArrowUp]);
}

#[test]
fn buffer_takes_sixteen_bytes() {
    assert_eq!(BUF_LEN, 16);
    let mut input = KeyInput::new();
    let text = b"0123456789abcdefXYZ";
    assert_eq!(input.fill_buf(text), 16);
    let mut keys = Vec::new();
    while let Some(key) = input.get_key() {
        keys.push(key);
    }
    let expected: Vec<Key> = text[..16].iter().map(|b| Key::Character(*b as char)).collect();
    assert_eq!(keys, expected);
}

#[test]
fn fill_replaces_what_is_buffered() {
    let mut input = KeyInput::new();
    assert_eq!(input.fill_buf(b"ab"), 2);
    assert_eq!(input.get_key(), Some(Key::Character('a')));
    assert_eq!(input.fill_buf(b"xy"), 2);
    assert_eq!(input.get_key(), Some(Key::Character('x')));
    assert_eq!(input.get_key(), Some(Key::Character('y')));
    assert_eq!(input.get_key(), None);
    assert_eq!(input.fill_buf(b""), 0);
    assert_eq!(input.get_key(), None);
}

#[test]
fn keys_come_in_order_over_several_reads() {
    let mut input = KeyInput::new();
    let mut keys = Vec::new();
    let reads: [&[u8]; 4] = [b"ab", b"\x1b[C", b"\x03", b"\x1b[<0;1;1M"];
    for read in reads {
        input.fill_buf(read);
        while let Some(key) = input.get_key() {
            keys.push(key);
        }
    }
    assert_eq!(
        keys,
        vec![
            Key::Character('a'),
            Key::Character('b'),
            Key::ArrowRight,
            Key::Control('C'),
            Key::MouseDown(MouseButton::Left, 1, 1),
        ]
    );
}

#[test]
fn sequence_cut_by_a_read_is_dropped() {
    let mut input = KeyInput::new();
    input.fill_buf(b"\x1b[<0;5");
    assert_eq!(input.get_key(), None);
    input.fill_buf(b";3M");
    assert_eq!(input.get_key(), Some(Key::Character(';')));
    assert_eq!(input.get_key(), Some(Key::Character('3')));
    assert_eq!(input.get_key(), Some(Key::Character('M')));
    assert_eq!(input.get_key(), None);
}

#[test]
fn stale_bytes_are_not_read_as_parameters() {
    let mut input = KeyInput::new();
    input.fill_buf(b"0123456789;3;4M");
    while input.get_key().is_some() {}
    input.fill_buf(b"\x1b[<0;5");
    assert_eq!(input.get_key(), None);
    assert!(input.is_exhausted());
}

#[test]
fn report_longer_than_the_buffer_is_dropped() {
    let report = b"\x1b[<0;1;9999999999M";
    assert!(report.len() > BUF_LEN);
    let mut input = KeyInput::new();
    assert_eq!(input.fill_buf(report), BUF_LEN);
    assert_eq!(input.get_key(), None);
    assert!(input.is_exhausted());
}

#[test]
fn longest_parameters_that_fit_are_read() {
    assert_eq!(
        keys_of(b"\x1b[<0;1234;56789M"),
        vec![Key::MouseDown(MouseButton::Left, 1234, 56789)]
    );
    assert_eq!(
        keys_of(b"\x1b[<2;0;99999999m"),
        vec![Key::MouseUp(MouseButton::Right, 0, 99999999)]
    );
}

#[test]
fn process_input_decodes_one_byte() {
    let mut input = KeyInput::new();
    input.fill_buf(&[0x80, b'a', 0xc3, 0xa9, 9]);
    assert_eq!(process_input(&mut input), None);
    assert!(!input.is_exhausted());
    assert_eq!(process_input(&mut input), Some(Key::Character('a')));
    assert_eq!(process_input(&mut input), None);
    assert_eq!(process_input(&mut input), Some(Key::Tab));
    assert!(input.is_exhausted());
    assert_eq!(process_input(&mut input), None);
}

#[test]
fn process_escape_reads_what_follows_the_escape() {
    let mut input = KeyInput::new();
    assert_eq!(process_escape(&mut input), Some(Key::Escape));
    input.fill_buf(b"[D");
    assert_eq!(process_escape(&mut input), Some(Key::ArrowLeft));
    assert!(input.is_exhausted());
    input.fill_buf(b"[<2;3;4mrest");
    assert_eq!(process_escape(&mut input), Some(Key::MouseUp(MouseButton::Right, 3, 4)));
    assert_eq!(input.get_key(), Some(Key::Character('r')));
    input.fill_buf(b"[Crest");
    assert_eq!(process_escape(&mut input), Some(Key::ArrowRight));
    assert_eq!(input.get_key(), Some(Key::Character('r')));
    input.fill_buf(b"Arest");
    assert_eq!(process_escape(&mut input), None);
    assert!(input.is_exhausted());
    input.fill_buf(b"[<0;;5;3M");
    assert_eq!(process_escape(&mut input), None);
    assert!(input.is_exhausted());
}

#[test]
fn mouse_modes_are_switched_in_opposite_order() {
    assert_eq!(tui::key::ENABLE_MOUSE, "\x1b[?1000h\x1b[?1002h\x1b[?1015h\x1b[?1006h");
    assert_eq!(tui::key::DISABLE_MOUSE, "\x1b[?1006l\x1b[?1015l\x1b[?1002l\x1b[?1000l");
}
