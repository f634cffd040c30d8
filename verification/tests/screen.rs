use tui::screen::{write_char, write_cursor, write_decimal, Character, ColorPair, Screen, ScreenBuffer};

fn lines(rows: &[&str]) -> ScreenBuffer {
    let mut buffer = ScreenBuffer::new();
    for (i, row) in rows.iter().enumerate() {
        if i > 0 {
            buffer.new_line();
        }
        buffer.write(row);
    }
    buffer
}

#[test]
fn decimal_is_written_without_leading_zeros() {
    let cases: [(u128, &str); 8] = [
        (0, "0"),
        (7, "7"),
        (9, "9"),
        (10, "10"),
        (99, "99"),
        (100, "100"),
        (12345, "12345"),
        (u128::MAX, "340282366920938463463374607431768211455"),
    ];
    for (n, text) in cases {
        let mut out = String::from("x");
        write_decimal(&mut out, n);
        assert_eq!(out, format!("x{}", text));
    }
}

#[test]
fn cursor_sequence_has_row_before_column() {
    let mut out = String::new();
    write_cursor(&mut out, 3, 14);
    assert_eq!(out, "\x1b[3;14H");
    write_cursor(&mut out, 1, 1);
    assert_eq!(out, "\x1b[3;14H\x1b[1;1H");
}

#[test]
fn plain_cell_is_written_bare() {
    let mut out = String::new();
    write_char(&mut out, 4, 2, Character::new('x', None));
    assert_eq!(out, "\x1b[3;5Hx");
}

#[test]
fn coloured_cell_is_wrapped_in_set_and_reset() {
    let mut out = String::new();
    write_char(&mut out, 0, 0, Character::new('*', Some((31, 47))));
    assert_eq!(out, "\x1b[1;1H\x1b[31;47m*\x1b[0m");
}

#[test]
fn cell_at_the_last_index_does_not_overflow() {
    let mut out = String::new();
    write_char(&mut out, usize::MAX, usize::MAX, Character::new('x', None));
    let edge = usize::MAX as u128 + 1;
    assert_eq!(out, format!("\x1b[{};{}Hx", edge, edge));
}

#[test]
fn cells_are_equal_by_character_and_colours() {
    assert_eq!(Character::new('a', None), Character::new('a', None));
    assert_ne!(Character::new('a', None), Character::new('b', None));
    assert_ne!(Character::new('a', None), Character::new('a', Some((37, 40))));
    assert_ne!(Character::new('a', Some((37, 40))), Character::new('a', Some((37, 41))));
    assert_ne!(Character::new('a', Some((37, 40))), Character::new('a', Some((36, 40))));
    let cell = Character::new('a', Some((37, 40)));
    assert_eq!(cell.character, 'a');
    assert_eq!(cell.color, Some(ColorPair { fg: 37, bg: 40 }));
}

#[test]
fn first_render_draws_every_cell() {
    let mut screen = Screen::new();
    let out = screen.render(lines(&["AB", "C"]));
    assert_eq!(out, "\x1b[1;1HA\x1b[1;2HB\x1b[2;1HC\x1b[3;1H");
}

#[test]
fn empty_buffer_only_places_the_cursor() {
    let mut screen = Screen::new();
    assert_eq!(screen.render(ScreenBuffer::new()), "\x1b[2;1H");
}

#[test]
fn background_code_is_ten_above_the_colour() {
    let mut screen = Screen::new();
    let mut buffer = ScreenBuffer::new();
    buffer.write_color("ab", 31, 37);
    buffer.write("c");
    let out = screen.render(buffer);
    assert_eq!(
        out,
        "\x1b[1;1H\x1b[31;47ma\x1b[0m\x1b[1;2H\x1b[31;47mb\x1b[0m\x1b[1;3Hc\x1b[2;1H"
    );
}

#[test]
fn rendering_the_same_buffer_again_writes_no_cell() {
    let mut screen = Screen::new();
    let build = || {
        let mut buffer = lines(&["hello", "", "world"]);
        buffer.write_color("!", 33, 90);
        buffer
    };
    let first = screen.render(build());
    assert!(first.len() > "\x1b[4;1H".len());
    assert_eq!(screen.render(build()), "\x1b[4;1H");
    assert_eq!(screen.render(build()), "\x1b[4;1H");
}

#[test]
fn one_changed_cell_costs_one_write() {
    let mut screen = Screen::new();
    screen.render(lines(&["abc", "def", "ghi"]));
    assert_eq!(screen.render(lines(&["abc", "dXf", "ghi"])), "\x1b[2;2HX\x1b[4;1H");
    assert_eq!(screen.render(lines(&["abc", "dXf", "ghZ"])), "\x1b[3;3HZ\x1b[4;1H");
}

#[test]
fn change_of_colour_alone_is_a_change() {
    let mut screen = Screen::new();
    let mut plain = ScreenBuffer::new();
    plain.write("a");
    screen.render(plain);
    let mut coloured = ScreenBuffer::new();
    coloured.write_color("a", 37, 30);
    assert_eq!(screen.render(coloured), "\x1b[1;1H\x1b[37;40ma\x1b[0m\x1b[2;1H");
    let mut plain = ScreenBuffer::new();
    plain.write("a");
    assert_eq!(screen.render(plain), "\x1b[1;1Ha\x1b[2;1H");
}

#[test]
fn shorter_row_is_blanked_behind_its_end() {
    let mut screen = Screen::new();
    screen.render(lines(&["abcdef", "xyz"]));
    assert_eq!(screen.render(lines(&["abc", "xyz"])), "\x1b[1;4H   \x1b[3;1H");
    assert_eq!(screen.render(lines(&["abc", ""])), "\x1b[2;1H   \x1b[3;1H");
    assert_eq!(screen.render(lines(&["abc", ""])), "\x1b[3;1H");
}

#[test]
fn shorter_row_with_a_change_writes_both() {
    let mut screen = Screen::new();
    screen.render(lines(&["abcdef"]));
    assert_eq!(screen.render(lines(&["aXc"])), "\x1b[1;2HX\x1b[1;4H   \x1b[2;1H");
}

#[test]
fn longer_row_appends_the_new_cells() {
    let mut screen = Screen::new();
    screen.render(lines(&["ab"]));
    assert_eq!(screen.render(lines(&["abcd"])), "\x1b[1;3Hc\x1b[1;4Hd\x1b[2;1H");
}

#[test]
fn rows_that_are_gone_are_cleared_and_kept() {
    let mut screen = Screen::new();
    assert_eq!(
        screen.render(lines(&["a", "bb", "ccc"])),
        "\x1b[1;1Ha\x1b[2;1Hb\x1b[2;2Hb\x1b[3;1Hc\x1b[3;2Hc\x1b[3;3Hc\x1b[4;1H"
    );
    assert_eq!(screen.render(lines(&["a"])), "\x1b[2;1H  \x1b[3;1H   \x1b[4;1H");
    assert_eq!(screen.render(lines(&["a"])), "\x1b[4;1H");
    assert_eq!(screen.render(lines(&["a", "b"])), "\x1b[2;1Hb\x1b[4;1H");
}

#[test]
fn more_rows_move_the_cursor_down() {
    let mut screen = Screen::new();
    screen.render(lines(&["a"]));
    assert_eq!(screen.render(lines(&["a", "", "c"])), "\x1b[3;1Hc\x1b[4;1H");
}

#[test]
fn characters_beyond_ascii_are_one_cell_each() {
    let mut screen = Screen::new();
    assert_eq!(screen.render(lines(&["é€"])), "\x1b[1;1Hé\x1b[1;2H€\x1b[2;1H");
}

#[test]
fn write_appends_to_the_last_line() {
    let mut buffer = ScreenBuffer::new();
    buffer.write("ab");
    buffer.write("cd");
    buffer.new_line();
    buffer.new_line();
    buffer.write("e");
    let mut screen = Screen::new();
    assert_eq!(
        screen.render(buffer),
        "\x1b[1;1Ha\x1b[1;2Hb\x1b[1;3Hc\x1b[1;4Hd\x1b[3;1He\x1b[4;1H"
    );
}
