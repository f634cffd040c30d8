use tui::game::{
    dispatch, draw, event_for_key, next_sleep, replay, Event, Game, CLEAR_SCREEN, DOUBLE_TICK_NANOS,
    TICK_NANOS,
};
use tui::key::{Key, KeyInput, MouseButton};
use tui::screen::{Screen, ScreenBuffer};

#[derive(Debug, PartialEq, Clone)]
enum Call {
    Tick,
    Key(Key),
}

struct Recorder {
    calls: Vec<Call>,
}

impl Recorder {
    fn new() -> Self {
        Recorder { calls: Vec::new() }
    }
}

impl Game for Recorder {
    fn render(&self) -> ScreenBuffer {
        let mut buffer = ScreenBuffer::new();
        for call in &self.calls {
            match call {
                Call::Tick => buffer.write("t"),
                Call::Key(Key::ArrowDown) => buffer.write("v"),
                Call::Key(Key::MouseDown(..)) => buffer.write("m"),
                Call::Key(_) => buffer.write("k"),
            }
        }
        buffer
    }

    fn process_key(&mut self, key: Key) {
        self.calls.push(Call::Key(key));
    }

    fn tick(&mut self) {
        self.calls.push(Call::Tick);
    }
}

#[test]
fn events_reach_the_game_in_arrival_order() {
    let mut game = Recorder::new();
    let events = vec![
        Event::Tick,
        Event::Key(Key::ArrowUp),
        Event::Tick,
        Event::Tick,
        Event::Key(Key::Character('a')),
    ];
    let handled = replay(&mut game, &events);
    assert_eq!(handled, 5);
    assert_eq!(
        game.calls,
        vec![
            Call::Tick,
            Call::Key(Key::ArrowUp),
            Call::Tick,
            Call::Tick,
            Call::Key(Key::Character('a')),
        ]
    );
}

#[test]
fn terminate_stops_the_loop() {
    let mut game = Recorder::new();
    let events = vec![
        event_for_key(Key::Character('x')),
        Event::Tick,
        event_for_key(Key::Control('C')),
        Event::Tick,
        event_for_key(Key::Character('y')),
    ];
    let handled = replay(&mut game, &events);
    assert_eq!(handled, 2);
    assert_eq!(game.calls, vec![Call::Key(Key::Character('x')), Call::Tick]);
    assert!(!dispatch(&mut game, Event::Terminate));
    assert_eq!(game.calls.len(), 2);
}

#[test]
fn replay_of_nothing_does_nothing() {
    let mut game = Recorder::new();
    assert_eq!(replay(&mut game, &Vec::new()), 0);
    assert_eq!(replay(&mut game, &vec![Event::Terminate, Event::Tick]), 0);
    assert!(game.calls.is_empty());
}

#[test]
fn ticks_are_not_joined() {
    let mut game = Recorder::new();
    let events = vec![Event::Tick; 100];
    assert_eq!(replay(&mut game, &events), 100);
    assert_eq!(game.calls, vec![Call::Tick; 100]);
}

#[test]
fn dispatch_hands_each_event_to_its_handler() {
    let mut game = Recorder::new();
    assert!(dispatch(&mut game, Event::Tick));
    assert!(dispatch(&mut game, Event::Key(Key::Tab)));
    assert!(!dispatch(&mut game, Event::Terminate));
    assert_eq!(game.calls, vec![Call::Tick, Call::Key(Key::Tab)]);
}

#[test]
fn only_ctrl_c_ends_the_session() {
    assert_eq!(event_for_key(Key::Control('C')), Event::Terminate);
    assert_eq!(event_for_key(Key::Control('D')), Event::Key(Key::Control('D')));
    assert_eq!(event_for_key(Key::Character('C')), Event::Key(Key::Character('C')));
    assert_eq!(event_for_key(Key::Escape), Event::Key(Key::Escape));
    assert_eq!(
        event_for_key(Key::MouseUp(MouseButton::Left, 1, 2)),
        Event::Key(Key::MouseUp(MouseButton::Left, 1, 2))
    );
}

#[test]
fn sleep_makes_up_for_a_late_round() {
    assert_eq!(TICK_NANOS, 16_666_666);
    assert_eq!(DOUBLE_TICK_NANOS, 33_333_333);
    assert_eq!(next_sleep(0), 33_333_333);
    assert_eq!(next_sleep(16_666_666), 16_666_667);
    assert_eq!(next_sleep(20_000_000), 13_333_333);
    assert_eq!(next_sleep(33_333_332), 1);
    assert_eq!(next_sleep(33_333_333), 0);
    assert_eq!(next_sleep(33_333_334), 0);
    assert_eq!(next_sleep(u128::MAX), 0);
    assert_eq!(next_sleep(u64::MAX as u128 + 5), 0);
}

#[test]
fn clear_screen_clears_and_homes() {
    assert_eq!(CLEAR_SCREEN, "\x1b[2J\x1b[H");
}

#[test]
fn draw_writes_what_has_changed() {
    let mut game = Recorder::new();
    let mut screen = Screen::new();
    assert_eq!(draw(&game, &mut screen), "\x1b[2;1H");
    game.tick();
    assert_eq!(draw(&game, &mut screen), "\x1b[1;1Ht\x1b[2;1H");
    assert_eq!(draw(&game, &mut screen), "\x1b[2;1H");
}

#[test]
fn keys_from_bytes_reach_the_game_and_the_screen() {
    let mut input = KeyInput::new();
    let mut game = Recorder::new();
    let mut screen = Screen::new();
    let mut frames = vec![draw(&game, &mut screen)];
    let reads: [&[u8]; 3] = [b"\x1b[B", b"\x1b[B", b"\x1b[<0;7;4M"];
    for read in reads {
        input.fill_buf(read);
        while let Some(key) = input.get_key() {
            assert!(dispatch(&mut game, event_for_key(key)));
            frames.push(draw(&game, &mut screen));
        }
    }
    assert_eq!(
        game.calls,
        vec![
            Call::Key(Key::ArrowDown),
            Call::Key(Key::ArrowDown),
            Call::Key(Key::MouseDown(MouseButton::Left, 7, 4)),
        ]
    );
    assert_eq!(
        frames,
        vec![
            "\x1b[2;1H",
            "\x1b[1;1Hv\x1b[2;1H",
            "\x1b[1;2Hv\x1b[2;1H",
            "\x1b[1;3Hm\x1b[2;1H",
        ]
    );
}

#[test]
fn keys_of_one_read_reach_the_game_in_order() {
    let mut input = KeyInput::new();
    let mut game = Recorder::new();
    let mut running = true;
    let reads: [&[u8]; 2] = [b"\x1b[B\x1b[B\x1b[<0;5;3M", b"\x03\x1b[B"];
    for read in reads {
        input.fill_buf(read);
        while running {
            match input.get_key() {
                Some(key) => running = dispatch(&mut game, event_for_key(key)),
                None => break,
            }
        }
    }
    assert!(!running);
    assert_eq!(
        game.calls,
        vec![
            Call::Key(Key::ArrowDown),
            Call::Key(Key::ArrowDown),
            Call::Key(Key::MouseDown(MouseButton::Left, 5, 3)),
        ]
    );
}
