//! The event loop's decisions: which event a key becomes, how long the timer
//! sleeps, and which handler of the game an event goes to.

use crate::key::Key;
use crate::screen::{Character, Screen, ScreenBuffer};
use vstd::prelude::*;

verus! {

/// What reaches the main loop: a tick of the timer, a key from the reader,
/// or the reader's word that the session is over.
#[derive(Clone, Copy, Debug, PartialEq, Eq, Structural)]
pub enum Event {
    Tick,
    Key(Key),
    Terminate,
}

/// Clears the terminal and puts the cursor at its top left corner.
pub const CLEAR_SCREEN: &'static str = "\x1b[2J\x1b[H";

/// The length of one tick in nanoseconds, for 60 ticks in a second.
pub const TICK_NANOS: u64 = 1_000_000_000 / 60;

/// Twice the length of one tick in nanoseconds.
pub const DOUBLE_TICK_NANOS: u64 = 2_000_000_000 / 60;

/// An application that the event loop drives: it draws itself, and takes
/// keys and ticks. Its spec functions say what the three methods do, so that
/// the loop's own contract can speak of them. A game that says nothing of
/// itself is taken to allow everything.
pub trait Game {
    /// The states that the game can be in.
    open spec fn valid(&self) -> bool {
        true
    }

    /// Whether the game in this state may show `picture`.
    open spec fn draws(&self, picture: Seq<Seq<Character>>) -> bool {
        true
    }

    /// Whether `key` may take the game from this state to `next`.
    open spec fn key_step(&self, key: Key, next: &Self) -> bool {
        true
    }

    /// Whether a tick may take the game from this state to `next`.
    open spec fn tick_step(&self, next: &Self) -> bool {
        true
    }

    /// The screen content that shows the game as it is.
    fn render(&self) -> (buffer: ScreenBuffer)
        requires
            self.valid(),
        ensures
            self.draws(buffer@),
    ;

    /// Takes one key.
    fn process_key(&mut self, key: Key)
        requires
            old(self).valid(),
        ensures
            final(self).valid(),
            old(self).key_step(key, final(self)),
    ;

    /// Takes one tick of the timer.
    fn tick(&mut self)
        requires
            old(self).valid(),
        ensures
            final(self).valid(),
            old(self).tick_step(final(self)),
    ;
}

/// The event that the reader sends for `key`: Ctrl-C ends the session, any
/// other key is passed on.
pub open spec fn event_of_key(key: Key) -> Event {
    if key == Key::Control('C') {
        Event::Terminate
    } else {
        Event::Key(key)
    }
}

/// The event that the reader sends for `key`.
pub fn event_for_key(key: Key) -> (event: Event)
    ensures
        event == event_of_key(key),
{
    if key == Key::Control('C') {
        Event::Terminate
    } else {
        Event::Key(key)
    }
}

/// How long the timer sleeps before the next tick, in nanoseconds, when the
/// round before took `elapsed_nanos`, its sleep included: what is left of
/// two tick lengths, and nothing where the round took longer. A round that
/// ran late is made up for by the next.
pub fn next_sleep(elapsed_nanos: u128) -> (nanos: u64)
    ensures
        nanos == if elapsed_nanos >= DOUBLE_TICK_NANOS {
            0
        } else {
            DOUBLE_TICK_NANOS - elapsed_nanos
        },
{
    if elapsed_nanos >= DOUBLE_TICK_NANOS as u128 {
        0
    } else {
        DOUBLE_TICK_NANOS - elapsed_nanos as u64
    }
}

/// Whether handing `event` to a game in state `before` may leave it in
/// state `after`: a tick and a key go to their handlers, and the end of the
/// session touches nothing.
pub open spec fn event_step<G: Game>(before: &G, event: Event, after: &G) -> bool {
    match event {
        Event::Tick => before.tick_step(after),
        Event::Key(key) => before.key_step(key, after),
        Event::Terminate => after == before,
    }
}

/// Hands one event to the game. Returns whether the session goes on.
pub fn dispatch<G: Game>(game: &mut G, event: Event) -> (running: bool)
    requires
        old(game).valid(),
    ensures
        final(game).valid(),
        running == (event != Event::Terminate),
        event_step(old(game), event, final(game)),
{
    match event {
        Event::Tick => {
            game.tick();
            true
        },
        Event::Key(key) => {
            game.process_key(key);
            true
        },
        Event::Terminate => false,
    }
}

/// Draws the game over what the terminal shows, and returns what has to be
/// written to the terminal for that.
pub fn draw<G: Game>(game: &G, screen: &mut Screen) -> (output: String)
    requires
        game.valid(),
    ensures
        exists|picture: Seq<Seq<Character>>|
            {
                &&& #[trigger] game.draws(picture)
                &&& output@ == crate::screen::render_output(old(screen)@, picture)
                &&& final(screen)@ == crate::screen::retained_after(old(screen)@, picture)
            },
{
    let buffer = game.render();
    let ghost picture = buffer@;
    let output = screen.render(buffer);
    assert(game.draws(picture));
    output
}

/// How many events of `events` the loop handles: those before the first
/// `Terminate`.
pub open spec fn handled_count(events: Seq<Event>) -> nat
    decreases events.len(),
{
    if events.len() == 0 || events[0] == Event::Terminate {
        0
    } else {
        1 + handled_count(events.skip(1))
    }
}

/// The loop handles the events before the first `Terminate`, all of them,
/// and no other.
pub proof fn lemma_handled_before_terminate(events: Seq<Event>)
    ensures
        handled_count(events) <= events.len(),
        forall|i: int| 0 <= i < handled_count(events) ==> events[i] != Event::Terminate,
        handled_count(events) < events.len() ==> events[handled_count(events) as int]
            == Event::Terminate,
    decreases events.len(),
{
    if events.len() > 0 && events[0] != Event::Terminate {
        let rest = events.skip(1);
        lemma_handled_before_terminate(rest);
        assert forall|i: int| 0 <= i < handled_count(events) implies events[i]
            != Event::Terminate by {
            if i > 0 {
                assert(events[i] == rest[i - 1]);
            }
        }
        if handled_count(events) < events.len() {
            assert(events[handled_count(events) as int] == rest[handled_count(rest) as int]);
        }
    }
}

/// Ctrl-C ends the session, and no other key does.
pub proof fn lemma_ctrl_c_terminates(key: Key)
    ensures
        event_of_key(key) == Event::Terminate <==> key == Key::Control('C'),
        event_of_key(key) != Event::Terminate ==> event_of_key(key) == Event::Key(key),
{
}

/// Whether handing the events `events` to a game in state `start`, one
/// after the other in their order, may leave it in state `end`.
pub open spec fn reached<G: Game>(start: &G, events: Seq<Event>, end: &G) -> bool
    decreases events.len(),
{
    if events.len() == 0 {
        end == start
    } else {
        exists|middle: &G|
            #![trigger event_step(middle, events.last(), end)]
            reached(start, events.drop_last(), middle) && middle.valid() && event_step(
                middle,
                events.last(),
                end,
            )
    }
}

/// Runs the main loop over events that have arrived, in the order of their
/// arrival: each tick and each key goes to the game's handler, none is left
/// out, joined with another or taken before its turn, and at the first
/// `Terminate` the loop ends, so that the game sees nothing of what came
/// after. Returns how many events the game has handled.
pub fn replay<G: Game>(game: &mut G, events: &Vec<Event>) -> (handled: usize)
    requires
        old(game).valid(),
    ensures
        final(game).valid(),
        handled == handled_count(events@),
        reached(old(game), events@.take(handled as int), final(game)),
{
    let mut i: usize = 0;
    assert(events@.skip(0) =~= events@);
    assert(events@.take(0) =~= Seq::<Event>::empty());
    while i < events.len()
        invariant
            i <= events@.len(),
            game.valid(),
            handled_count(events@) == i + handled_count(events@.skip(i as int)),
            reached(old(game), events@.take(i as int), &*game),
        decreases events@.len() - i,
    {
        let event = events[i];
        let ghost middle = *game;
        if !dispatch(game, event) {
            return i;
        }
        proof {
            assert(events@.skip(i as int).skip(1) =~= events@.skip(i + 1));
            let prefix = events@.take(i + 1);
            assert(prefix.drop_last() =~= events@.take(i as int));
            assert(prefix.last() == event);
            assert(reached(old(game), prefix.drop_last(), &middle) && middle.valid() && event_step(
                &middle,
                prefix.last(),
                &*game,
            ));
        }
        i += 1;
    }
    assert(events@.take(i as int) =~= events@);
    i
}

} // verus!
