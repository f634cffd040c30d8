//! The Telnet filter: the state machine that takes command, option and
//! subnegotiation sequences out of the bytes of a connection.

use vstd::prelude::*;

verus! {

/// Telnet "Interpret As Command": the byte that opens every protocol sequence.
pub const IAC: u8 = 255;

/// Telnet "subnegotiation begin".
pub const SB: u8 = 250;

/// Telnet "subnegotiation end".
pub const SE: u8 = 240;

/// Telnet WILL, the first of the four bytes that announce an option code;
/// WONT, DO and DONT follow it.
pub const WILL: u8 = 251;

/// Telnet DONT, the last of the four bytes that announce an option code.
pub const DONT: u8 = 254;

/// What the server sends when a session starts, to have the client send
/// each key as it is pressed: DO LINEMODE, the subnegotiation that switches
/// line editing off, and WILL ECHO.
pub const NEGOTIATION: [u8; 13] = [255, 253, 34, 255, 250, 34, 1, 0, 255, 240, 255, 251, 1];

/// Where the filter stands inside the Telnet byte stream.
#[derive(Clone, Copy, Debug, PartialEq, Eq, Structural)]
pub enum ParseState {
    /// Outside any protocol sequence: bytes are application data.
    Plain,
    /// An IAC was seen; the next byte is a command.
    WaitCommand,
    /// WILL, WONT, DO or DONT was seen; the next byte is the option code.
    WaitOption,
    /// Inside a subnegotiation; everything up to the next IAC is discarded.
    WaitSubnegotiation,
}

/// The state that follows `state` once `byte` has been read.
pub open spec fn next_state(state: ParseState, byte: u8) -> ParseState {
    if byte == IAC {
        ParseState::WaitCommand
    } else {
        match state {
            ParseState::Plain => ParseState::Plain,
            ParseState::WaitCommand => if byte == SB {
                ParseState::WaitSubnegotiation
            } else if WILL <= byte <= DONT {
                ParseState::WaitOption
            } else {
                ParseState::Plain
            },
            ParseState::WaitOption => ParseState::Plain,
            ParseState::WaitSubnegotiation => ParseState::WaitSubnegotiation,
        }
    }
}

/// Whether `byte`, read in `state`, is application data.
pub open spec fn passes(state: ParseState, byte: u8) -> bool {
    state == ParseState::Plain && byte != IAC
}

impl ParseState {
    /// Advances the state machine by one byte and tells whether that byte is
    /// application data.
    pub fn is_plain_char(&mut self, byte: u8) -> (plain: bool)
        ensures
            plain == passes(*old(self), byte),
            *final(self) == next_state(*old(self), byte),
    {
        let (next, plain) = match (*self, byte) {
            (_, IAC) => (ParseState::WaitCommand, false),
            (ParseState::Plain, _) => (ParseState::Plain, true),
            (ParseState::WaitCommand, SB) => (ParseState::WaitSubnegotiation, false),
            (ParseState::WaitCommand, WILL..=DONT) => (ParseState::WaitOption, false),
            (ParseState::WaitCommand, _) => (ParseState::Plain, false),
            (ParseState::WaitOption, _) => (ParseState::Plain, false),
            (ParseState::WaitSubnegotiation, _) => (ParseState::WaitSubnegotiation, false),
        };
        *self = next;
        plain
    }
}

/// The state reached from `state` once all of `bytes` have been read.
pub open spec fn state_after(state: ParseState, bytes: Seq<u8>) -> ParseState
    decreases bytes.len(),
{
    if bytes.len() == 0 {
        state
    } else {
        next_state(state_after(state, bytes.drop_last()), bytes.last())
    }
}

/// The application data among `bytes`, read from `state` on: the bytes that
/// are no part of a protocol sequence, in the order in which they came.
pub open spec fn plain_bytes(state: ParseState, bytes: Seq<u8>) -> Seq<u8>
    decreases bytes.len(),
{
    if bytes.len() == 0 {
        Seq::empty()
    } else {
        let before = plain_bytes(state, bytes.drop_last());
        if passes(state_after(state, bytes.drop_last()), bytes.last()) {
            before.push(bytes.last())
        } else {
            before
        }
    }
}

/// Exchanging two elements of a sequence leaves its multiset unchanged.
proof fn lemma_swap_keeps_multiset(s: Seq<u8>, i: int, j: int)
    requires
        0 <= i < s.len(),
        0 <= j < s.len(),
    ensures
        s.update(i, s[j]).update(j, s[i]).to_multiset() == s.to_multiset(),
{
    broadcast use vstd::multiset::group_multiset_axioms;

    let mid = s.update(i, s[j]);
    vstd::seq_lib::to_multiset_update(s, i, s[j]);
    vstd::seq_lib::to_multiset_update(mid, j, s[i]);
    vstd::seq_lib::to_multiset_contains(s, s[i]);
    vstd::seq_lib::to_multiset_contains(s, s[j]);
    assert(s.contains(s[i]));
    assert(s.contains(s[j]));
    assert(mid[j] == s[j]);
    assert(mid.update(j, s[i]).to_multiset() =~= s.to_multiset());
}

/// The Telnet filter: a free-running state machine over the bytes of one
/// connection that strips command, option and subnegotiation sequences.
pub struct TelnetRead {
    state: ParseState,
}

impl View for TelnetRead {
    type V = ParseState;

    closed spec fn view(&self) -> ParseState {
        self.state
    }
}

impl TelnetRead {
    /// A filter at the start of a connection, outside any protocol sequence.
    pub fn new() -> (filter: Self)
        ensures
            filter@ == ParseState::Plain,
    {
        TelnetRead { state: ParseState::Plain }
    }

    /// Where the filter stands.
    pub fn state(&self) -> (state: ParseState)
        ensures
            state == self@,
    {
        self.state
    }

    /// Filters what one read of the underlying source yielded. The
    /// application data is moved to the front of `buf`, in the order in
    /// which it came, and its length returned; the filter remembers where in the
    /// stream it stands. The buffer keeps its bytes, in another order.
    pub fn filter(&mut self, buf: &mut [u8]) -> (kept: usize)
        ensures
            final(self)@ == state_after(old(self)@, old(buf)@),
            final(buf)@.len() == old(buf)@.len(),
            kept <= old(buf)@.len(),
            final(buf)@.take(kept as int) == plain_bytes(old(self)@, old(buf)@),
            final(buf)@.to_multiset() == old(buf)@.to_multiset(),
    {
        let size = buf.len();
        let mut ptr: usize = 0;
        let mut i: usize = 0;
        assert(old(buf)@.take(0) =~= Seq::<u8>::empty());
        while i < size
            invariant
                ptr <= i <= size,
                size == buf@.len(),
                size == old(buf)@.len(),
                self.state == state_after(old(self).state, old(buf)@.take(i as int)),
                buf@.take(ptr as int) == plain_bytes(old(self).state, old(buf)@.take(i as int)),
                forall|k: int| i <= k < size ==> buf@[k] == old(buf)@[k],
                buf@.to_multiset() == old(buf)@.to_multiset(),
            decreases size - i,
        {
            let byte = buf[i];
            let ghost before = buf@;
            assert(old(buf)@.take(i + 1).drop_last() =~= old(buf)@.take(i as int));
            if self.state.is_plain_char(byte) {
                let front = buf[ptr];
                buf[i] = front;
                buf[ptr] = byte;
                proof {
                    lemma_swap_keeps_multiset(before, i as int, ptr as int);
                    assert(buf@.take(ptr + 1) =~= before.take(ptr as int).push(byte));
                }
                ptr += 1;
            } else {
                assert(buf@.take(ptr as int) =~= before.take(ptr as int));
            }
            i += 1;
        }
        assert(old(buf)@.take(size as int) =~= old(buf)@);
        ptr
    }
}

/// One element of a well-formed Telnet byte stream.
pub enum TelnetChunk {
    /// Application data.
    Data(Seq<u8>),
    /// `IAC` and a command byte that takes no argument.
    Command(u8),
    /// `IAC`, then WILL, WONT, DO or DONT, then the option code.
    Negotiation(u8, u8),
    /// `IAC SB`, the payload, `IAC SE`.
    Subnegotiation(Seq<u8>),
}

/// No byte of `bytes` is `IAC`.
pub open spec fn iac_free(bytes: Seq<u8>) -> bool {
    forall|i: int| 0 <= i < bytes.len() ==> bytes[i] != IAC
}

/// Whether `chunk` is well-formed: data and payloads hold no `IAC`, a
/// command byte is none of those that announce more, and an option code is
/// not `IAC`.
pub open spec fn chunk_valid(chunk: TelnetChunk) -> bool {
    match chunk {
        TelnetChunk::Data(data) => iac_free(data),
        TelnetChunk::Command(command) => command < SB,
        TelnetChunk::Negotiation(verb, option) => WILL <= verb <= DONT && option != IAC,
        TelnetChunk::Subnegotiation(payload) => iac_free(payload),
    }
}

/// The bytes that `chunk` puts on the wire.
pub open spec fn chunk_bytes(chunk: TelnetChunk) -> Seq<u8> {
    match chunk {
        TelnetChunk::Data(data) => data,
        TelnetChunk::Command(command) => seq![IAC, command],
        TelnetChunk::Negotiation(verb, option) => seq![IAC, verb, option],
        TelnetChunk::Subnegotiation(payload) => seq![IAC, SB] + payload + seq![IAC, SE],
    }
}

/// The application data that `chunk` carries.
pub open spec fn chunk_data(chunk: TelnetChunk) -> Seq<u8> {
    match chunk {
        TelnetChunk::Data(data) => data,
        _ => Seq::empty(),
    }
}

/// The bytes of a whole stream of chunks.
pub open spec fn stream_bytes(chunks: Seq<TelnetChunk>) -> Seq<u8>
    decreases chunks.len(),
{
    if chunks.len() == 0 {
        Seq::empty()
    } else {
        stream_bytes(chunks.drop_last()) + chunk_bytes(chunks.last())
    }
}

/// The application data of a whole stream of chunks.
pub open spec fn stream_data(chunks: Seq<TelnetChunk>) -> Seq<u8>
    decreases chunks.len(),
{
    if chunks.len() == 0 {
        Seq::empty()
    } else {
        stream_data(chunks.drop_last()) + chunk_data(chunks.last())
    }
}

/// Filtering does not depend on how the stream is cut into reads: filtering
/// `first + second` at once gives what filtering `first` and then `second`
/// gives.
pub proof fn lemma_filter_split(state: ParseState, first: Seq<u8>, second: Seq<u8>)
    ensures
        state_after(state, first + second) == state_after(state_after(state, first), second),
        plain_bytes(state, first + second) == plain_bytes(state, first) + plain_bytes(
            state_after(state, first),
            second,
        ),
    decreases second.len(),
{
    if second.len() == 0 {
        assert(first + second =~= first);
        assert(plain_bytes(state, first) + Seq::<u8>::empty() =~= plain_bytes(state, first));
    } else {
        assert((first + second).drop_last() =~= first + second.drop_last());
        lemma_filter_split(state, first, second.drop_last());
        let head = plain_bytes(state, first);
        let tail = plain_bytes(state_after(state, first), second.drop_last());
        assert((head + tail).push(second.last()) =~= head + tail.push(second.last()));
    }
}

/// Outside a protocol sequence, bytes other than `IAC` all pass, and the
/// filter stays outside.
proof fn lemma_data_passes(data: Seq<u8>)
    requires
        iac_free(data),
    ensures
        state_after(ParseState::Plain, data) == ParseState::Plain,
        plain_bytes(ParseState::Plain, data) == data,
    decreases data.len(),
{
    if data.len() > 0 {
        lemma_data_passes(data.drop_last());
        assert(data.drop_last().push(data.last()) =~= data);
    } else {
        assert(data =~= Seq::<u8>::empty());
    }
}

/// Inside a subnegotiation, bytes other than `IAC` are all dropped, and the
/// filter stays inside.
proof fn lemma_payload_dropped(payload: Seq<u8>)
    requires
        iac_free(payload),
    ensures
        state_after(ParseState::WaitSubnegotiation, payload) == ParseState::WaitSubnegotiation,
        plain_bytes(ParseState::WaitSubnegotiation, payload) == Seq::<u8>::empty(),
    decreases payload.len(),
{
    if payload.len() > 0 {
        lemma_payload_dropped(payload.drop_last());
    }
}

/// What the filter does with two bytes.
proof fn lemma_filter_pair(state: ParseState, a: u8, b: u8)
    ensures
        state_after(state, seq![a, b]) == next_state(next_state(state, a), b),
        !passes(state, a) && !passes(next_state(state, a), b) ==> plain_bytes(state, seq![a, b])
            == Seq::<u8>::empty(),
{
    let pair = seq![a, b];
    assert(pair.drop_last() =~= seq![a]);
    assert(seq![a].drop_last() =~= Seq::<u8>::empty());
    assert(state_after(state, Seq::<u8>::empty()) == state);
    assert(state_after(state, seq![a]) == next_state(state, a));
    assert(plain_bytes(state, Seq::<u8>::empty()) == Seq::<u8>::empty());
    assert(seq![a].last() == a);
    assert(pair.last() == b);
    assert(!passes(state, a) ==> plain_bytes(state, seq![a]) == Seq::<u8>::empty());
}

/// A well-formed chunk, met outside a protocol sequence, yields its data and
/// leaves the filter outside again.
proof fn lemma_chunk_filtered(chunk: TelnetChunk)
    requires
        chunk_valid(chunk),
    ensures
        state_after(ParseState::Plain, chunk_bytes(chunk)) == ParseState::Plain,
        plain_bytes(ParseState::Plain, chunk_bytes(chunk)) == chunk_data(chunk),
{
    let plain = ParseState::Plain;
    match chunk {
        TelnetChunk::Data(data) => {
            lemma_data_passes(data);
        },
        TelnetChunk::Command(command) => {
            lemma_filter_pair(plain, IAC, command);
        },
        TelnetChunk::Negotiation(verb, option) => {
            lemma_filter_pair(plain, IAC, verb);
            lemma_filter_split(plain, seq![IAC, verb], seq![option]);
            assert(seq![IAC, verb] + seq![option] =~= seq![IAC, verb, option]);
            assert(seq![option].drop_last() =~= Seq::<u8>::empty());
            assert(state_after(ParseState::WaitOption, Seq::<u8>::empty())
                == ParseState::WaitOption);
            assert(plain_bytes(ParseState::WaitOption, Seq::<u8>::empty()) == Seq::<u8>::empty());
            assert(plain_bytes(plain, seq![IAC, verb, option]) =~= Seq::<u8>::empty());
        },
        TelnetChunk::Subnegotiation(payload) => {
            let inside = ParseState::WaitSubnegotiation;
            lemma_filter_pair(plain, IAC, SB);
            lemma_payload_dropped(payload);
            lemma_filter_pair(inside, IAC, SE);
            lemma_filter_split(plain, seq![IAC, SB], payload);
            lemma_filter_split(plain, seq![IAC, SB] + payload, seq![IAC, SE]);
            assert(plain_bytes(plain, chunk_bytes(chunk)) =~= Seq::<u8>::empty());
        },
    }
}

/// The filter undoes the framing. Of a stream that is made of well-formed
/// chunks and starts outside a protocol sequence, exactly the application
/// data comes through, in the order in which it came, and the filter ends outside a
/// protocol sequence.
pub proof fn lemma_filter_strips_protocol(chunks: Seq<TelnetChunk>)
    requires
        forall|i: int| 0 <= i < chunks.len() ==> chunk_valid(#[trigger] chunks[i]),
    ensures
        plain_bytes(ParseState::Plain, stream_bytes(chunks)) == stream_data(chunks),
        state_after(ParseState::Plain, stream_bytes(chunks)) == ParseState::Plain,
    decreases chunks.len(),
{
    if chunks.len() > 0 {
        lemma_filter_strips_protocol(chunks.drop_last());
        lemma_chunk_filtered(chunks.last());
        lemma_filter_split(
            ParseState::Plain,
            stream_bytes(chunks.drop_last()),
            chunk_bytes(chunks.last()),
        );
    }
}

} // verus!
