//! The decoder of key and mouse events: from the bytes that a terminal
//! sends to arrows, control keys, characters and mouse reports.

use vstd::prelude::*;

verus! {

/// The mouse buttons that are reported.
#[derive(Clone, Copy, Debug, PartialEq, Eq, Structural)]
pub enum MouseButton {
    Left,
    Right,
}

/// One key press or mouse event.
#[derive(Clone, Copy, Debug, PartialEq, Eq, Structural)]
pub enum Key {
    ArrowUp,
    ArrowDown,
    ArrowRight,
    ArrowLeft,
    Delete,
    Escape,
    Return,
    Tab,
    /// Ctrl and a letter; holds the letter.
    Control(char),
    /// A printable character, space included.
    Character(char),
    /// Button, column, row: the numbers as the terminal reported them.
    MouseDown(MouseButton, usize, usize),
    /// Button, column, row: the numbers as the terminal reported them.
    MouseUp(MouseButton, usize, usize),
}

/// Asks the terminal to report mouse events in the extended encoding.
pub const ENABLE_MOUSE: &'static str = "\x1b[?1000h\x1b[?1002h\x1b[?1015h\x1b[?1006h";

/// Takes back what `ENABLE_MOUSE` asked for.
pub const DISABLE_MOUSE: &'static str = "\x1b[?1006l\x1b[?1015l\x1b[?1002l\x1b[?1000l";

/// How many bytes the lookahead buffer holds.
pub const BUF_LEN: usize = 16;

/// The escape byte.
pub const ESC: u8 = 27;

/// The byte of the tab key.
pub const TAB: u8 = 9;

/// The byte of the return key.
pub const RETURN: u8 = 13;

/// The byte of the delete key.
pub const DELETE: u8 = 127;

/// `[`, which follows `ESC` in the sequences that are decoded.
pub const BRACKET: u8 = 91;

/// `<`, which opens a mouse report.
pub const LESS: u8 = 60;

/// `;`, which separates the parameters of a mouse report.
pub const SEPARATOR: u8 = 59;

/// `0`, the first of the decimal digits.
pub const ZERO: u8 = 48;

/// `9`, the last of the decimal digits.
pub const NINE: u8 = 57;

/// `M`, which ends the report of a button that went down.
pub const PRESS: u8 = 77;

/// `m`, which ends the report of a button that went up.
pub const RELEASE: u8 = 109;

/// `A`, the letter of the arrow up; `B`, `C` and `D` follow for down, right
/// and left.
pub const UP: u8 = 65;

/// `B`, the letter of the arrow down.
pub const DOWN: u8 = 66;

/// `C`, the letter of the arrow right.
pub const RIGHT: u8 = 67;

/// `D`, the letter of the arrow left.
pub const LEFT: u8 = 68;

/// Whether `byte` is printable ASCII, space included.
pub open spec fn is_printable(byte: u8) -> bool {
    32 <= byte <= 126
}

/// How many bytes follow a UTF-8 lead byte; 0 for any other byte.
pub open spec fn utf8_skip(byte: u8) -> nat {
    if 0xC0 <= byte <= 0xDF {
        1
    } else if 0xE0 <= byte <= 0xEF {
        2
    } else if 0xF0 <= byte <= 0xF7 {
        3
    } else {
        0
    }
}

/// Whether `byte` lies between `low` and `high` or is `other`.
pub open spec fn admits(low: u8, high: u8, other: u8, byte: u8) -> bool {
    (low <= byte <= high) || byte == other
}

/// Whether `byte` may stand among the parameters of a mouse report: a
/// decimal digit or the separator `;`.
pub open spec fn is_param_byte(byte: u8) -> bool {
    admits(ZERO, NINE, SEPARATOR, byte)
}

/// The number that a run of decimal digits writes; leading zeros count for
/// nothing.
pub open spec fn decimal_value(digits: Seq<u8>) -> nat
    decreases digits.len(),
{
    if digits.len() == 0 {
        0
    } else {
        (10 * decimal_value(digits.drop_last()) + (digits.last() - ZERO)) as nat
    }
}

/// The parameter that one segment between separators gives: its value
/// where it has a digit and the value fits, and none otherwise.
pub open spec fn segment_param(segment: Seq<u8>) -> Option<usize> {
    if segment.len() > 0 && decimal_value(segment) <= usize::MAX {
        Some(decimal_value(segment) as usize)
    } else {
        None
    }
}

/// The segment that is still open at the end of `run`, a run of digits and
/// separators: the digits behind its last `;`, or all of it where it has
/// none.
pub open spec fn open_segment(run: Seq<u8>) -> Seq<u8>
    decreases run.len(),
{
    if run.len() == 0 || run.last() == SEPARATOR {
        Seq::empty()
    } else {
        open_segment(run.drop_last()).push(run.last())
    }
}

/// What the segments of `run` that a `;` closes give, in order.
pub open spec fn closed_params(run: Seq<u8>) -> Seq<Option<usize>>
    decreases run.len(),
{
    if run.len() == 0 {
        Seq::empty()
    } else if run.last() == SEPARATOR {
        closed_params(run.drop_last()).push(segment_param(open_segment(run.drop_last())))
    } else {
        closed_params(run.drop_last())
    }
}

/// What the segments of a run of digits and separators give: the run is cut
/// at each `;`, and each segment, the last one too, gives its parameter or
/// none.
pub open spec fn params_of(run: Seq<u8>) -> Seq<Option<usize>> {
    closed_params(run).push(segment_param(open_segment(run)))
}

/// The length of the longest prefix of `bytes` made of parameter bytes.
pub open spec fn param_run_len(bytes: Seq<u8>) -> nat
    decreases bytes.len(),
{
    if bytes.len() == 0 || !is_param_byte(bytes[0]) {
        0
    } else {
        1 + param_run_len(bytes.skip(1))
    }
}

/// What a mouse report decodes to; `report` holds the buffered bytes that
/// follow `ESC [ <`. A report is three parameters, each a run of digits
/// whose value fits, with a `;` between them, and `M` for a press or `m`
/// for a release behind them. The parameters are button code, column and
/// row; button code 0 is the left button and 2 the right one. Anything else
/// is no event.
pub open spec fn decode_mouse(report: Seq<u8>) -> Option<Key> {
    let n = param_run_len(report) as int;
    let params = params_of(report.take(n));
    if params.len() != 3 || params[0] is None || params[1] is None || params[2] is None || n
        >= report.len() || (params[0]->0 != 0 && params[0]->0 != 2) {
        None
    } else {
        let button = if params[0]->0 == 0 {
            MouseButton::Left
        } else {
            MouseButton::Right
        };
        if report[n] == PRESS {
            Some(Key::MouseDown(button, params[1]->0, params[2]->0))
        } else if report[n] == RELEASE {
            Some(Key::MouseUp(button, params[1]->0, params[2]->0))
        } else {
            None
        }
    }
}

/// What an escape sequence decodes to; `rest` holds the buffered bytes that
/// follow `ESC`. A lone `ESC` is the escape key; `ESC [` and a letter from
/// `A` to `D` is an arrow key; `ESC [ <` opens a mouse report. Anything else
/// is no event.
pub open spec fn decode_escape(rest: Seq<u8>) -> Option<Key> {
    if rest.len() == 0 {
        Some(Key::Escape)
    } else if rest[0] != BRACKET || rest.len() < 2 {
        None
    } else if rest[1] == UP {
        Some(Key::ArrowUp)
    } else if rest[1] == DOWN {
        Some(Key::ArrowDown)
    } else if rest[1] == RIGHT {
        Some(Key::ArrowRight)
    } else if rest[1] == LEFT {
        Some(Key::ArrowLeft)
    } else if rest[1] == LESS {
        decode_mouse(rest.skip(2))
    } else {
        None
    }
}

/// The event that the first byte of `pending` gives, alone or as the start
/// of an escape sequence; `None` where it gives none.
pub open spec fn key_of_first(pending: Seq<u8>) -> Option<Key>
    recommends
        pending.len() > 0,
{
    let byte = pending[0];
    if byte == TAB {
        Some(Key::Tab)
    } else if byte == RETURN {
        Some(Key::Return)
    } else if byte == ESC {
        decode_escape(pending.skip(1))
    } else if byte == DELETE {
        Some(Key::Delete)
    } else if 1 <= byte <= 31 {
        Some(Key::Control((byte + 64) as char))
    } else if is_printable(byte) {
        Some(Key::Character(byte as char))
    } else {
        None
    }
}

/// How many of the bytes behind `ESC` an escape sequence that gives an
/// event is made of: none for a lone `ESC`, two for an arrow, and for a
/// mouse report the two that open it, its parameters and the byte that ends
/// it.
pub open spec fn escape_len(rest: Seq<u8>) -> nat {
    if rest.len() == 0 {
        0
    } else if rest.len() >= 2 && rest[1] == LESS {
        2 + param_run_len(rest.skip(2)) + 1
    } else {
        2
    }
}

/// What stays buffered behind an escape sequence; `rest` holds the buffered
/// bytes that follow `ESC`. Behind a sequence that gives an event, what
/// follows it stays; a sequence that gives none takes the whole buffer
/// with it.
pub open spec fn escape_rest(rest: Seq<u8>) -> Seq<u8> {
    if decode_escape(rest) is Some {
        rest.skip(escape_len(rest) as int)
    } else {
        Seq::empty()
    }
}

/// Whether `byte` is a UTF-8 continuation byte.
pub open spec fn is_continuation(byte: u8) -> bool {
    admits(0x80, 0xBF, 0x80, byte)
}

/// How many bytes at the start of `bytes` are passed over behind a UTF-8
/// lead byte that announces `limit` of them: the continuation bytes that
/// stand there, and no more than `limit`.
pub open spec fn continuation_run(bytes: Seq<u8>, limit: nat) -> nat
    decreases limit,
{
    if limit == 0 || bytes.len() == 0 || !is_continuation(bytes[0]) {
        0
    } else {
        1 + continuation_run(bytes.skip(1), (limit - 1) as nat)
    }
}

/// What stays buffered once the first byte of `pending` has been decoded,
/// with what belongs to it: an escape sequence, or the continuation bytes
/// behind a UTF-8 lead byte.
pub open spec fn rest_after_first(pending: Seq<u8>) -> Seq<u8>
    recommends
        pending.len() > 0,
{
    let rest = pending.skip(1);
    if pending[0] == ESC {
        escape_rest(rest)
    } else {
        rest.skip(continuation_run(rest, utf8_skip(pending[0])) as int)
    }
}

/// A run of parameter bytes is no longer than the bytes it is a prefix of.
pub proof fn lemma_param_run_bound(bytes: Seq<u8>)
    ensures
        param_run_len(bytes) <= bytes.len(),
    decreases bytes.len(),
{
    if bytes.len() > 0 && is_param_byte(bytes[0]) {
        lemma_param_run_bound(bytes.skip(1));
    }
}

/// The bytes that are passed over behind a lead byte are there, are no more
/// than the lead byte announces, and are continuation bytes.
pub proof fn lemma_continuation_run_bound(bytes: Seq<u8>, limit: nat)
    ensures
        continuation_run(bytes, limit) <= bytes.len(),
        continuation_run(bytes, limit) <= limit,
        forall|i: int|
            0 <= i < continuation_run(bytes, limit) ==> is_continuation(#[trigger] bytes[i]),
    decreases limit,
{
    if limit > 0 && bytes.len() > 0 && is_continuation(bytes[0]) {
        let rest = bytes.skip(1);
        lemma_continuation_run_bound(rest, (limit - 1) as nat);
        assert forall|i: int| 0 <= i < continuation_run(bytes, limit) implies is_continuation(
            #[trigger] bytes[i],
        ) by {
            if i > 0 {
                assert(bytes[i] == rest[i - 1]);
            }
        }
    }
}

/// Decoding the first byte of a buffer leaves less buffered than before.
pub proof fn lemma_rest_shorter(pending: Seq<u8>)
    requires
        pending.len() > 0,
    ensures
        rest_after_first(pending).len() < pending.len(),
{
    let rest = pending.skip(1);
    if pending[0] == ESC {
        if decode_escape(rest) is Some && rest.len() >= 2 && rest[1] == LESS {
            lemma_param_run_bound(rest.skip(2));
        }
    } else {
        lemma_continuation_run_bound(rest, utf8_skip(pending[0]));
    }
}

/// The first event that `pending` holds, if it holds one: bytes that give no
/// event are passed over.
pub open spec fn first_key(pending: Seq<u8>) -> Option<Key>
    decreases pending.len(),
{
    if pending.len() == 0 {
        None
    } else if key_of_first(pending) is Some {
        key_of_first(pending)
    } else {
        proof {
            lemma_rest_shorter(pending);
        }
        first_key(rest_after_first(pending))
    }
}

/// What stays buffered behind the first event of `pending`; nothing where
/// `pending` holds no event.
pub open spec fn after_first_key(pending: Seq<u8>) -> Seq<u8>
    decreases pending.len(),
{
    if pending.len() == 0 {
        Seq::empty()
    } else if key_of_first(pending) is Some {
        rest_after_first(pending)
    } else {
        proof {
            lemma_rest_shorter(pending);
        }
        after_first_key(rest_after_first(pending))
    }
}

/// All the events that `pending` holds, in order: what successive calls of
/// `get_key` return from one buffer.
pub open spec fn keys_of(pending: Seq<u8>) -> Seq<Key>
    decreases pending.len(),
{
    if pending.len() == 0 {
        Seq::empty()
    } else {
        proof {
            lemma_rest_shorter(pending);
        }
        let later = keys_of(rest_after_first(pending));
        match key_of_first(pending) {
            Some(key) => seq![key] + later,
            None => later,
        }
    }
}

/// Whether `byte` is an ASCII control byte; `ESC` is one.
pub open spec fn is_control(byte: u8) -> bool {
    byte < 32 || byte == DELETE
}

/// The printable ASCII bytes of `bytes` as character events, in order.
pub open spec fn characters_of(bytes: Seq<u8>) -> Seq<Key>
    decreases bytes.len(),
{
    if bytes.len() == 0 {
        Seq::empty()
    } else if is_printable(bytes[0]) {
        seq![Key::Character(bytes[0] as char)] + characters_of(bytes.skip(1))
    } else {
        characters_of(bytes.skip(1))
    }
}

/// The events of a buffer are its first event and the events of what stays
/// behind it.
pub proof fn lemma_keys_by_first_key(pending: Seq<u8>)
    ensures
        keys_of(pending) == match first_key(pending) {
            Some(key) => seq![key] + keys_of(after_first_key(pending)),
            None => Seq::empty(),
        },
    decreases pending.len(),
{
    if pending.len() > 0 && key_of_first(pending) is None {
        lemma_rest_shorter(pending);
        lemma_keys_by_first_key(rest_after_first(pending));
    }
}

/// Bytes that are not printable give no character event.
proof fn lemma_characters_skip(bytes: Seq<u8>, n: int)
    requires
        0 <= n <= bytes.len(),
        forall|i: int| 0 <= i < n ==> !is_printable(#[trigger] bytes[i]),
    ensures
        characters_of(bytes) == characters_of(bytes.skip(n)),
    decreases n,
{
    if n == 0 {
        assert(bytes.skip(0) =~= bytes);
    } else {
        let rest = bytes.skip(1);
        assert forall|i: int| 0 <= i < n - 1 implies !is_printable(#[trigger] rest[i]) by {
            assert(rest[i] == bytes[i + 1]);
        }
        lemma_characters_skip(rest, n - 1);
        assert(rest.skip(n - 1) =~= bytes.skip(n));
    }
}

/// Printable bytes decode one for one. Of a buffer that holds neither `ESC`
/// nor another control byte, every printable ASCII byte gives exactly one
/// character event with that byte's value, in order, and nothing else gives
/// an event.
pub proof fn lemma_printable_bytes_decode_in_order(bytes: Seq<u8>)
    requires
        forall|i: int| 0 <= i < bytes.len() ==> !is_control(#[trigger] bytes[i]),
    ensures
        keys_of(bytes) == characters_of(bytes),
    decreases bytes.len(),
{
    if bytes.len() > 0 {
        let rest = bytes.skip(1);
        let along = continuation_run(rest, utf8_skip(bytes[0])) as int;
        let later = rest.skip(along);
        lemma_continuation_run_bound(rest, utf8_skip(bytes[0]));
        assert(!is_control(bytes[0]));
        assert(rest_after_first(bytes) == later);
        assert forall|i: int| 0 <= i < later.len() implies !is_control(#[trigger] later[i]) by {
            assert(later[i] == bytes[i + 1 + along]);
        }
        lemma_printable_bytes_decode_in_order(later);
        lemma_characters_skip(rest, along);
    }
}

/// Of a buffer of printable ASCII bytes alone, every byte gives exactly one
/// character event with its value, in order.
pub proof fn lemma_printable_only(bytes: Seq<u8>)
    requires
        forall|i: int| 0 <= i < bytes.len() ==> is_printable(#[trigger] bytes[i]),
    ensures
        keys_of(bytes).len() == bytes.len(),
        forall|i: int|
            0 <= i < bytes.len() ==> #[trigger] keys_of(bytes)[i] == Key::Character(
                bytes[i] as char,
            ),
    decreases bytes.len(),
{
    if bytes.len() > 0 {
        let rest = bytes.skip(1);
        assert(rest.skip(0) =~= rest);
        assert(rest_after_first(bytes) == rest);
        assert forall|i: int| 0 <= i < rest.len() implies is_printable(#[trigger] rest[i]) by {
            assert(rest[i] == bytes[i + 1]);
        }
        lemma_printable_only(rest);
        assert forall|i: int| 0 <= i < bytes.len() implies #[trigger] keys_of(bytes)[i]
            == Key::Character(bytes[i] as char) by {
            if i > 0 {
                assert(keys_of(bytes)[i] == keys_of(rest)[i - 1]);
                assert(rest[i - 1] == bytes[i]);
            }
        }
    }
}

/// The decoder of key and mouse events, with its lookahead buffer. Its view
/// is the bytes that are buffered and not yet decoded.
pub struct KeyInput {
    buf: [u8; 16],
    buf_position: usize,
    buf_size: usize,
}

impl View for KeyInput {
    type V = Seq<u8>;

    closed spec fn view(&self) -> Seq<u8> {
        if self.buf_position < self.buf_size <= BUF_LEN {
            self.buf@.subrange(self.buf_position as int, self.buf_size as int)
        } else {
            Seq::empty()
        }
    }
}

impl KeyInput {
    #[verifier::type_invariant]
    spec fn well_formed(&self) -> bool {
        self.buf_size <= BUF_LEN && self.buf_position <= BUF_LEN
    }

    /// A decoder with nothing buffered.
    pub fn new() -> (input: Self)
        ensures
            input@ == Seq::<u8>::empty(),
    {
        KeyInput { buf: [0;16], buf_position: 0, buf_size: 0 }
    }

    /// Whether nothing is buffered, so that the next bytes have to be read.
    pub fn is_exhausted(&self) -> (exhausted: bool)
        ensures
            exhausted == (self@.len() == 0),
    {
        proof {
            use_type_invariant(self);
        }
        self.buf_position >= self.buf_size
    }

    /// Hands the decoder what one read of the source yielded. The buffer
    /// takes the first `BUF_LEN` bytes of it in place of what it held, and
    /// their number is returned.
    pub fn fill_buf(&mut self, bytes: &[u8]) -> (taken: usize)
        ensures
            taken == if bytes@.len() <= BUF_LEN {
                bytes@.len()
            } else {
                BUF_LEN as nat
            },
            final(self)@ == bytes@.take(taken as int),
    {
        proof {
            use_type_invariant(&*self);
        }
        let taken = if bytes.len() <= BUF_LEN {
            bytes.len()
        } else {
            BUF_LEN
        };
        let mut i: usize = 0;
        while i < taken
            invariant
                self.well_formed(),
                i <= taken <= BUF_LEN,
                taken <= bytes@.len(),
                forall|k: int| 0 <= k < i ==> self.buf@[k] == bytes@[k],
            decreases taken - i,
        {
            self.buf[i] = bytes[i];
            i += 1;
        }
        self.buf_size = taken;
        self.buf_position = 0;
        assert(self@ =~= bytes@.take(taken as int));
        taken
    }

    /// Takes the next buffered byte, if there is one.
    fn next_char_in_buf(&mut self) -> (next: Option<u8>)
        ensures
            old(self)@.len() == 0 ==> next is None && final(self)@ == old(self)@,
            old(self)@.len() > 0 ==> next == Some(old(self)@[0]) && final(self)@ == old(self)@.skip(
                1,
            ),
    {
        proof {
            use_type_invariant(&*self);
        }
        if self.buf_size > self.buf_position {
            self.buf_position += 1;
            assert(self@ =~= old(self)@.skip(1));
            Some(self.buf[self.buf_position - 1])
        } else {
            None
        }
    }

    /// Takes the next buffered byte if it lies between `low` and `high`
    /// or is `other`.
    fn next_char_in_buf_if(&mut self, low: u8, high: u8, other: u8) -> (next: Option<u8>)
        ensures
            match next {
                Some(byte) => old(self)@.len() > 0 && byte == old(self)@[0] && admits(
                    low,
                    high,
                    other,
                    byte,
                ) && final(self)@ == old(self)@.skip(1),
                None => final(self)@ == old(self)@ && (old(self)@.len() > 0 ==> !admits(
                    low,
                    high,
                    other,
                    old(self)@[0],
                )),
            },
    {
        proof {
            use_type_invariant(&*self);
        }
        if self.buf_size > self.buf_position {
            let head = self.buf[self.buf_position];
            if (low <= head && head <= high) || head == other {
                self.buf_position += 1;
                assert(self@ =~= old(self)@.skip(1));
                Some(head)
            } else {
                None
            }
        } else {
            None
        }
    }

    /// Decodes buffered bytes until one gives an event, and returns it.
    /// Returns `None` once the buffer is used up without one: the next
    /// bytes have to be read and handed over with `fill_buf`.
    pub fn get_key(&mut self) -> (key: Option<Key>)
        ensures
            key == first_key(old(self)@),
            final(self)@ == after_first_key(old(self)@),
    {
        loop
            invariant
                first_key(self@) == first_key(old(self)@),
                after_first_key(self@) == after_first_key(old(self)@),
            decreases self@.len(),
        {
            if self.is_exhausted() {
                return None;
            }
            proof {
                lemma_rest_shorter(self@);
            }
            if let Some(key) = process_input(self) {
                return Some(key);
            }
        }
    }

    /// Drops what is buffered.
    fn flush_buf(&mut self)
        ensures
            final(self)@ == Seq::<u8>::empty(),
    {
        proof {
            use_type_invariant(&*self);
        }
        self.buf_size = 0;
    }

    /// Passes over the continuation bytes that stand next in the buffer,
    /// `steps` of them at most.
    fn skip(&mut self, steps: usize)
        ensures
            final(self)@ == old(self)@.skip(continuation_run(old(self)@, steps as nat) as int),
        decreases steps,
    {
        if steps > 0 {
            match self.next_char_in_buf_if(0x80, 0xBF, 0x80) {
                Some(_) => {
                    let ghost behind = self@;
                    self.skip(steps - 1);
                    proof {
                        lemma_continuation_run_bound(behind, (steps - 1) as nat);
                        assert(old(self)@.skip(1).skip(
                            continuation_run(behind, (steps - 1) as nat) as int,
                        ) =~= old(self)@.skip(continuation_run(old(self)@, steps as nat) as int));
                    }
                },
                None => {
                    assert(old(self)@.skip(0) =~= old(self)@);
                },
            }
        } else {
            assert(old(self)@.skip(0) =~= old(self)@);
        }
    }
}

/// Decodes what follows `ESC [ <` in the buffer. Where that is a mouse
/// report, what follows the report stays buffered.
fn process_mouse(input: &mut KeyInput) -> (key: Option<Key>)
    ensures
        key == decode_mouse(old(input)@),
        key is Some ==> final(input)@ == old(input)@.skip(param_run_len(old(input)@) as int + 1),
{
    let ghost report = input@;
    let ghost mut consumed: int = 0;
    let mut params: Vec<Option<usize>> = Vec::new();
    let mut value: Option<usize> = Some(0);
    let mut digits: bool = false;
    assert(report.skip(0) =~= report);
    assert(report.take(0) =~= Seq::<u8>::empty());
    loop
        invariant
            0 <= consumed <= report.len(),
            input@ == report.skip(consumed),
            param_run_len(report) == consumed + param_run_len(report.skip(consumed)),
            params@ == closed_params(report.take(consumed)),
            digits == (open_segment(report.take(consumed)).len() > 0),
            value == if decimal_value(open_segment(report.take(consumed))) <= usize::MAX {
                Some(decimal_value(open_segment(report.take(consumed))) as usize)
            } else {
                None
            },
        ensures
            consumed == param_run_len(report),
            0 <= consumed <= report.len(),
            input@ == report.skip(consumed),
            params@ == closed_params(report.take(consumed)),
            digits == (open_segment(report.take(consumed)).len() > 0),
            value == if decimal_value(open_segment(report.take(consumed))) <= usize::MAX {
                Some(decimal_value(open_segment(report.take(consumed))) as usize)
            } else {
                None
            },
        decreases report.len() - consumed,
    {
        let byte = match input.next_char_in_buf_if(ZERO, NINE, SEPARATOR) {
            Some(byte) => byte,
            None => {
                break ;
            },
        };
        proof {
            let before = report.take(consumed);
            assert(report.skip(consumed).skip(1) =~= report.skip(consumed + 1));
            assert(report.take(consumed + 1) =~= before.push(byte));
            assert(before.push(byte).drop_last() =~= before);
            let segment = open_segment(before);
            assert(segment.push(byte).drop_last() =~= segment);
            assert(byte != SEPARATOR ==> decimal_value(segment.push(byte)) == 10 * decimal_value(
                segment,
            ) + (byte - ZERO));
        }
        if byte == SEPARATOR {
            params.push(
                if digits {
                    value
                } else {
                    None
                },
            );
            value = Some(0);
            digits = false;
        } else {
            let digit: usize = (byte - ZERO) as usize;
            value = match value {
                Some(v) => match v.checked_mul(10) {
                    Some(tens) => tens.checked_add(digit),
                    None => None,
                },
                None => None,
            };
            digits = true;
        }
        proof {
            consumed = consumed + 1;
        }
    }
    params.push(if digits {
        value
    } else {
        None
    });
    assert(params@ == params_of(report.take(consumed)));
    if params.len() != 3 {
        return None;
    }
    let (code, column, row) = match (params[0], params[1], params[2]) {
        (Some(code), Some(column), Some(row)) => (code, column, row),
        _ => {
            return None;
        },
    };
    let button = if code == 0 {
        MouseButton::Left
    } else if code == 2 {
        MouseButton::Right
    } else {
        return None;
    };
    let end = input.next_char_in_buf();
    proof {
        if consumed < report.len() {
            assert(report.skip(consumed).skip(1) =~= report.skip(consumed + 1));
        }
    }
    match end {
        Some(PRESS) => Some(Key::MouseDown(button, column, row)),
        Some(RELEASE) => Some(Key::MouseUp(button, column, row)),
        _ => None,
    }
}

/// Decodes what follows an `ESC` in the buffer. Behind a sequence that
/// gives an event, what follows it stays buffered; a sequence that gives
/// none takes the whole buffer with it.
pub fn process_escape(input: &mut KeyInput) -> (key: Option<Key>)
    ensures
        key == decode_escape(old(input)@),
        final(input)@ == escape_rest(old(input)@),
{
    let key = match input.next_char_in_buf() {
        None => {
            assert(old(input)@.skip(0) =~= old(input)@);
            Some(Key::Escape)
        },
        Some(BRACKET) => match input.next_char_in_buf() {
            None => None,
            Some(code) => {
                assert(input@ =~= old(input)@.skip(2));
                if code == LESS {
                    let key = process_mouse(input);
                    proof {
                        let report = old(input)@.skip(2);
                        if key is Some {
                            assert(report.skip(param_run_len(report) as int + 1) =~= old(
                                input,
                            )@.skip(2 + param_run_len(report) as int + 1));
                        }
                    }
                    key
                } else if code == UP {
                    Some(Key::ArrowUp)
                } else if code == DOWN {
                    Some(Key::ArrowDown)
                } else if code == RIGHT {
                    Some(Key::ArrowRight)
                } else if code == LEFT {
                    Some(Key::ArrowLeft)
                } else {
                    None
                }
            },
        },
        Some(_) => None,
    };
    if key.is_none() {
        input.flush_buf();
    }
    key
}

/// Decodes the next buffered byte, with what belongs to it. Returns the
/// event, or `None` where the byte gives none or nothing is buffered.
pub fn process_input(input: &mut KeyInput) -> (key: Option<Key>)
    ensures
        old(input)@.len() == 0 ==> key is None && final(input)@ == old(input)@,
        old(input)@.len() > 0 ==> key == key_of_first(old(input)@) && final(input)@
            == rest_after_first(old(input)@),
{
    let byte = match input.next_char_in_buf() {
        Some(byte) => byte,
        None => {
            return None;
        },
    };
    if byte == ESC {
        return process_escape(input);
    }
    assert(input@.skip(0) =~= input@);
    if byte == TAB {
        Some(Key::Tab)
    } else if byte == RETURN {
        Some(Key::Return)
    } else if byte == DELETE {
        Some(Key::Delete)
    } else if 1 <= byte && byte <= 31 {
        Some(Key::Control((byte + 64) as char))
    } else if 32 <= byte && byte <= 126 {
        Some(Key::Character(byte as char))
    } else {
        if 0xC0 <= byte && byte <= 0xDF {
            input.skip(1);
        } else if 0xE0 <= byte && byte <= 0xEF {
            input.skip(2);
        } else if 0xF0 <= byte && byte <= 0xF7 {
            input.skip(3);
        }
        None
    }
}

} // verus!
