//! The screen: the content that an application asks for, and the renderer
//! that writes no more than what differs from what the terminal shows.

use vstd::prelude::*;
use vstd::string::*;

verus! {

/// The two colour codes that a cell is drawn in, as the terminal takes
/// them: foreground and background.
#[derive(Clone, Copy, Debug, PartialEq, Eq, Structural)]
pub struct ColorPair {
    pub fg: usize,
    pub bg: usize,
}

/// One cell of the screen: a character and, where it has one, the pair of
/// colour codes that it is drawn in. A cell without colours is drawn with
/// the terminal's default attributes. Two cells are equal when character
/// and colours are.
#[derive(Clone, Copy, Debug, PartialEq, Eq, Structural)]
pub struct Character {
    pub character: char,
    pub color: Option<ColorPair>,
}

/// The cell that shows `character` in the colours `color`, foreground
/// first.
pub open spec fn cell_of(character: char, color: Option<(usize, usize)>) -> Character {
    Character {
        character,
        color: match color {
            Some((fg, bg)) => Some(ColorPair { fg, bg }),
            None => None,
        },
    }
}

impl Character {
    /// The cell that shows `character` in the colours `color`, foreground
    /// first.
    pub fn new(character: char, color: Option<(usize, usize)>) -> (cell: Self)
        ensures
            cell == cell_of(character, color),
    {
        Character {
            character,
            color: match color {
                Some((fg, bg)) => Some(ColorPair { fg, bg }),
                None => None,
            },
        }
    }
}

/// The character that writes the decimal digit `digit`.
pub open spec fn digit_char(digit: nat) -> char
    recommends
        digit < 10,
{
    (48 + digit) as char
}

/// `n` in decimal, without leading zeros.
pub open spec fn decimal(n: nat) -> Seq<char>
    decreases n,
{
    if n < 10 {
        seq![digit_char(n)]
    } else {
        decimal(n / 10).push(digit_char(n % 10))
    }
}

/// The sequence that moves the cursor to `row` and `column`, both counted
/// from 1.
pub open spec fn cursor_to(row: nat, column: nat) -> Seq<char> {
    seq!['\x1b', '['] + decimal(row) + seq![';'] + decimal(column) + seq!['H']
}

/// The sequence that draws `cell` at column `x` of row `y`, both counted
/// from 0: the cursor is moved there, and the character follows, between
/// the sequence that sets its colours and the one that resets them where it
/// has colours.
pub open spec fn cell_write(x: nat, y: nat, cell: Character) -> Seq<char> {
    match cell.color {
        Some(pair) => cursor_to(y + 1, x + 1) + seq!['\x1b', '['] + decimal(pair.fg as nat)
            + seq![';'] + decimal(pair.bg as nat) + seq!['m', cell.character, '\x1b', '[', '0', 'm'],
        None => cursor_to(y + 1, x + 1).push(cell.character),
    }
}

/// Appends one character to `dest`. Trusted: this is `String::push` of the
/// standard library, which appends the character and does nothing else.
#[verifier::external_body]
fn push_char(dest: &mut String, c: char)
    ensures
        final(dest)@ == old(dest)@.push(c),
{
    dest.push(c);
}

/// Appends `n` in decimal.
pub fn write_decimal(dest: &mut String, n: u128)
    ensures
        final(dest)@ == old(dest)@ + decimal(n as nat),
    decreases n,
{
    if n >= 10 {
        write_decimal(dest, n / 10);
    }
    let digit: u8 = (n % 10) as u8;
    push_char(dest, (48 + digit) as char);
    assert(final(dest)@ =~= old(dest)@ + decimal(n as nat));
}

/// Appends the sequence that moves the cursor to `row` and `column`.
pub fn write_cursor(dest: &mut String, row: u128, column: u128)
    ensures
        final(dest)@ == old(dest)@ + cursor_to(row as nat, column as nat),
{
    push_char(dest, '\x1b');
    push_char(dest, '[');
    write_decimal(dest, row);
    push_char(dest, ';');
    write_decimal(dest, column);
    push_char(dest, 'H');
    assert(final(dest)@ =~= old(dest)@ + cursor_to(row as nat, column as nat));
}

/// Appends the sequence that draws `c` at column `x` of row `y`.
pub fn write_char(dest: &mut String, x: usize, y: usize, c: Character)
    ensures
        final(dest)@ == old(dest)@ + cell_write(x as nat, y as nat, c),
{
    write_cursor(dest, y as u128 + 1, x as u128 + 1);
    match c.color {
        Some(ColorPair { fg: fg_color, bg: bg_color }) => {
            push_char(dest, '\x1b');
            push_char(dest, '[');
            write_decimal(dest, fg_color as u128);
            push_char(dest, ';');
            write_decimal(dest, bg_color as u128);
            push_char(dest, 'm');
            push_char(dest, c.character);
            push_char(dest, '\x1b');
            push_char(dest, '[');
            push_char(dest, '0');
            push_char(dest, 'm');
        },
        None => {
            push_char(dest, c.character);
        },
    }
    assert(final(dest)@ =~= old(dest)@ + cell_write(x as nat, y as nat, c));
}

/// `chars` as cells in the colours `color`.
pub open spec fn cells_of(chars: Seq<char>, color: Option<(usize, usize)>) -> Seq<Character> {
    Seq::new(chars.len(), |i: int| cell_of(chars[i], color))
}

/// The screen content that an application asks for: lines of cells, built
/// by appending. There is always a current line, the last one.
pub struct ScreenBuffer {
    lines: Vec<Vec<Character>>,
    current: Vec<Character>,
}

impl View for ScreenBuffer {
    type V = Seq<Seq<Character>>;

    closed spec fn view(&self) -> Seq<Seq<Character>> {
        Seq::new(self.lines@.len(), |y: int| self.lines@[y]@).push(self.current@)
    }
}

impl ScreenBuffer {
    /// A buffer of one empty line.
    pub fn new() -> (buffer: Self)
        ensures
            buffer@ == seq![Seq::<Character>::empty()],
    {
        let buffer = ScreenBuffer { lines: Vec::new(), current: Vec::new() };
        assert(buffer@ =~= seq![Seq::<Character>::empty()]);
        buffer
    }

    /// A buffer has at least one line.
    pub proof fn lemma_has_line(&self)
        ensures
            self@.len() > 0,
    {
    }

    /// Appends `chars` to the current line, as cells in the colours `color`.
    fn extend_line(&mut self, chars: &str, color: Option<(usize, usize)>)
        ensures
            final(self)@ == old(self)@.update(
                old(self)@.len() - 1,
                old(self)@.last() + cells_of(chars@, color),
            ),
    {
        let count = chars.unicode_len();
        let mut i: usize = 0;
        assert(old(self).current@ + cells_of(chars@.take(0), color) =~= old(self).current@);
        while i < count
            invariant
                i <= count == chars@.len(),
                self.lines == old(self).lines,
                self.current@ == old(self).current@ + cells_of(chars@.take(i as int), color),
            decreases count - i,
        {
            let cell = Character::new(chars.get_char(i), color);
            self.current.push(cell);
            proof {
                let done = cells_of(chars@.take(i as int), color);
                assert(cells_of(chars@.take(i + 1), color) =~= done.push(cell));
                assert((old(self).current@ + done).push(cell) =~= old(self).current@ + done.push(
                    cell,
                ));
            }
            i += 1;
        }
        assert(chars@.take(count as int) =~= chars@);
        assert(self@ =~= old(self)@.update(
            old(self)@.len() - 1,
            old(self)@.last() + cells_of(chars@, color),
        ));
    }

    /// Appends `chars` to the current line, drawn in the foreground colour
    /// `fg_color` on the background colour `bg_color`; the background code
    /// that the terminal takes is 10 above the colour's.
    pub fn write_color(&mut self, chars: &str, fg_color: usize, bg_color: usize)
        requires
            bg_color + 10 <= usize::MAX,
        ensures
            final(self)@ == old(self)@.update(
                old(self)@.len() - 1,
                old(self)@.last() + cells_of(chars@, Some((fg_color, (bg_color + 10) as usize))),
            ),
    {
        self.extend_line(chars, Some((fg_color, bg_color + 10)));
    }

    /// Appends `chars` to the current line, without colours.
    pub fn write(&mut self, chars: &str)
        ensures
            final(self)@ == old(self)@.update(
                old(self)@.len() - 1,
                old(self)@.last() + cells_of(chars@, None),
            ),
    {
        self.extend_line(chars, None);
    }

    /// Starts a new, empty line.
    pub fn new_line(&mut self)
        ensures
            final(self)@ == old(self)@.push(Seq::empty()),
    {
        let mut line: Vec<Character> = Vec::new();
        std::mem::swap(&mut self.current, &mut line);
        self.lines.push(line);
        assert(self@ =~= old(self)@.push(Seq::empty()));
    }
}

/// The cells of the lines `lines`.
pub open spec fn grid(lines: Seq<Vec<Character>>) -> Seq<Seq<Character>> {
    Seq::new(lines.len(), |y: int| lines[y]@)
}

/// Line `y` of `screen`; the empty line where `screen` has no such line.
pub open spec fn row_of(screen: Seq<Seq<Character>>, y: int) -> Seq<Character> {
    if 0 <= y < screen.len() {
        screen[y]
    } else {
        Seq::empty()
    }
}

/// `n` spaces.
pub open spec fn spaces(n: nat) -> Seq<char> {
    Seq::new(n, |i: int| ' ')
}

/// What is written for the columns below `upto` of line `y`, which showed
/// `old_row` and is to show `new_row`: each cell that is new or differs is
/// drawn, from left to right, and nothing is written for the others.
pub open spec fn cells_diff(
    y: nat,
    old_row: Seq<Character>,
    new_row: Seq<Character>,
    upto: nat,
) -> Seq<char>
    decreases upto,
{
    if upto == 0 {
        Seq::empty()
    } else {
        let x = (upto - 1) as nat;
        let before = cells_diff(y, old_row, new_row, x);
        if x < new_row.len() && (x >= old_row.len() || old_row[x as int] != new_row[x as int]) {
            before + cell_write(x, y, new_row[x as int])
        } else {
            before
        }
    }
}

/// What blanks the end of line `y`, which showed `old_len` cells and is to
/// show `new_len`: where the line got shorter, the cursor is moved behind
/// its new end and one space is written for each cell that is gone.
pub open spec fn blank_tail(y: nat, old_len: nat, new_len: nat) -> Seq<char> {
    if new_len < old_len {
        cursor_to(y + 1, new_len + 1) + spaces((old_len - new_len) as nat)
    } else {
        Seq::empty()
    }
}

/// What is written to make line `y` show `new_row` in place of `old_row`.
pub open spec fn row_diff(y: nat, old_row: Seq<Character>, new_row: Seq<Character>) -> Seq<char> {
    cells_diff(y, old_row, new_row, new_row.len()) + blank_tail(y, old_row.len(), new_row.len())
}

/// What is written for the lines below `upto`, from the top down.
pub open spec fn rows_diff(
    old_screen: Seq<Seq<Character>>,
    new_screen: Seq<Seq<Character>>,
    upto: nat,
) -> Seq<char>
    decreases upto,
{
    if upto == 0 {
        Seq::empty()
    } else {
        let y = (upto - 1) as nat;
        rows_diff(old_screen, new_screen, y) + row_diff(
            y,
            row_of(old_screen, y as int),
            row_of(new_screen, y as int),
        )
    }
}

/// How many lines the terminal holds once `new_screen` is drawn over
/// `old_screen`: lines are cleared, never given up.
pub open spec fn rows_after(
    old_screen: Seq<Seq<Character>>,
    new_screen: Seq<Seq<Character>>,
) -> nat {
    if old_screen.len() >= new_screen.len() {
        old_screen.len()
    } else {
        new_screen.len()
    }
}

/// What the terminal shows once `new_screen` is drawn over `old_screen`: the
/// lines of `new_screen`, and empty lines below them down to where
/// `old_screen` ended.
pub open spec fn retained_after(
    old_screen: Seq<Seq<Character>>,
    new_screen: Seq<Seq<Character>>,
) -> Seq<Seq<Character>> {
    Seq::new(rows_after(old_screen, new_screen), |y: int| row_of(new_screen, y))
}

/// Everything that is written to draw `new_screen` over `old_screen`: what
/// each line needs, from the top down, and then the sequence that puts the
/// cursor at the start of the line below the last one.
pub open spec fn render_output(
    old_screen: Seq<Seq<Character>>,
    new_screen: Seq<Seq<Character>>,
) -> Seq<char> {
    rows_diff(old_screen, new_screen, rows_after(old_screen, new_screen)) + cursor_to(
        rows_after(old_screen, new_screen) + 1,
        1,
    )
}

/// Where the first `upto` cells of a line stay what they were, nothing is
/// written for them.
pub proof fn lemma_same_cells_silent(
    y: nat,
    old_row: Seq<Character>,
    new_row: Seq<Character>,
    upto: nat,
)
    requires
        upto <= old_row.len(),
        upto <= new_row.len(),
        forall|x: int| 0 <= x < upto ==> old_row[x] == new_row[x],
    ensures
        cells_diff(y, old_row, new_row, upto) == Seq::<char>::empty(),
    decreases upto,
{
    if upto > 0 {
        lemma_same_cells_silent(y, old_row, new_row, (upto - 1) as nat);
    }
}

/// A line that stays what it was needs nothing written.
pub proof fn lemma_same_row_silent(y: nat, row: Seq<Character>)
    ensures
        row_diff(y, row, row) == Seq::<char>::empty(),
{
    lemma_same_cells_silent(y, row, row, row.len());
}

/// Where of the lines below `upto` only line `y` changes, only what that
/// line needs is written.
pub proof fn lemma_single_row_diff(
    old_screen: Seq<Seq<Character>>,
    new_screen: Seq<Seq<Character>>,
    y: int,
    upto: nat,
)
    requires
        forall|r: int| 0 <= r < upto && r != y ==> row_of(old_screen, r) == row_of(new_screen, r),
    ensures
        rows_diff(old_screen, new_screen, upto) == if 0 <= y < upto {
            row_diff(y as nat, row_of(old_screen, y), row_of(new_screen, y))
        } else {
            Seq::<char>::empty()
        },
    decreases upto,
{
    if upto > 0 {
        let last = (upto - 1) as nat;
        lemma_single_row_diff(old_screen, new_screen, y, last);
        if last != y {
            lemma_same_row_silent(last, row_of(new_screen, last as int));
            assert(rows_diff(old_screen, new_screen, last) + Seq::<char>::empty()
                =~= rows_diff(old_screen, new_screen, last));
        } else {
            assert(Seq::<char>::empty() + row_diff(
                y as nat,
                row_of(old_screen, y),
                row_of(new_screen, y),
            ) =~= row_diff(y as nat, row_of(old_screen, y), row_of(new_screen, y)));
        }
    }
}

/// Drawing the same content again writes no cell. Once `new_screen` has
/// been drawn, drawing it a second time writes nothing for any line: all
/// that is written is the sequence that puts the cursor below the last
/// line, and what the renderer remembers stays as it is.
pub proof fn lemma_render_again_is_silent(
    old_screen: Seq<Seq<Character>>,
    new_screen: Seq<Seq<Character>>,
)
    ensures
        ({
            let shown = retained_after(old_screen, new_screen);
            &&& rows_diff(shown, new_screen, rows_after(shown, new_screen)) == Seq::<char>::empty()
            &&& render_output(shown, new_screen) == cursor_to(shown.len() + 1, 1)
            &&& retained_after(shown, new_screen) == shown
        }),
{
    let shown = retained_after(old_screen, new_screen);
    let rows = rows_after(shown, new_screen);
    assert(rows == shown.len());
    assert forall|r: int| 0 <= r < rows implies row_of(shown, r) == row_of(new_screen, r) by {}
    lemma_single_row_diff(shown, new_screen, -1, rows);
    assert(Seq::<char>::empty() + cursor_to(shown.len() + 1, 1) =~= cursor_to(shown.len() + 1, 1));
    assert(retained_after(shown, new_screen) =~= shown);
}

/// One changed cell costs one write. Where `new_screen` has the shape of
/// what the terminal shows and differs from it in the one cell at column
/// `x` of line `y`, all that is written is the sequence that draws that
/// cell, and then the sequence that puts the cursor below the last line.
pub proof fn lemma_one_cell_changed(
    old_screen: Seq<Seq<Character>>,
    new_screen: Seq<Seq<Character>>,
    y: int,
    x: int,
)
    requires
        old_screen.len() == new_screen.len(),
        forall|r: int| 0 <= r < new_screen.len() ==> old_screen[r].len() == new_screen[r].len(),
        0 <= y < new_screen.len(),
        0 <= x < new_screen[y].len(),
        old_screen[y][x] != new_screen[y][x],
        forall|r: int, c: int|
            0 <= r < new_screen.len() && 0 <= c < new_screen[r].len() && !(r == y && c == x)
                ==> old_screen[r][c] == new_screen[r][c],
    ensures
        render_output(old_screen, new_screen) == cell_write(x as nat, y as nat, new_screen[y][x])
            + cursor_to(new_screen.len() + 1, 1),
{
    let rows = rows_after(old_screen, new_screen);
    let old_row = old_screen[y];
    let new_row = new_screen[y];
    assert forall|r: int| 0 <= r < rows && r != y implies row_of(old_screen, r) == row_of(
        new_screen,
        r,
    ) by {
        assert(old_screen[r] =~= new_screen[r]);
    }
    lemma_single_row_diff(old_screen, new_screen, y, rows);
    lemma_same_cells_silent(y as nat, old_row, new_row, x as nat);
    lemma_later_cells_silent(y as nat, old_row, new_row, (x + 1) as nat, new_row.len());
    assert(row_diff(y as nat, old_row, new_row) =~= cell_write(x as nat, y as nat, new_row[x]));
}

/// Where the cells from column `from` on stay what they were, what is
/// written for the line is what is written for the columns below `from`.
proof fn lemma_later_cells_silent(
    y: nat,
    old_row: Seq<Character>,
    new_row: Seq<Character>,
    from: nat,
    upto: nat,
)
    requires
        from <= upto <= new_row.len(),
        upto <= old_row.len(),
        forall|x: int| from <= x < upto ==> old_row[x] == new_row[x],
    ensures
        cells_diff(y, old_row, new_row, upto) == cells_diff(y, old_row, new_row, from),
    decreases upto,
{
    if upto > from {
        lemma_later_cells_silent(y, old_row, new_row, from, (upto - 1) as nat);
    }
}

/// Whatever else changes in a line that got shorter, what is written for it
/// ends with the blanking of the cells that are gone: the sequence that
/// puts the cursor behind the new end of the line, and one space for each
/// of them.
pub proof fn lemma_shorter_row_tail(y: nat, old_row: Seq<Character>, new_row: Seq<Character>)
    requires
        new_row.len() < old_row.len(),
    ensures
        row_diff(y, old_row, new_row) == cells_diff(y, old_row, new_row, new_row.len())
            + cursor_to(y + 1, new_row.len() + 1) + spaces((old_row.len() - new_row.len()) as nat),
{
    let cells = cells_diff(y, old_row, new_row, new_row.len());
    let cursor = cursor_to(y + 1, new_row.len() + 1);
    let blanks = spaces((old_row.len() - new_row.len()) as nat);
    assert(cells + (cursor + blanks) =~= cells + cursor + blanks);
}

/// A line that got shorter is blanked behind its new end, and there alone.
/// Where `new_screen` differs from what the terminal shows only in that
/// line `y` has lost cells at its end, all that is written is the sequence
/// that puts the cursor behind the new end of that line, one space for each
/// cell that is gone, and then the sequence that puts the cursor below the
/// last line.
pub proof fn lemma_shorter_row_blanked(
    old_screen: Seq<Seq<Character>>,
    new_screen: Seq<Seq<Character>>,
    y: int,
)
    requires
        old_screen.len() == new_screen.len(),
        0 <= y < new_screen.len(),
        new_screen[y].len() < old_screen[y].len(),
        forall|x: int| 0 <= x < new_screen[y].len() ==> old_screen[y][x] == new_screen[y][x],
        forall|r: int| 0 <= r < new_screen.len() && r != y ==> old_screen[r] == new_screen[r],
    ensures
        render_output(old_screen, new_screen) == cursor_to((y + 1) as nat, new_screen[y].len() + 1)
            + spaces((old_screen[y].len() - new_screen[y].len()) as nat) + cursor_to(
            new_screen.len() + 1,
            1,
        ),
        retained_after(old_screen, new_screen) == new_screen,
{
    let rows = rows_after(old_screen, new_screen);
    lemma_single_row_diff(old_screen, new_screen, y, rows);
    lemma_same_cells_silent(y as nat, old_screen[y], new_screen[y], new_screen[y].len());
    assert(row_diff(y as nat, old_screen[y], new_screen[y]) =~= blank_tail(
        y as nat,
        old_screen[y].len(),
        new_screen[y].len(),
    ));
    assert(retained_after(old_screen, new_screen) =~= new_screen);
}

/// Appends what makes line `y` show `new_row` in place of `old_row`.
fn render_row(dest: &mut String, y: usize, old_row: &Vec<Character>, new_row: &Vec<Character>)
    ensures
        final(dest)@ == old(dest)@ + row_diff(y as nat, old_row@, new_row@),
{
    let old_len = old_row.len();
    let new_len = new_row.len();
    let mut x: usize = 0;
    assert(dest@ =~= old(dest)@ + cells_diff(y as nat, old_row@, new_row@, 0));
    while x < new_len
        invariant
            x <= new_len == new_row@.len(),
            old_len == old_row@.len(),
            dest@ == old(dest)@ + cells_diff(y as nat, old_row@, new_row@, x as nat),
        decreases new_len - x,
    {
        let cell = new_row[x];
        if x >= old_len || old_row[x] != cell {
            write_char(dest, x, y, cell);
            assert(dest@ =~= old(dest)@ + cells_diff(y as nat, old_row@, new_row@, (x + 1) as nat));
        }
        x += 1;
    }
    if new_len < old_len {
        let ghost drawn = dest@;
        write_cursor(dest, y as u128 + 1, new_len as u128 + 1);
        let ghost moved = dest@;
        let gone = old_len - new_len;
        let mut i: usize = 0;
        assert(moved + spaces(0) =~= moved);
        while i < gone
            invariant
                i <= gone,
                dest@ == moved + spaces(i as nat),
            decreases gone - i,
        {
            push_char(dest, ' ');
            assert(dest@ =~= moved + spaces((i + 1) as nat));
            i += 1;
        }
        assert(dest@ =~= drawn + blank_tail(y as nat, old_len as nat, new_len as nat));
    }
    assert(dest@ =~= old(dest)@ + row_diff(y as nat, old_row@, new_row@));
}

/// The renderer's memory of what the terminal shows. Its view is the lines
/// of cells that are on the terminal.
pub struct Screen {
    characters: Vec<Vec<Character>>,
}

impl View for Screen {
    type V = Seq<Seq<Character>>;

    closed spec fn view(&self) -> Seq<Seq<Character>> {
        grid(self.characters@)
    }
}

impl Screen {
    /// The memory of a cleared terminal: one empty line.
    pub fn new() -> (screen: Self)
        ensures
            screen@ == seq![Seq::<Character>::empty()],
    {
        let mut characters: Vec<Vec<Character>> = Vec::new();
        characters.push(Vec::new());
        let screen = Screen { characters };
        assert(screen@ =~= seq![Seq::<Character>::empty()]);
        screen
    }

    /// Draws `new` over what the terminal shows. Returns what has to be
    /// written to the terminal for that, and remembers the new content.
    pub fn render(&mut self, new: ScreenBuffer) -> (output: String)
        ensures
            output@ == render_output(old(self)@, new@),
            final(self)@ == retained_after(old(self)@, new@),
    {
        let ghost old_screen = self@;
        let ghost new_screen = new@;
        let ScreenBuffer { lines, current } = new;
        let mut fresh = lines;
        fresh.push(current);
        assert(grid(fresh@) =~= new_screen);
        let blank: Vec<Character> = Vec::new();
        let old_rows = self.characters.len();
        let new_rows = fresh.len();
        let rows = if old_rows >= new_rows {
            old_rows
        } else {
            new_rows
        };
        let mut output = String::new();
        let mut y: usize = 0;
        assert(output@ =~= rows_diff(old_screen, new_screen, 0));
        while y < rows
            invariant
                y <= rows == rows_after(old_screen, new_screen),
                old_rows == self.characters@.len(),
                new_rows == fresh@.len(),
                grid(self.characters@) == old_screen,
                grid(fresh@) == new_screen,
                blank@ == Seq::<Character>::empty(),
                output@ == rows_diff(old_screen, new_screen, y as nat),
            decreases rows - y,
        {
            let old_row = if y < old_rows {
                &self.characters[y]
            } else {
                &blank
            };
            let new_row = if y < new_rows {
                &fresh[y]
            } else {
                &blank
            };
            assert(old_row@ == row_of(old_screen, y as int));
            assert(new_row@ == row_of(new_screen, y as int));
            render_row(&mut output, y, old_row, new_row);
            y += 1;
        }
        write_cursor(&mut output, rows as u128 + 1, 1);
        while fresh.len() < rows
            invariant
                new_rows <= fresh@.len() <= rows,
                new_rows == new_screen.len(),
                forall|k: int| 0 <= k < new_rows ==> (#[trigger] fresh@[k])@ == new_screen[k],
                forall|k: int| new_rows <= k < fresh@.len() ==> (#[trigger] fresh@[k])@ == Seq::<
                    Character,
                >::empty(),
            decreases rows - fresh@.len(),
        {
            fresh.push(Vec::new());
        }
        self.characters = fresh;
        assert(self@ =~= retained_after(old_screen, new_screen));
        output
    }
}

} // verus!
