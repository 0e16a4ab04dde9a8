//! Writing a grid as text that `World::load` reads back.
//!
//! The text has a `Dimension` line, then a `Wall` line for every wall, then
//! an `Exit` line for every exit, each in the order of the cells. A reward is
//! written with six digits after the dot.
use crate::fixed::{in_range, magnitude, ONE};
use crate::format::{COMMA, DIMENSION, DOT, EXIT, LINE_FEED, MINUS, SPACE, WALL, ZERO};
use crate::world::{Chart, World};
use vstd::prelude::*;

verus! {

/// The decimal digits of a number, without leading zeros.
pub open spec fn digits_of(n: nat) -> Seq<u8>
    decreases n,
{
    if n < 10 {
        seq![(ZERO + n) as u8]
    } else {
        digits_of(n / 10).push((ZERO + n % 10) as u8)
    }
}

/// The last decimal digit of a number, as a byte.
pub open spec fn last_digit(n: nat) -> u8 {
    (ZERO + n % 10) as u8
}

/// The six decimal digits of a number below a million.
pub open spec fn six_digits(m: nat) -> Seq<u8> {
    seq![
        last_digit(m / 100_000),
        last_digit(m / 10_000),
        last_digit(m / 1_000),
        last_digit(m / 100),
        last_digit(m / 10),
        last_digit(m),
    ]
}

/// A scalar as a decimal: a minus sign if it is negative, its whole part, a
/// dot, and its six digits of millionths.
pub open spec fn scalar_text(v: int) -> Seq<u8> {
    let size = magnitude(v);
    let sign = if v < 0 {
        seq![MINUS]
    } else {
        Seq::<u8>::empty()
    };
    sign + digits_of((size / (ONE as int)) as nat) + seq![DOT] + six_digits(
        (size % (ONE as int)) as nat,
    )
}

/// Two numbers with a comma between them.
pub open spec fn pair_text(x: nat, y: nat) -> Seq<u8> {
    digits_of(x) + seq![COMMA] + digits_of(y)
}

/// The entry of an `Exit` line.
pub open spec fn exit_entry(x: nat, y: nat, reward: int) -> Seq<u8> {
    pair_text(x, y) + seq![COMMA] + scalar_text(reward)
}

/// A line without its line feed: a keyword, a space and an entry.
pub open spec fn line_of(keyword: Seq<u8>, entry: Seq<u8>) -> Seq<u8> {
    keyword + seq![SPACE] + entry
}

/// The line of the wall at index `i`, or nothing if there is no wall.
pub open spec fn wall_text(chart: Chart, i: int) -> Seq<u8> {
    if chart.board[i] != 0 {
        line_of(
            WALL@,
            pair_text((i % (chart.width as int)) as nat, (i / (chart.width as int)) as nat),
        ) + seq![LINE_FEED]
    } else {
        Seq::<u8>::empty()
    }
}

/// The line of the exit at index `i`, or nothing if there is no exit.
pub open spec fn exit_text(chart: Chart, i: int) -> Seq<u8> {
    match chart.exits[i] {
        Some(reward) => line_of(
            EXIT@,
            exit_entry(
                (i % (chart.width as int)) as nat,
                (i / (chart.width as int)) as nat,
                reward as int,
            ),
        ) + seq![LINE_FEED],
        None => Seq::<u8>::empty(),
    }
}

/// The lines of the walls at indices `from` and up.
pub open spec fn walls_text(chart: Chart, from: int) -> Seq<u8>
    decreases chart.board.len() - from,
{
    if 0 <= from < chart.board.len() {
        wall_text(chart, from) + walls_text(chart, from + 1)
    } else {
        Seq::<u8>::empty()
    }
}

/// The lines of the exits at indices `from` and up.
pub open spec fn exits_text(chart: Chart, from: int) -> Seq<u8>
    decreases chart.exits.len() - from,
{
    if 0 <= from < chart.exits.len() {
        exit_text(chart, from) + exits_text(chart, from + 1)
    } else {
        Seq::<u8>::empty()
    }
}

/// The `Dimension` line of a grid.
pub open spec fn dimension_text(chart: Chart) -> Seq<u8> {
    line_of(DIMENSION@, pair_text(chart.width as nat, chart.height as nat)) + seq![LINE_FEED]
}

/// The text of a grid.
pub open spec fn spec_save(chart: Chart) -> Seq<u8> {
    dimension_text(chart) + walls_text(chart, 0) + exits_text(chart, 0)
}

/// Appends the decimal digits of a number.
pub fn push_number(out: &mut Vec<u8>, n: usize)
    ensures
        final(out)@ == old(out)@ + digits_of(n as nat),
    decreases n,
{
    if n >= 10 {
        push_number(out, n / 10);
    }
    let digit: u8 = (n % 10) as u8;
    out.push(ZERO + digit);
    assert(out@ =~= old(out)@ + digits_of(n as nat));
}

/// Appends the six decimal digits of a number below a million.
pub fn push_six_digits(out: &mut Vec<u8>, m: u32)
    requires
        m < ONE,
    ensures
        final(out)@ == old(out)@ + six_digits(m as nat),
{
    out.push(ZERO + ((m / 100_000) % 10) as u8);
    out.push(ZERO + ((m / 10_000) % 10) as u8);
    out.push(ZERO + ((m / 1_000) % 10) as u8);
    out.push(ZERO + ((m / 100) % 10) as u8);
    out.push(ZERO + ((m / 10) % 10) as u8);
    out.push(ZERO + (m % 10) as u8);
    assert(out@ =~= old(out)@ + six_digits(m as nat));
}

/// Appends a scalar as a decimal.
pub fn push_scalar(out: &mut Vec<u8>, v: i64)
    requires
        in_range(v as int),
    ensures
        final(out)@ == old(out)@ + scalar_text(v as int),
{
    let size: i64 = if v < 0 {
        out.push(MINUS);
        -v
    } else {
        v
    };
    push_number(out, (size / ONE) as usize);
    out.push(DOT);
    push_six_digits(out, (size % ONE) as u32);
    assert(out@ =~= old(out)@ + scalar_text(v as int));
}

/// Appends two numbers with a comma between them.
pub fn push_pair(out: &mut Vec<u8>, x: usize, y: usize)
    ensures
        final(out)@ == old(out)@ + pair_text(x as nat, y as nat),
{
    push_number(out, x);
    out.push(COMMA);
    push_number(out, y);
    assert(out@ =~= old(out)@ + pair_text(x as nat, y as nat));
}

/// Appends a keyword and a space.
pub fn push_keyword(out: &mut Vec<u8>, keyword: &[u8])
    ensures
        final(out)@ == old(out)@ + keyword@ + seq![SPACE],
{
    let mut i: usize = 0;
    while i < keyword.len()
        invariant
            i <= keyword@.len(),
            out@ == old(out)@ + keyword@.take(i as int),
        decreases keyword@.len() - i,
    {
        out.push(keyword[i]);
        assert(out@ =~= old(out)@ + keyword@.take(i + 1));
        i += 1;
    }
    assert(keyword@.take(i as int) =~= keyword@);
    out.push(SPACE);
}

impl World {
    /// The text of the grid: its size, then its walls, then its exits, each
    /// in the order of the cells.
    pub fn save(&self) -> (text: Vec<u8>)
        requires
            self.wf(),
        ensures
            text@ == spec_save(self@),
    {
        let mut out: Vec<u8> = Vec::new();
        push_keyword(&mut out, &DIMENSION);
        push_pair(&mut out, self.width, self.height);
        out.push(LINE_FEED);
        assert(out@ =~= dimension_text(self@));
        let area = self.area();
        let mut i: usize = 0;
        while i < area
            invariant
                self.wf(),
                area == self.spec_area(),
                i <= area,
                out@ + walls_text(self@, i as int) == dimension_text(self@) + walls_text(self@, 0),
            decreases area - i,
        {
            let ghost before = out@;
            proof {
                self.lemma_state_at(i as int);
            }
            if self.board[i] != 0 {
                push_keyword(&mut out, &WALL);
                push_pair(&mut out, i % self.width, i / self.width);
                out.push(LINE_FEED);
            }
            assert(out@ =~= before + wall_text(self@, i as int));
            assert(out@ + walls_text(self@, i + 1) =~= before + walls_text(self@, i as int));
            i += 1;
        }
        assert(out@ =~= dimension_text(self@) + walls_text(self@, 0));
        let mut j: usize = 0;
        while j < area
            invariant
                self.wf(),
                area == self.spec_area(),
                j <= area,
                out@ + exits_text(self@, j as int) == spec_save(self@),
            decreases area - j,
        {
            let ghost before = out@;
            proof {
                self.lemma_state_at(j as int);
            }
            match self.exits[j] {
                Some(reward) => {
                    push_keyword(&mut out, &EXIT);
                    push_pair(&mut out, j % self.width, j / self.width);
                    out.push(COMMA);
                    push_scalar(&mut out, reward);
                    out.push(LINE_FEED);
                },
                None => {},
            }
            assert(out@ =~= before + exit_text(self@, j as int));
            assert(out@ + exits_text(self@, j + 1) =~= before + exits_text(self@, j as int));
            j += 1;
        }
        assert(out@ =~= spec_save(self@));
        out
    }
}

} // verus!
