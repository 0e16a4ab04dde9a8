//! Writing a grid and reading the text back gives the same grid.
use crate::fixed::{in_range, magnitude, ONE};
use crate::decimal::{
    exponent_of, fraction_of, joined, lemma_number_joined, mantissa_of, pow10, shifted,
    spec_parse_scalar, spec_parse_size, whole_of,
};
use crate::format::{
    all_digits, blank_len, entry_of, field_at, is_blank, is_digit, keyword_of, lemma_find,
    lemma_next_blank, next_field, next_mark,
    number, spec_build, spec_load, spec_parse, spec_parse_index, spec_read_line, spec_read_pair,
    spec_read_text, stops, LoadError, Sketch, Stop, COMMA, DIMENSION, DOT, EXIT, LINE_FEED, MINUS,
    SPACE, WALL, ZERO,
};
use crate::render::{
    digits_of, exit_entry, exits_text, last_digit, line_of, pair_text, scalar_text, six_digits,
    spec_save, walls_text,
};
use crate::world::{lemma_cell_of_index, Chart};
use vstd::prelude::*;

verus! {

/// The byte is no blank and no part of one.
spec fn plain_byte(b: u8) -> bool {
    !is_blank(b) && b < 128
}

/// No byte is a blank or a part of one.
spec fn inked(s: Seq<u8>) -> bool {
    forall|i: int| 0 <= i < s.len() ==> plain_byte(#[trigger] s[i])
}

/// No byte is a line feed.
spec fn unbroken(s: Seq<u8>) -> bool {
    forall|i: int| 0 <= i < s.len() ==> #[trigger] s[i] != LINE_FEED
}

/// No byte is a comma.
spec fn uncut(s: Seq<u8>) -> bool {
    forall|i: int| 0 <= i < s.len() ==> #[trigger] s[i] != COMMA
}

/// Digits are neither blank nor commas.
proof fn lemma_digits_are_plain(s: Seq<u8>)
    requires
        all_digits(s),
    ensures
        inked(s),
        uncut(s),
{
    assert forall|i: int| 0 <= i < s.len() implies plain_byte(#[trigger] s[i]) && s[i] != COMMA by {
        assert(is_digit(s[i]));
    }
}

/// The digits of a number spell that number.
pub proof fn lemma_digits(n: nat)
    ensures
        digits_of(n).len() >= 1,
        all_digits(digits_of(n)),
        number(digits_of(n)) == n,
    decreases n,
{
    let full = digits_of(n);
    if n >= 10 {
        lemma_digits(n / 10);
        let front = digits_of(n / 10);
        assert(full.drop_last() =~= front);
        assert(full.last() == last_digit(n));
        assert(full.last() - ZERO == n % 10);
        assert(number(full) == number(front) * 10 + n % 10);
        assert forall|i: int| 0 <= i < full.len() implies is_digit(#[trigger] full[i]) by {
            if i < front.len() {
                assert(full[i] == front[i]);
                assert(is_digit(front[i]));
            }
        }
    } else {
        assert(full.drop_last() =~= Seq::<u8>::empty());
        assert(full.last() - ZERO == n);
        assert(number(full.drop_last()) == 0);
    }
}

/// The digits of a number read back as that number.
pub proof fn lemma_parse_index(n: usize)
    ensures
        spec_parse_index(digits_of(n as nat)) == Some(n),
{
    lemma_digits(n as nat);
    assert(is_digit(digits_of(n as nat)[0]));
}

/// A number is ten times its tenth and its last digit, and the digit as a
/// byte is a digit.
proof fn lemma_last_digit(n: nat)
    ensures
        is_digit(last_digit(n)),
        last_digit(n) - ZERO == n % 10,
        n == (n / 10) * 10 + n % 10,
{
}

/// Six digits behind a number make it a million times the number and the
/// millionths they were written from.
proof fn lemma_six_digits(n: nat, m: nat)
    requires
        m < ONE,
    ensures
        six_digits(m).len() == 6,
        all_digits(six_digits(m)),
        joined(n, six_digits(m)) == n * ONE + m,
{
    let f = six_digits(m);
    let q1 = m / 10;
    let q2 = m / 100;
    let q3 = m / 1_000;
    let q4 = m / 10_000;
    let q5 = m / 100_000;
    lemma_last_digit(m);
    lemma_last_digit(q1);
    lemma_last_digit(q2);
    lemma_last_digit(q3);
    lemma_last_digit(q4);
    lemma_last_digit(q5);
    assert(q1 / 10 == q2 && q2 / 10 == q3 && q3 / 10 == q4 && q4 / 10 == q5 && q5 / 10 == 0) by {
        vstd::arithmetic::div_mod::lemma_div_denominator(m as int, 10, 10);
        vstd::arithmetic::div_mod::lemma_div_denominator(m as int, 100, 10);
        vstd::arithmetic::div_mod::lemma_div_denominator(m as int, 1_000, 10);
        vstd::arithmetic::div_mod::lemma_div_denominator(m as int, 10_000, 10);
    }
    assert(f[0] == last_digit(q5) && f[1] == last_digit(q4) && f[2] == last_digit(q3));
    assert(f[3] == last_digit(q2) && f[4] == last_digit(q1) && f[5] == last_digit(m));
    assert(f.take(0) =~= Seq::<u8>::empty());
    assert(f.take(1).drop_last() =~= f.take(0) && f.take(1).last() == f[0]);
    assert(f.take(2).drop_last() =~= f.take(1) && f.take(2).last() == f[1]);
    assert(f.take(3).drop_last() =~= f.take(2) && f.take(3).last() == f[2]);
    assert(f.take(4).drop_last() =~= f.take(3) && f.take(4).last() == f[3]);
    assert(f.take(5).drop_last() =~= f.take(4) && f.take(5).last() == f[4]);
    assert(f.take(6).drop_last() =~= f.take(5) && f.take(6).last() == f[5]);
    assert(f.take(6) =~= f);
    assert(joined(n, f.take(0)) == n);
    assert(joined(n, f.take(1)) == n * 10 + q5);
    assert(joined(n, f.take(2)) == n * 100 + q4);
    assert(joined(n, f.take(3)) == n * 1_000 + q3);
    assert(joined(n, f.take(4)) == n * 10_000 + q2);
    assert(joined(n, f.take(5)) == n * 100_000 + q1);
    assert(joined(n, f.take(6)) == n * 1_000_000 + m);
}

/// A written scalar holds a sign, digits and a dot: nothing blank, no comma
/// and nothing that begins an exponent.
proof fn lemma_scalar_is_plain(v: int)
    requires
        in_range(v),
    ensures
        scalar_text(v).len() >= 8,
        inked(scalar_text(v)),
        uncut(scalar_text(v)),
        forall|i: int|
            0 <= i < scalar_text(v).len() ==> !stops(Stop::Exponent, #[trigger] scalar_text(v)[i]),
{
    let size = magnitude(v);
    let whole = digits_of((size / (ONE as int)) as nat);
    let fraction = six_digits((size % (ONE as int)) as nat);
    lemma_digits((size / (ONE as int)) as nat);
    lemma_six_digits(0, (size % (ONE as int)) as nat);
    lemma_digits_are_plain(whole);
    lemma_digits_are_plain(fraction);
    let text = scalar_text(v);
    let offset: int = if v < 0 {
        1
    } else {
        0
    };
    assert forall|i: int| 0 <= i < text.len() implies plain_byte(#[trigger] text[i]) && text[i]
        != COMMA && !stops(Stop::Exponent, text[i]) by {
        if i < offset {
        } else if i < offset + whole.len() {
            assert(text[i] == whole[i - offset]);
            assert(is_digit(whole[i - offset]));
        } else if i == offset + whole.len() {
        } else {
            assert(text[i] == fraction[i - offset - whole.len() - 1]);
            assert(is_digit(fraction[i - offset - whole.len() - 1]));
        }
    }
}

/// A written scalar reads back as itself.
pub proof fn lemma_parse_scalar(v: i64)
    requires
        in_range(v as int),
    ensures
        spec_parse_scalar(scalar_text(v as int)) == Some(v),
{
    let size = magnitude(v as int);
    let units = (size / (ONE as int)) as nat;
    let rest = (size % (ONE as int)) as nat;
    let whole = digits_of(units);
    let fraction = six_digits(rest);
    lemma_digits(units);
    lemma_six_digits(units, rest);
    lemma_scalar_is_plain(v as int);
    let field = scalar_text(v as int);
    let body = whole + seq![DOT] + fraction;
    if v < 0 {
        assert(field[0] == MINUS);
        assert(field.skip(1) =~= body);
        assert forall|k: int| 0 <= k < body.len() implies !stops(
            Stop::Exponent,
            #[trigger] body[k],
        ) by {
            assert(body[k] == field[k + 1]);
        }
    } else {
        assert(field[0] == whole[0]);
        assert(is_digit(whole[0]));
        assert(field =~= body);
    }
    lemma_find(body, 0, body.len() as int, Stop::Exponent);
    assert(body.take(body.len() as int) =~= body);
    assert(mantissa_of(body) == body);
    assert(exponent_of(body) == Some(0int));
    assert forall|k: int| 0 <= k < whole.len() implies body[k] != DOT by {
        assert(body[k] == whole[k]);
        assert(is_digit(whole[k]));
    }
    assert(body[whole.len() as int] == DOT);
    lemma_find(body, 0, whole.len() as int, Stop::Byte(DOT));
    assert(body.take(whole.len() as int) =~= whole);
    assert(body.skip(whole.len() as int + 1) =~= fraction);
    assert(whole_of(body) == whole);
    assert(fraction_of(body) == fraction);
    lemma_number_joined(whole, fraction);
    assert(pow10(0) == 1);
    assert(shifted(whole + fraction, 0) == number(whole + fraction) * 1);
    assert(size == units * ONE + rest);
    assert(spec_parse_size(body) == Some(size as nat));
}

/// In a keyword, a space and an entry, the keyword is the line's keyword and
/// the entry its entry.
proof fn lemma_line(keyword: Seq<u8>, entry: Seq<u8>)
    requires
        keyword.len() > 0,
        inked(keyword),
        entry.len() > 0,
        inked(entry),
    ensures
        keyword_of(line_of(keyword, entry)) == keyword,
        entry_of(line_of(keyword, entry)) == Some(entry),
{
    let line = line_of(keyword, entry);
    let k = keyword.len() as int;
    assert(line[k] == SPACE);
    assert forall|i: int| 0 <= i < line.len() && i != k implies #[trigger] blank_len(line, i)
        == 0 by {
        if i < k {
            assert(line[i] == keyword[i]);
            assert(plain_byte(keyword[i]));
        } else {
            assert(line[i] == entry[i - k - 1]);
            assert(plain_byte(entry[i - k - 1]));
        }
    }
    assert(blank_len(line, k) == 1);
    assert(next_mark(line, 0) == 0);
    lemma_next_blank(line, 0, k);
    assert(next_mark(line, k + 1) == k + 1);
    assert(next_mark(line, k) == k + 1);
    lemma_next_blank(line, k + 1, line.len() as int);
    assert(line.subrange(k + 1, line.len() as int) =~= entry);
    assert(line.subrange(0, k) =~= keyword);
}

/// A run without commas that stands after `prefix`, up to the end or a
/// comma, is the field that starts there.
proof fn lemma_field(prefix: Seq<u8>, field: Seq<u8>, suffix: Seq<u8>)
    requires
        uncut(field),
        suffix.len() == 0 || suffix[0] == COMMA,
    ensures
        field_at(prefix + field + suffix, prefix.len() as int) == field,
        next_field(prefix + field + suffix, prefix.len() as int) == if suffix.len() == 0 {
            None::<int>
        } else {
            Some(prefix.len() as int + field.len() + 1)
        },
{
    let entry = prefix + field + suffix;
    let from = prefix.len() as int;
    let end = from + field.len();
    assert forall|k: int| from <= k < end implies !stops(
        Stop::Byte(COMMA),
        #[trigger] entry[k],
    ) by {
        assert(entry[k] == field[k - from]);
    }
    if suffix.len() > 0 {
        assert(entry[end] == suffix[0]);
    }
    lemma_find(entry, from, end, Stop::Byte(COMMA));
    assert(entry.subrange(from, end) =~= field);
}

/// Two written numbers, alone or before a comma, read back as a pair.
proof fn lemma_read_pair(
    x: usize,
    y: usize,
    suffix: Seq<u8>,
    first_invalid: LoadError,
    second_missing: LoadError,
    second_invalid: LoadError,
)
    requires
        suffix.len() == 0 || suffix[0] == COMMA,
    ensures
        spec_read_pair(
            pair_text(x as nat, y as nat) + suffix,
            first_invalid,
            second_missing,
            second_invalid,
        ) == Ok::<(usize, usize, int), LoadError>((x, y, digits_of(x as nat).len() as int + 1)),
        next_field(pair_text(x as nat, y as nat) + suffix, digits_of(x as nat).len() as int + 1)
            == if suffix.len() == 0 {
            None::<int>
        } else {
            Some(pair_text(x as nat, y as nat).len() as int + 1)
        },
{
    let first = digits_of(x as nat);
    let second = digits_of(y as nat);
    let entry = pair_text(x as nat, y as nat) + suffix;
    lemma_digits(x as nat);
    lemma_digits(y as nat);
    lemma_digits_are_plain(first);
    lemma_digits_are_plain(second);
    lemma_parse_index(x);
    lemma_parse_index(y);
    let empty = Seq::<u8>::empty();
    assert(entry =~= empty + first + (seq![COMMA] + second + suffix));
    lemma_field(empty, first, seq![COMMA] + second + suffix);
    assert(entry =~= (first + seq![COMMA]) + second + suffix);
    lemma_field(first + seq![COMMA], second, suffix);
}

/// The three keywords hold no blank, and no two of them are the same.
proof fn lemma_keywords()
    ensures
        inked(DIMENSION@),
        inked(WALL@),
        inked(EXIT@),
        DIMENSION@.len() == 9,
        WALL@.len() == 4,
        EXIT@.len() == 4,
        DIMENSION@[0] == 68,
        WALL@[0] == 87,
        EXIT@[0] == 69,
{
    assert forall|i: int| 0 <= i < 9 implies plain_byte(#[trigger] DIMENSION@[i]) by {
        assert(DIMENSION@[0] == 68 && DIMENSION@[1] == 105 && DIMENSION@[2] == 109);
        assert(DIMENSION@[3] == 101 && DIMENSION@[4] == 110 && DIMENSION@[5] == 115);
        assert(DIMENSION@[6] == 105 && DIMENSION@[7] == 111 && DIMENSION@[8] == 110);
    }
    assert forall|i: int| 0 <= i < 4 implies plain_byte(#[trigger] WALL@[i]) by {
        assert(WALL@[0] == 87 && WALL@[1] == 97 && WALL@[2] == 108 && WALL@[3] == 108);
    }
    assert forall|i: int| 0 <= i < 4 implies plain_byte(#[trigger] EXIT@[i]) by {
        assert(EXIT@[0] == 69 && EXIT@[1] == 120 && EXIT@[2] == 105 && EXIT@[3] == 116);
    }
}

/// A pair of written numbers is not empty and holds nothing blank.
proof fn lemma_pair_is_inked(x: nat, y: nat)
    ensures
        pair_text(x, y).len() >= 3,
        inked(pair_text(x, y)),
{
    lemma_digits(x);
    lemma_digits(y);
    lemma_digits_are_plain(digits_of(x));
    lemma_digits_are_plain(digits_of(y));
    let text = pair_text(x, y);
    let first = digits_of(x);
    assert forall|i: int| 0 <= i < text.len() implies plain_byte(#[trigger] text[i]) by {
        if i < first.len() {
            assert(text[i] == first[i]);
        } else if i == first.len() {
        } else {
            assert(text[i] == digits_of(y)[i - first.len() - 1]);
        }
    }
}

/// A written `Dimension` line sets the size.
proof fn lemma_read_dimension_line(width: usize, height: usize, sketch: Sketch)
    ensures
        spec_read_line(line_of(DIMENSION@, pair_text(width as nat, height as nat)), sketch) == Ok::<
            Sketch,
            LoadError,
        >(Sketch { width, height, ..sketch }),
        unbroken(line_of(DIMENSION@, pair_text(width as nat, height as nat))),
{
    let entry = pair_text(width as nat, height as nat);
    let line = line_of(DIMENSION@, entry);
    lemma_keywords();
    lemma_pair_is_inked(width as nat, height as nat);
    lemma_line(DIMENSION@, entry);
    lemma_read_pair(
        width,
        height,
        Seq::<u8>::empty(),
        LoadError::InvalidWidth,
        LoadError::MissingHeight,
        LoadError::InvalidHeight,
    );
    assert(entry + Seq::<u8>::empty() =~= entry);
    lemma_line_is_unbroken(DIMENSION@, entry);
}

/// A written `Wall` line adds its wall.
proof fn lemma_read_wall_line(x: usize, y: usize, sketch: Sketch)
    ensures
        spec_read_line(line_of(WALL@, pair_text(x as nat, y as nat)), sketch) == Ok::<
            Sketch,
            LoadError,
        >(Sketch { walls: sketch.walls.push((x, y)), ..sketch }),
        unbroken(line_of(WALL@, pair_text(x as nat, y as nat))),
{
    let entry = pair_text(x as nat, y as nat);
    let line = line_of(WALL@, entry);
    lemma_keywords();
    lemma_pair_is_inked(x as nat, y as nat);
    lemma_line(WALL@, entry);
    lemma_read_pair(
        x,
        y,
        Seq::<u8>::empty(),
        LoadError::InvalidX,
        LoadError::MissingY,
        LoadError::InvalidY,
    );
    assert(entry + Seq::<u8>::empty() =~= entry);
    lemma_line_is_unbroken(WALL@, entry);
}

/// A written `Exit` line adds its exit.
proof fn lemma_read_exit_line(x: usize, y: usize, reward: i64, sketch: Sketch)
    requires
        in_range(reward as int),
    ensures
        spec_read_line(line_of(EXIT@, exit_entry(x as nat, y as nat, reward as int)), sketch)
            == Ok::<Sketch, LoadError>(
            Sketch { exits: sketch.exits.push((x, y, reward)), ..sketch },
        ),
        unbroken(line_of(EXIT@, exit_entry(x as nat, y as nat, reward as int))),
{
    let pair = pair_text(x as nat, y as nat);
    let scalar = scalar_text(reward as int);
    let entry = exit_entry(x as nat, y as nat, reward as int);
    let line = line_of(EXIT@, entry);
    lemma_keywords();
    lemma_pair_is_inked(x as nat, y as nat);
    lemma_scalar_is_plain(reward as int);
    assert forall|i: int| 0 <= i < entry.len() implies plain_byte(#[trigger] entry[i]) by {
        if i < pair.len() {
            assert(entry[i] == pair[i]);
        } else if i == pair.len() {
        } else {
            assert(entry[i] == scalar[i - pair.len() - 1]);
        }
    }
    lemma_line(EXIT@, entry);
    let suffix = seq![COMMA] + scalar;
    assert(entry =~= pair + suffix);
    lemma_read_pair(x, y, suffix, LoadError::InvalidX, LoadError::MissingY, LoadError::InvalidY);
    assert(entry =~= (pair + seq![COMMA]) + scalar + Seq::<u8>::empty());
    lemma_field(pair + seq![COMMA], scalar, Seq::<u8>::empty());
    lemma_parse_scalar(reward);
    lemma_line_is_unbroken(EXIT@, entry);
}

/// A keyword, a space and an entry hold no line feed.
proof fn lemma_line_is_unbroken(keyword: Seq<u8>, entry: Seq<u8>)
    requires
        inked(keyword),
        inked(entry),
    ensures
        unbroken(line_of(keyword, entry)),
{
    let line = line_of(keyword, entry);
    let k = keyword.len() as int;
    assert forall|i: int| 0 <= i < line.len() implies #[trigger] line[i] != LINE_FEED by {
        if i < k {
            assert(line[i] == keyword[i]);
        } else if i == k {
        } else {
            assert(line[i] == entry[i - k - 1]);
        }
    }
}

/// A text that begins with an unbroken line and a line feed is read as that
/// line, then the rest.
proof fn lemma_read_first_line(line: Seq<u8>, rest: Seq<u8>, sketch: Sketch)
    requires
        unbroken(line),
    ensures
        spec_read_text(line + seq![LINE_FEED] + rest, sketch) == match spec_read_line(
            line,
            sketch,
        ) {
            Err(error) => Err::<Sketch, LoadError>(error),
            Ok(next) => spec_read_text(rest, next),
        },
{
    let text = line + seq![LINE_FEED] + rest;
    let end = line.len() as int;
    assert forall|k: int| 0 <= k < end implies !stops(
        Stop::Byte(LINE_FEED),
        #[trigger] text[k],
    ) by {
        assert(text[k] == line[k]);
    }
    assert(text[end] == LINE_FEED);
    lemma_find(text, 0, end, Stop::Byte(LINE_FEED));
    assert(text.take(end) =~= line);
    assert(text.skip(end + 1) =~= rest);
}

/// An empty text adds nothing.
proof fn lemma_read_nothing(sketch: Sketch)
    ensures
        spec_read_text(Seq::<u8>::empty(), sketch) == Ok::<Sketch, LoadError>(sketch),
{
    let text = Seq::<u8>::empty();
    lemma_keywords();
    assert(text.take(0) =~= text);
}

/// The column of the cell at index `i`.
spec fn column_of(chart: Chart, i: int) -> usize {
    (i % (chart.width as int)) as usize
}

/// The row of the cell at index `i`.
spec fn row_of(chart: Chart, i: int) -> usize {
    (i / (chart.width as int)) as usize
}

/// The walls at indices `from` and up, in the order of the cells.
spec fn wall_list(chart: Chart, from: int) -> Seq<(usize, usize)>
    decreases chart.board.len() - from,
{
    if 0 <= from < chart.board.len() {
        let here = if chart.board[from] != 0 {
            seq![(column_of(chart, from), row_of(chart, from))]
        } else {
            Seq::<(usize, usize)>::empty()
        };
        here + wall_list(chart, from + 1)
    } else {
        Seq::<(usize, usize)>::empty()
    }
}

/// The exits at indices `from` and up, in the order of the cells.
spec fn exit_list(chart: Chart, from: int) -> Seq<(usize, usize, i64)>
    decreases chart.exits.len() - from,
{
    if 0 <= from < chart.exits.len() {
        let here = match chart.exits[from] {
            Some(reward) => seq![(column_of(chart, from), row_of(chart, from), reward)],
            None => Seq::<(usize, usize, i64)>::empty(),
        };
        here + exit_list(chart, from + 1)
    } else {
        Seq::<(usize, usize, i64)>::empty()
    }
}

/// The written walls read back as the list of the walls.
proof fn lemma_read_walls(chart: Chart, from: int, rest: Seq<u8>, sketch: Sketch)
    requires
        chart.wf(),
        0 <= from <= chart.board.len(),
    ensures
        spec_read_text(walls_text(chart, from) + rest, sketch) == spec_read_text(
            rest,
            Sketch { walls: sketch.walls + wall_list(chart, from), ..sketch },
        ),
    decreases chart.board.len() - from,
{
    if from < chart.board.len() {
        lemma_cell_of_index(from, chart.width as int, chart.height as int);
        if chart.board[from] != 0 {
            let x = column_of(chart, from);
            let y = row_of(chart, from);
            let line = line_of(WALL@, pair_text(x as nat, y as nat));
            let next = Sketch { walls: sketch.walls.push((x, y)), ..sketch };
            let after = walls_text(chart, from + 1) + rest;
            lemma_read_wall_line(x, y, sketch);
            assert(walls_text(chart, from) + rest =~= line + seq![LINE_FEED] + after);
            lemma_read_first_line(line, after, sketch);
            lemma_read_walls(chart, from + 1, rest, next);
            assert(next.walls + wall_list(chart, from + 1) =~= sketch.walls + wall_list(
                chart,
                from,
            ));
        } else {
            assert(walls_text(chart, from) + rest =~= walls_text(chart, from + 1) + rest);
            lemma_read_walls(chart, from + 1, rest, sketch);
            assert(wall_list(chart, from) =~= wall_list(chart, from + 1));
        }
    } else {
        assert(walls_text(chart, from) + rest =~= rest);
        assert(sketch.walls + wall_list(chart, from) =~= sketch.walls);
    }
}

/// The written exits read back as the list of the exits.
proof fn lemma_read_exits(chart: Chart, from: int, rest: Seq<u8>, sketch: Sketch)
    requires
        chart.wf(),
        0 <= from <= chart.exits.len(),
    ensures
        spec_read_text(exits_text(chart, from) + rest, sketch) == spec_read_text(
            rest,
            Sketch { exits: sketch.exits + exit_list(chart, from), ..sketch },
        ),
    decreases chart.exits.len() - from,
{
    if from < chart.exits.len() {
        lemma_cell_of_index(from, chart.width as int, chart.height as int);
        match chart.exits[from] {
            Some(reward) => {
                let x = column_of(chart, from);
                let y = row_of(chart, from);
                let line = line_of(EXIT@, exit_entry(x as nat, y as nat, reward as int));
                let next = Sketch { exits: sketch.exits.push((x, y, reward)), ..sketch };
                let after = exits_text(chart, from + 1) + rest;
                lemma_read_exit_line(x, y, reward, sketch);
                assert(exits_text(chart, from) + rest =~= line + seq![LINE_FEED] + after);
                lemma_read_first_line(line, after, sketch);
                lemma_read_exits(chart, from + 1, rest, next);
                assert(next.exits + exit_list(chart, from + 1) =~= sketch.exits + exit_list(
                    chart,
                    from,
                ));
            },
            None => {
                assert(exits_text(chart, from) + rest =~= exits_text(chart, from + 1) + rest);
                lemma_read_exits(chart, from + 1, rest, sketch);
                assert(exit_list(chart, from) =~= exit_list(chart, from + 1));
            },
        }
    } else {
        assert(exits_text(chart, from) + rest =~= rest);
        assert(sketch.exits + exit_list(chart, from) =~= sketch.exits);
    }
}

/// Placing a list of walls places the first, then the others.
proof fn lemma_with_walls_first(base: Chart, first: (usize, usize), others: Seq<(usize, usize)>)
    ensures
        base.with_walls(seq![first] + others) == base.with_wall(
            first.0 as int,
            first.1 as int,
        ).with_walls(others),
    decreases others.len(),
{
    let all = seq![first] + others;
    if others.len() == 0 {
        assert(all.drop_last() =~= Seq::<(usize, usize)>::empty());
        assert(base.with_walls(all.drop_last()) == base);
    } else {
        assert(all.drop_last() =~= seq![first] + others.drop_last());
        lemma_with_walls_first(base, first, others.drop_last());
    }
}

/// Placing a list of exits places the first, then the others.
proof fn lemma_with_exits_first(
    base: Chart,
    first: (usize, usize, i64),
    others: Seq<(usize, usize, i64)>,
)
    ensures
        base.with_exits(seq![first] + others) == base.with_exit(
            first.0 as int,
            first.1 as int,
            first.2,
        ).with_exits(others),
    decreases others.len(),
{
    let all = seq![first] + others;
    if others.len() == 0 {
        assert(all.drop_last() =~= Seq::<(usize, usize, i64)>::empty());
        assert(base.with_exits(all.drop_last()) == base);
    } else {
        assert(all.drop_last() =~= seq![first] + others.drop_last());
        lemma_with_exits_first(base, first, others.drop_last());
    }
}

/// Placing the list of a grid's walls on a grid of the same size marks what
/// the list names, from index `from` up, and leaves everything else.
proof fn lemma_place_walls(chart: Chart, from: int, base: Chart)
    requires
        chart.wf(),
        base.width == chart.width,
        base.height == chart.height,
        base.board.len() == chart.board.len(),
        0 <= from <= chart.board.len(),
    ensures
        ({
            let placed = base.with_walls(wall_list(chart, from));
            &&& placed.width == base.width
            &&& placed.height == base.height
            &&& placed.exits == base.exits
            &&& placed.board.len() == base.board.len()
            &&& forall|i: int|
                0 <= i < placed.board.len() ==> #[trigger] placed.board[i] == if i >= from
                    && chart.board[i] != 0 {
                    1usize
                } else {
                    base.board[i]
                }
        }),
    decreases chart.board.len() - from,
{
    if from < chart.board.len() {
        lemma_cell_of_index(from, chart.width as int, chart.height as int);
        if chart.board[from] != 0 {
            let cell = (column_of(chart, from), row_of(chart, from));
            lemma_with_walls_first(base, cell, wall_list(chart, from + 1));
            lemma_place_walls(chart, from + 1, base.with_wall(cell.0 as int, cell.1 as int));
        } else {
            assert(wall_list(chart, from) =~= wall_list(chart, from + 1));
            lemma_place_walls(chart, from + 1, base);
        }
    }
}

/// Placing the list of a grid's exits on a grid of the same size sets what
/// the list names, from index `from` up, and leaves everything else.
proof fn lemma_place_exits(chart: Chart, from: int, base: Chart)
    requires
        chart.wf(),
        base.width == chart.width,
        base.height == chart.height,
        base.exits.len() == chart.exits.len(),
        0 <= from <= chart.exits.len(),
    ensures
        ({
            let placed = base.with_exits(exit_list(chart, from));
            &&& placed.width == base.width
            &&& placed.height == base.height
            &&& placed.board == base.board
            &&& placed.exits.len() == base.exits.len()
            &&& forall|i: int|
                0 <= i < placed.exits.len() ==> #[trigger] placed.exits[i] == if i >= from
                    && chart.exits[i] is Some {
                    chart.exits[i]
                } else {
                    base.exits[i]
                }
        }),
    decreases chart.exits.len() - from,
{
    if from < chart.exits.len() {
        lemma_cell_of_index(from, chart.width as int, chart.height as int);
        match chart.exits[from] {
            Some(reward) => {
                let cell = (column_of(chart, from), row_of(chart, from), reward);
                lemma_with_exits_first(base, cell, exit_list(chart, from + 1));
                lemma_place_exits(
                    chart,
                    from + 1,
                    base.with_exit(cell.0 as int, cell.1 as int, cell.2),
                );
            },
            None => {
                assert(exit_list(chart, from) =~= exit_list(chart, from + 1));
                lemma_place_exits(chart, from + 1, base);
            },
        }
    }
}

/// Writing a grid and reading the text back gives a grid of the same size in
/// which every cell is open, is an exit, and pays as an exit, exactly as in
/// the grid that was written.
pub proof fn lemma_save_then_load(chart: Chart)
    requires
        chart.wf(),
    ensures
        spec_load(spec_save(chart)) matches Ok(loaded) && {
            &&& loaded.wf()
            &&& loaded.width == chart.width
            &&& loaded.height == chart.height
            &&& loaded.exits == chart.exits
            &&& forall|x: int, y: int| #[trigger] loaded.open_at(x, y) == chart.open_at(x, y)
            &&& forall|x: int, y: int| #[trigger] loaded.exit_at(x, y) == chart.exit_at(x, y)
        },
{
    let empty = Seq::<u8>::empty();
    let start = Sketch::empty();
    let sized = Sketch { width: chart.width, height: chart.height, ..start };
    let header = line_of(DIMENSION@, pair_text(chart.width as nat, chart.height as nat));
    let walls = walls_text(chart, 0);
    let exits = exits_text(chart, 0);
    let walled = Sketch { walls: wall_list(chart, 0), ..sized };
    let done = Sketch { exits: exit_list(chart, 0), ..walled };

    lemma_read_dimension_line(chart.width, chart.height, start);
    assert(spec_save(chart) =~= header + seq![LINE_FEED] + (walls + exits));
    lemma_read_first_line(header, walls + exits, start);
    lemma_read_walls(chart, 0, exits, sized);
    assert(sized.walls + wall_list(chart, 0) =~= wall_list(chart, 0));
    assert(exits =~= exits + empty);
    lemma_read_exits(chart, 0, empty, walled);
    assert(walled.exits + exit_list(chart, 0) =~= exit_list(chart, 0));
    lemma_read_nothing(done);
    assert(spec_parse(spec_save(chart)) == Ok::<Sketch, LoadError>(done));

    let blank = Chart::blank(chart.width, chart.height);
    lemma_place_walls(chart, 0, blank);
    let with_walls = blank.with_walls(wall_list(chart, 0));
    lemma_place_exits(chart, 0, with_walls);
    let loaded = with_walls.with_exits(exit_list(chart, 0));
    assert(spec_build(done) == Ok::<Chart, LoadError>(loaded));
    assert(loaded.exits =~= chart.exits);
    assert forall|x: int, y: int| #[trigger] loaded.open_at(x, y) == chart.open_at(x, y) by {
        if chart.on_grid(x, y) {
            crate::world::lemma_index_in_area(x, y, chart.width as int, chart.height as int);
        }
    }
}

} // verus!
