//! The text form of a grid.
//!
//! The text is read line by line. Blanks, which are the white space of
//! Unicode in UTF-8, part a line into runs of bytes; the first run is its
//! keyword, the second its entry.
//! `Dimension <w>,<h>` sets the size, `Wall <x>,<y>` names a wall and
//! `Exit <x>,<y>,<reward>` an exit; the last `Dimension` line decides, and
//! walls and exits are placed once the size is known. Every line with another
//! keyword is passed over, and so is a comment, which begins with `#`, and a
//! blank line.
use crate::decimal::{parse_scalar, spec_parse_scalar};
use crate::fixed::in_range;
use crate::world::{Chart, World};
use vstd::prelude::*;
use vstd::slice::slice_subrange;

verus! {

pub const LINE_FEED: u8 = 10;

pub const SPACE: u8 = 32;

pub const PLUS: u8 = 43;

pub const COMMA: u8 = 44;

pub const MINUS: u8 = 45;

pub const DOT: u8 = 46;

pub const ZERO: u8 = 48;

pub const LARGE_E: u8 = 69;

pub const SMALL_E: u8 = 101;

/// The bytes of `Dimension`.
pub const DIMENSION: [u8; 9] = [68, 105, 109, 101, 110, 115, 105, 111, 110];

/// The bytes of `Wall`.
pub const WALL: [u8; 4] = [87, 97, 108, 108];

/// The bytes of `Exit`.
pub const EXIT: [u8; 4] = [69, 120, 105, 116];

/// Why a text is not the text of a grid.
#[derive(Clone, Copy, Debug, PartialEq, Eq, Structural)]
pub enum LoadError {
    /// A `Dimension`, `Wall` or `Exit` line holds nothing after its keyword.
    MissingEntry,
    /// The first field of a `Dimension` line is no number.
    InvalidWidth,
    /// A `Dimension` line has one field only.
    MissingHeight,
    /// The second field of a `Dimension` line is no number.
    InvalidHeight,
    /// The first field of a `Wall` or `Exit` line is no number.
    InvalidX,
    /// A `Wall` or `Exit` line has one field only.
    MissingY,
    /// The second field of a `Wall` or `Exit` line is no number.
    InvalidY,
    /// An `Exit` line has two fields only.
    MissingReward,
    /// The third field of an `Exit` line is no decimal in range.
    InvalidReward,
    /// The grid has more cells than the machine can count.
    TooLarge,
}

/// What a scan of bytes stops at.
#[derive(Clone, Copy, Debug, PartialEq, Eq, Structural)]
pub enum Stop {
    /// The given byte.
    Byte(u8),
    /// An `e` or an `E`, which begins an exponent.
    Exponent,
}

/// The blanks of one byte: space, tab, line feed, vertical tab, form feed
/// and carriage return.
pub open spec fn is_blank(b: u8) -> bool {
    b == SPACE || 9 <= b <= 13
}

/// How many bytes the blank character that begins at place `i` takes, or
/// zero if none begins there. Besides the blanks of one byte, the blanks are
/// the white space of Unicode in UTF-8: U+0085 and U+00A0 in two bytes,
/// U+1680, U+2000 to U+200A, U+2028, U+2029, U+202F, U+205F and U+3000 in
/// three.
pub open spec fn blank_len(s: Seq<u8>, i: int) -> int {
    if i < 0 || i >= s.len() {
        0
    } else if is_blank(s[i]) {
        1
    } else if i + 1 < s.len() && s[i] == 0xC2 && (s[i + 1] == 0x85 || s[i + 1] == 0xA0) {
        2
    } else if i + 2 < s.len() && s[i] == 0xE1 && s[i + 1] == 0x9A && s[i + 2] == 0x80 {
        3
    } else if i + 2 < s.len() && s[i] == 0xE2 && s[i + 1] == 0x80 && (0x80 <= s[i + 2] <= 0x8A
        || s[i + 2] == 0xA8 || s[i + 2] == 0xA9 || s[i + 2] == 0xAF) {
        3
    } else if i + 2 < s.len() && s[i] == 0xE2 && s[i + 1] == 0x81 && s[i + 2] == 0x9F {
        3
    } else if i + 2 < s.len() && s[i] == 0xE3 && s[i + 1] == 0x80 && s[i + 2] == 0x80 {
        3
    } else {
        0
    }
}

/// The first place at or after `from` where a blank begins, or the length
/// where none does.
pub open spec fn next_blank(s: Seq<u8>, from: int) -> int
    decreases s.len() - from,
{
    if from >= s.len() {
        s.len() as int
    } else if blank_len(s, from) > 0 {
        from
    } else {
        next_blank(s, from + 1)
    }
}

/// The first place at or after `from` that lies behind the blanks that
/// begin at `from`.
pub open spec fn next_mark(s: Seq<u8>, from: int) -> int
    decreases s.len() - from,
{
    if 0 <= from < s.len() && blank_len(s, from) > 0 {
        next_mark(s, from + blank_len(s, from))
    } else {
        from
    }
}

/// Whether a scan stops at byte `b`.
pub open spec fn stops(stop: Stop, b: u8) -> bool {
    match stop {
        Stop::Byte(c) => b == c,
        Stop::Exponent => b == SMALL_E || b == LARGE_E,
    }
}

/// The first place at or after `from` where a scan stops, or the length
/// where it stops nowhere.
pub open spec fn find(s: Seq<u8>, from: int, stop: Stop) -> int
    decreases s.len() - from,
{
    if from >= s.len() {
        s.len() as int
    } else if stops(stop, s[from]) {
        from
    } else {
        find(s, from + 1, stop)
    }
}

/// The entry of a line: its second run of bytes without a blank.
pub open spec fn entry_of(line: Seq<u8>) -> Option<Seq<u8>> {
    let keyword = next_mark(line, 0);
    let gap = next_blank(line, keyword);
    let start = next_mark(line, gap);
    if start >= line.len() {
        None
    } else {
        Some(line.subrange(start, next_blank(line, start)))
    }
}

/// Where the field that starts at `from` ends: at the next comma or at the
/// end of the entry.
pub open spec fn field_end(entry: Seq<u8>, from: int) -> int {
    find(entry, from, Stop::Byte(COMMA))
}

/// The field that starts at `from`.
pub open spec fn field_at(entry: Seq<u8>, from: int) -> Seq<u8> {
    entry.subrange(from, field_end(entry, from))
}

/// Where the field after the one at `from` starts, if a comma follows.
pub open spec fn next_field(entry: Seq<u8>, from: int) -> Option<int> {
    if field_end(entry, from) >= entry.len() {
        None
    } else {
        Some(field_end(entry, from) + 1)
    }
}

pub open spec fn is_digit(b: u8) -> bool {
    ZERO <= b <= ZERO + 9
}

pub open spec fn all_digits(s: Seq<u8>) -> bool {
    forall|i: int| 0 <= i < s.len() ==> is_digit(#[trigger] s[i])
}

/// The number that decimal digits spell; zero for no digits.
pub open spec fn number(s: Seq<u8>) -> nat
    decreases s.len(),
{
    if s.len() == 0 {
        0
    } else {
        (number(s.drop_last()) * 10 + (s.last() - ZERO)) as nat
    }
}

/// The number that a field spells, if it is digits after an optional `+`
/// and the machine can count that far.
pub open spec fn spec_parse_index(field: Seq<u8>) -> Option<usize> {
    let digits = if field.len() > 0 && field[0] == PLUS {
        field.skip(1)
    } else {
        field
    };
    if digits.len() > 0 && all_digits(digits) && number(digits) <= usize::MAX {
        Some(number(digits) as usize)
    } else {
        None
    }
}

/// What has been read of a text: the size, and the walls and exits in the
/// order of their lines.
pub struct Sketch {
    pub width: usize,
    pub height: usize,
    pub walls: Seq<(usize, usize)>,
    pub exits: Seq<(usize, usize, i64)>,
}

impl Sketch {
    /// Nothing read yet: no cells, no walls, no exits.
    pub open spec fn empty() -> Sketch {
        Sketch { width: 0, height: 0, walls: Seq::empty(), exits: Seq::empty() }
    }

    /// Every reward is in range.
    pub open spec fn wf(self) -> bool {
        forall|i: int| 0 <= i < self.exits.len() ==> in_range((#[trigger] self.exits[i]).2 as int)
    }
}

/// The first two fields of an entry as numbers, and where the second field
/// starts. The errors are those of the line's kind.
pub open spec fn spec_read_pair(
    entry: Seq<u8>,
    first_invalid: LoadError,
    second_missing: LoadError,
    second_invalid: LoadError,
) -> Result<(usize, usize, int), LoadError> {
    match spec_parse_index(field_at(entry, 0)) {
        None => Err(first_invalid),
        Some(first) => match next_field(entry, 0) {
            None => Err(second_missing),
            Some(from) => match spec_parse_index(field_at(entry, from)) {
                None => Err(second_invalid),
                Some(second) => Ok((first, second, from)),
            },
        },
    }
}

/// What a `Dimension` line adds to a sketch.
pub open spec fn spec_read_dimension(entry: Option<Seq<u8>>, sketch: Sketch) -> Result<
    Sketch,
    LoadError,
> {
    match entry {
        None => Err(LoadError::MissingEntry),
        Some(e) => match spec_read_pair(
            e,
            LoadError::InvalidWidth,
            LoadError::MissingHeight,
            LoadError::InvalidHeight,
        ) {
            Err(error) => Err(error),
            Ok((width, height, _)) => Ok(Sketch { width, height, ..sketch }),
        },
    }
}

/// What a `Wall` line adds to a sketch.
pub open spec fn spec_read_wall(entry: Option<Seq<u8>>, sketch: Sketch) -> Result<
    Sketch,
    LoadError,
> {
    match entry {
        None => Err(LoadError::MissingEntry),
        Some(e) => match spec_read_pair(
            e,
            LoadError::InvalidX,
            LoadError::MissingY,
            LoadError::InvalidY,
        ) {
            Err(error) => Err(error),
            Ok((x, y, _)) => Ok(Sketch { walls: sketch.walls.push((x, y)), ..sketch }),
        },
    }
}

/// What an `Exit` line adds to a sketch.
pub open spec fn spec_read_exit(entry: Option<Seq<u8>>, sketch: Sketch) -> Result<
    Sketch,
    LoadError,
> {
    match entry {
        None => Err(LoadError::MissingEntry),
        Some(e) => match spec_read_pair(
            e,
            LoadError::InvalidX,
            LoadError::MissingY,
            LoadError::InvalidY,
        ) {
            Err(error) => Err(error),
            Ok((x, y, from)) => match next_field(e, from) {
                None => Err(LoadError::MissingReward),
                Some(third) => match spec_parse_scalar(field_at(e, third)) {
                    None => Err(LoadError::InvalidReward),
                    Some(reward) => Ok(
                        Sketch { exits: sketch.exits.push((x, y, reward)), ..sketch },
                    ),
                },
            },
        },
    }
}

/// The keyword of a line: its first run of bytes without a blank.
pub open spec fn keyword_of(line: Seq<u8>) -> Seq<u8> {
    let start = next_mark(line, 0);
    line.subrange(start, next_blank(line, start))
}

/// What one line adds to a sketch. The keyword decides the line's kind; a
/// line whose keyword is none of the three, such as a comment, adds nothing.
pub open spec fn spec_read_line(line: Seq<u8>, sketch: Sketch) -> Result<Sketch, LoadError> {
    let keyword = keyword_of(line);
    if keyword == DIMENSION@ {
        spec_read_dimension(entry_of(line), sketch)
    } else if keyword == WALL@ {
        spec_read_wall(entry_of(line), sketch)
    } else if keyword == EXIT@ {
        spec_read_exit(entry_of(line), sketch)
    } else {
        Ok(sketch)
    }
}

/// What a text adds to a sketch, line by line; the first line that fails
/// decides the error.
pub open spec fn spec_read_text(text: Seq<u8>, sketch: Sketch) -> Result<Sketch, LoadError>
    decreases text.len(),
{
    let end = find(text, 0, Stop::Byte(LINE_FEED));
    match spec_read_line(text.take(end), sketch) {
        Err(error) => Err(error),
        Ok(next) => if 0 <= end < text.len() {
            spec_read_text(text.skip(end + 1), next)
        } else {
            Ok(next)
        },
    }
}

/// The sketch that a text spells.
pub open spec fn spec_parse(text: Seq<u8>) -> Result<Sketch, LoadError> {
    spec_read_text(text, Sketch::empty())
}

impl Chart {
    /// The grid with the walls of a list, placed in the order of the list.
    pub open spec fn with_walls(self, walls: Seq<(usize, usize)>) -> Chart
        decreases walls.len(),
    {
        if walls.len() == 0 {
            self
        } else {
            self.with_walls(walls.drop_last()).with_wall(
                walls.last().0 as int,
                walls.last().1 as int,
            )
        }
    }

    /// The grid with the exits of a list, placed in the order of the list.
    pub open spec fn with_exits(self, exits: Seq<(usize, usize, i64)>) -> Chart
        decreases exits.len(),
    {
        if exits.len() == 0 {
            self
        } else {
            self.with_exits(exits.drop_last()).with_exit(
                exits.last().0 as int,
                exits.last().1 as int,
                exits.last().2,
            )
        }
    }
}

/// The grid that a sketch describes: a blank grid of its size, then its
/// walls, then its exits.
pub open spec fn spec_build(sketch: Sketch) -> Result<Chart, LoadError> {
    if sketch.width * sketch.height > usize::MAX {
        Err(LoadError::TooLarge)
    } else {
        Ok(Chart::blank(sketch.width, sketch.height).with_walls(sketch.walls).with_exits(sketch.exits))
    }
}

/// The grid that a text describes.
pub open spec fn spec_load(text: Seq<u8>) -> Result<Chart, LoadError> {
    match spec_parse(text) {
        Err(error) => Err(error),
        Ok(sketch) => spec_build(sketch),
    }
}

/// A place that nothing before it stops a scan, and that stops it or is the
/// end, is where the scan stops.
pub proof fn lemma_find(s: Seq<u8>, from: int, at: int, stop: Stop)
    requires
        0 <= from <= at <= s.len(),
        forall|k: int| from <= k < at ==> !stops(stop, #[trigger] s[k]),
        at < s.len() ==> stops(stop, s[at]),
    ensures
        find(s, from, stop) == at,
    decreases at - from,
{
    if from < at {
        lemma_find(s, from + 1, at, stop);
    }
}

/// More digits never spell a smaller number.
pub proof fn lemma_number_grows(s: Seq<u8>, k: int)
    requires
        0 <= k <= s.len(),
        all_digits(s),
    ensures
        number(s.take(k)) <= number(s),
    decreases s.len() - k,
{
    if k < s.len() {
        lemma_number_grows(s, k + 1);
        assert(s.take(k + 1).drop_last() =~= s.take(k));
        assert(is_digit(s[k]));
    } else {
        assert(s.take(k) =~= s);
    }
}

/// Whether a scan stops at byte `b`.
pub fn hits(stop: Stop, b: u8) -> (hit: bool)
    ensures
        hit == stops(stop, b),
{
    match stop {
        Stop::Byte(c) => b == c,
        Stop::Exponent => b == SMALL_E || b == LARGE_E,
    }
}

/// A place that no blank begins before, and where one begins or the bytes
/// end, is where the next blank begins.
pub proof fn lemma_next_blank(s: Seq<u8>, from: int, at: int)
    requires
        0 <= from <= at <= s.len(),
        forall|k: int| from <= k < at ==> #[trigger] blank_len(s, k) == 0,
        at < s.len() ==> blank_len(s, at) > 0,
    ensures
        next_blank(s, from) == at,
    decreases at - from,
{
    if from < at {
        assert(blank_len(s, from) == 0);
        lemma_next_blank(s, from + 1, at);
    }
}

/// How many bytes the blank character that begins at place `at` takes, or
/// zero if none begins there.
pub fn blank_length(bytes: &[u8], at: usize) -> (length: usize)
    requires
        at < bytes@.len(),
    ensures
        length == blank_len(bytes@, at as int),
        at + length <= bytes@.len(),
{
    let n = bytes.len();
    let b = bytes[at];
    if b == SPACE || (9 <= b && b <= 13) {
        1
    } else if n - at >= 2 && b == 0xC2 && (bytes[at + 1] == 0x85 || bytes[at + 1] == 0xA0) {
        2
    } else if n - at >= 3 {
        let c = bytes[at + 1];
        let d = bytes[at + 2];
        if b == 0xE1 && c == 0x9A && d == 0x80 {
            3
        } else if b == 0xE2 && c == 0x80 && ((0x80 <= d && d <= 0x8A) || d == 0xA8 || d == 0xA9
            || d == 0xAF) {
            3
        } else if b == 0xE2 && c == 0x81 && d == 0x9F {
            3
        } else if b == 0xE3 && c == 0x80 && d == 0x80 {
            3
        } else {
            0
        }
    } else {
        0
    }
}

/// The first place at or after `from` where a blank begins, or the length
/// where none does.
pub fn scan_blank(bytes: &[u8], from: usize) -> (at: usize)
    requires
        from <= bytes@.len(),
    ensures
        at == next_blank(bytes@, from as int),
        from <= at <= bytes@.len(),
{
    let mut at: usize = from;
    while at < bytes.len() && blank_length(bytes, at) == 0
        invariant
            from <= at <= bytes@.len(),
            forall|k: int| from <= k < at ==> #[trigger] blank_len(bytes@, k) == 0,
        decreases bytes@.len() - at,
    {
        at += 1;
    }
    proof {
        lemma_next_blank(bytes@, from as int, at as int);
    }
    at
}

/// The first place at or after `from` that lies behind the blanks that
/// begin at `from`.
pub fn scan_mark(bytes: &[u8], from: usize) -> (at: usize)
    requires
        from <= bytes@.len(),
    ensures
        at == next_mark(bytes@, from as int),
        from <= at <= bytes@.len(),
{
    let mut at: usize = from;
    while at < bytes.len() && blank_length(bytes, at) > 0
        invariant
            from <= at <= bytes@.len(),
            next_mark(bytes@, at as int) == next_mark(bytes@, from as int),
        decreases bytes@.len() - at,
    {
        at += blank_length(bytes, at);
    }
    at
}

/// The first place at or after `from` where a scan stops, or the length
/// where it stops nowhere.
pub fn scan(bytes: &[u8], from: usize, stop: Stop) -> (at: usize)
    requires
        from <= bytes@.len(),
    ensures
        at == find(bytes@, from as int, stop),
        from <= at <= bytes@.len(),
        forall|k: int| from <= k < at ==> !stops(stop, #[trigger] bytes@[k]),
        at < bytes@.len() ==> stops(stop, bytes@[at as int]),
{
    let mut at: usize = from;
    while at < bytes.len() && !hits(stop, bytes[at])
        invariant
            from <= at <= bytes@.len(),
            forall|k: int| from <= k < at ==> !stops(stop, #[trigger] bytes@[k]),
        decreases bytes@.len() - at,
    {
        at += 1;
    }
    proof {
        lemma_find(bytes@, from as int, at as int, stop);
    }
    at
}

/// Whether two runs of bytes are the same.
pub fn same(bytes: &[u8], word: &[u8]) -> (b: bool)
    ensures
        b == (bytes@ == word@),
{
    if word.len() != bytes.len() {
        return false;
    }
    let mut i: usize = 0;
    while i < word.len()
        invariant
            word@.len() == bytes@.len(),
            i <= word@.len(),
            forall|k: int| 0 <= k < i ==> bytes@[k] == word@[k],
        decreases word@.len() - i,
    {
        if bytes[i] != word[i] {
            return false;
        }
        i += 1;
    }
    assert(bytes@ =~= word@);
    true
}

/// The entry of a line: its second run of bytes without a blank.
pub fn entry<'a>(line: &'a [u8]) -> (found: Option<&'a [u8]>)
    ensures
        found matches Some(e) ==> entry_of(line@) == Some(e@),
        found is None ==> entry_of(line@) is None,
{
    let keyword = scan_mark(line, 0);
    let gap = scan_blank(line, keyword);
    let start = scan_mark(line, gap);
    if start >= line.len() {
        None
    } else {
        let end = scan_blank(line, start);
        Some(slice_subrange(line, start, end))
    }
}

/// The number that digits spell, if they are all digits and spell no more
/// than `cap`.
pub fn read_number(digits: &[u8], cap: usize) -> (found: Option<usize>)
    ensures
        found == if all_digits(digits@) && number(digits@) <= cap {
            Some(number(digits@) as usize)
        } else {
            None::<usize>
        },
{
    let mut value: usize = 0;
    let mut i: usize = 0;
    assert(digits@.take(0) =~= Seq::<u8>::empty());
    while i < digits.len()
        invariant
            i <= digits@.len(),
            all_digits(digits@.take(i as int)),
            value == number(digits@.take(i as int)),
            value <= cap,
        decreases digits@.len() - i,
    {
        let b = digits[i];
        if b < ZERO || b > ZERO + 9 {
            assert(!is_digit(digits@[i as int]));
            return None;
        }
        assert(digits@.take(i + 1).drop_last() =~= digits@.take(i as int));
        assert(digits@.take(i + 1).last() == b);
        proof {
            if all_digits(digits@) {
                lemma_number_grows(digits@, i + 1);
            }
        }
        let digit: usize = (b - ZERO) as usize;
        let next = match value.checked_mul(10) {
            None => {
                return None;
            },
            Some(tens) => match tens.checked_add(digit) {
                None => {
                    return None;
                },
                Some(next) => next,
            },
        };
        if next > cap {
            return None;
        }
        value = next;
        assert forall|k: int| 0 <= k < i + 1 implies is_digit(
            #[trigger] digits@.take(i + 1)[k],
        ) by {
            if k < i {
                assert(digits@.take(i + 1)[k] == digits@.take(i as int)[k]);
            }
        }
        i += 1;
    }
    assert(digits@.take(digits@.len() as int) =~= digits@);
    Some(value)
}

/// The number that a field spells, if it is digits after an optional `+`
/// and the machine can count that far.
pub fn parse_index(field: &[u8]) -> (found: Option<usize>)
    ensures
        found == spec_parse_index(field@),
{
    let start: usize = if field.len() > 0 && field[0] == PLUS {
        1
    } else {
        0
    };
    let digits = slice_subrange(field, start, field.len());
    assert(digits@ =~= if field@.len() > 0 && field@[0] == PLUS {
        field@.skip(1)
    } else {
        field@
    });
    if digits.len() == 0 {
        return None;
    }
    read_number(digits, usize::MAX)
}

/// Whether every byte is a digit.
pub fn are_digits(bytes: &[u8]) -> (all: bool)
    ensures
        all == all_digits(bytes@),
{
    let mut i: usize = 0;
    while i < bytes.len()
        invariant
            i <= bytes@.len(),
            forall|k: int| 0 <= k < i ==> is_digit(#[trigger] bytes@[k]),
        decreases bytes@.len() - i,
    {
        if bytes[i] < ZERO || bytes[i] > ZERO + 9 {
            assert(!is_digit(bytes@[i as int]));
            return false;
        }
        i += 1;
    }
    true
}

/// What has been read of a text: the size, and the walls and exits in the
/// order of their lines.
pub struct Description {
    pub width: usize,
    pub height: usize,
    pub walls: Vec<(usize, usize)>,
    pub exits: Vec<(usize, usize, i64)>,
}

impl View for Description {
    type V = Sketch;

    open spec fn view(&self) -> Sketch {
        Sketch { width: self.width, height: self.height, walls: self.walls@, exits: self.exits@ }
    }
}

/// The first two fields of an entry as numbers, and where the second field
/// starts. The errors are those of the line's kind.
pub fn read_pair(
    entry: &[u8],
    first_invalid: LoadError,
    second_missing: LoadError,
    second_invalid: LoadError,
) -> (found: Result<(usize, usize, usize), LoadError>)
    ensures
        found matches Ok(pair) ==> spec_read_pair(
            entry@,
            first_invalid,
            second_missing,
            second_invalid,
        ) == Ok::<(usize, usize, int), LoadError>((pair.0, pair.1, pair.2 as int)) && pair.2
            <= entry@.len(),
        found matches Err(error) ==> spec_read_pair(
            entry@,
            first_invalid,
            second_missing,
            second_invalid,
        ) == Err::<(usize, usize, int), LoadError>(error),
{
    let end = scan(entry, 0, Stop::Byte(COMMA));
    let first = match parse_index(slice_subrange(entry, 0, end)) {
        None => {
            return Err(first_invalid);
        },
        Some(first) => first,
    };
    if end >= entry.len() {
        return Err(second_missing);
    }
    let from = end + 1;
    let stop = scan(entry, from, Stop::Byte(COMMA));
    match parse_index(slice_subrange(entry, from, stop)) {
        None => Err(second_invalid),
        Some(second) => Ok((first, second, from)),
    }
}

/// Adds what one line says to a description.
pub fn read_line(line: &[u8], description: &mut Description) -> (read: Result<(), LoadError>)
    requires
        old(description)@.wf(),
    ensures
        read is Ok ==> spec_read_line(line@, old(description)@) == Ok::<Sketch, LoadError>(
            final(description)@,
        ) && final(description)@.wf(),
        read matches Err(error) ==> spec_read_line(line@, old(description)@) == Err::<
            Sketch,
            LoadError,
        >(error),
{
    let start = scan_mark(line, 0);
    let keyword = slice_subrange(line, start, scan_blank(line, start));
    if same(keyword, &DIMENSION) {
        let e = match entry(line) {
            None => {
                return Err(LoadError::MissingEntry);
            },
            Some(e) => e,
        };
        match read_pair(
            e,
            LoadError::InvalidWidth,
            LoadError::MissingHeight,
            LoadError::InvalidHeight,
        ) {
            Err(error) => Err(error),
            Ok((width, height, _)) => {
                description.width = width;
                description.height = height;
                Ok(())
            },
        }
    } else if same(keyword, &WALL) {
        let e = match entry(line) {
            None => {
                return Err(LoadError::MissingEntry);
            },
            Some(e) => e,
        };
        match read_pair(e, LoadError::InvalidX, LoadError::MissingY, LoadError::InvalidY) {
            Err(error) => Err(error),
            Ok((x, y, _)) => {
                description.walls.push((x, y));
                Ok(())
            },
        }
    } else if same(keyword, &EXIT) {
        let e = match entry(line) {
            None => {
                return Err(LoadError::MissingEntry);
            },
            Some(e) => e,
        };
        match read_pair(e, LoadError::InvalidX, LoadError::MissingY, LoadError::InvalidY) {
            Err(error) => Err(error),
            Ok((x, y, from)) => {
                let end = scan(e, from, Stop::Byte(COMMA));
                if end >= e.len() {
                    return Err(LoadError::MissingReward);
                }
                let third = end + 1;
                let stop = scan(e, third, Stop::Byte(COMMA));
                match parse_scalar(slice_subrange(e, third, stop)) {
                    None => Err(LoadError::InvalidReward),
                    Some(reward) => {
                        description.exits.push((x, y, reward));
                        Ok(())
                    },
                }
            },
        }
    } else {
        Ok(())
    }
}

/// Reads a text into a description; the first line that fails decides the
/// error.
pub fn parse(text: &[u8]) -> (parsed: Result<Description, LoadError>)
    ensures
        parsed matches Ok(description) ==> spec_parse(text@) == Ok::<Sketch, LoadError>(
            description@,
        ) && description@.wf(),
        parsed matches Err(error) ==> spec_parse(text@) == Err::<Sketch, LoadError>(error),
{
    let mut description = Description {
        width: 0,
        height: 0,
        walls: Vec::new(),
        exits: Vec::new(),
    };
    let mut from: usize = 0;
    assert(text@.skip(0) =~= text@);
    loop
        invariant
            from <= text@.len(),
            description@.wf(),
            spec_read_text(text@.skip(from as int), description@) == spec_parse(text@),
        decreases text@.len() - from,
    {
        let end = scan(text, from, Stop::Byte(LINE_FEED));
        let line = slice_subrange(text, from, end);
        proof {
            let rest = text@.skip(from as int);
            lemma_find(rest, 0, end - from, Stop::Byte(LINE_FEED));
            assert(rest.take(end - from) =~= line@);
            if end < text@.len() {
                assert(rest.skip(end - from + 1) =~= text@.skip(end + 1));
            }
        }
        match read_line(line, &mut description) {
            Err(error) => {
                return Err(error);
            },
            Ok(()) => {},
        }
        if end >= text.len() {
            return Ok(description);
        }
        from = end + 1;
    }
}

impl World {
    /// The grid that a description describes: a blank grid of its size, then
    /// its walls, then its exits, each in the order of the list. A wall or an
    /// exit off the grid is passed over.
    pub fn build(description: &Description) -> (built: Result<World, LoadError>)
        requires
            description@.wf(),
        ensures
            built matches Ok(world) ==> spec_build(description@) == Ok::<Chart, LoadError>(world@)
                && world.wf(),
            built matches Err(error) ==> spec_build(description@) == Err::<Chart, LoadError>(
                error,
            ),
    {
        let mut world = match description.width.checked_mul(description.height) {
            None => {
                return Err(LoadError::TooLarge);
            },
            Some(_) => World::new(description.width, description.height),
        };
        let ghost blank = world@;
        let mut i: usize = 0;
        assert(description.walls@.take(0) =~= Seq::<(usize, usize)>::empty());
        while i < description.walls.len()
            invariant
                i <= description.walls@.len(),
                world.wf(),
                world@ == blank.with_walls(description.walls@.take(i as int)),
            decreases description.walls@.len() - i,
        {
            let wall = description.walls[i];
            assert(description.walls@.take(i + 1).drop_last() =~= description.walls@.take(
                i as int,
            ));
            world.add_wall(wall.0, wall.1);
            i += 1;
        }
        assert(description.walls@.take(i as int) =~= description.walls@);
        let ghost walled = world@;
        let mut j: usize = 0;
        assert(description.exits@.take(0) =~= Seq::<(usize, usize, i64)>::empty());
        while j < description.exits.len()
            invariant
                j <= description.exits@.len(),
                description@.wf(),
                world.wf(),
                world@ == walled.with_exits(description.exits@.take(j as int)),
            decreases description.exits@.len() - j,
        {
            let exit = description.exits[j];
            assert(description.exits@.take(j + 1).drop_last() =~= description.exits@.take(
                j as int,
            ));
            assert(in_range(description@.exits[j as int].2 as int));
            world.add_exit(exit.0, exit.1, exit.2);
            j += 1;
        }
        assert(description.exits@.take(j as int) =~= description.exits@);
        Ok(world)
    }

    /// The grid that a text describes.
    pub fn load(data: &[u8]) -> (loaded: Result<World, LoadError>)
        ensures
            loaded matches Ok(world) ==> spec_load(data@) == Ok::<Chart, LoadError>(world@)
                && world.wf(),
            loaded matches Err(error) ==> spec_load(data@) == Err::<Chart, LoadError>(error),
    {
        match parse(data) {
            Err(error) => Err(error),
            Ok(description) => World::build(&description),
        }
    }
}

} // verus!
