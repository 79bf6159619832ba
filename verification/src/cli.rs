//! Command-line and move-entry parsing for the terminal playground.
use vstd::prelude::*;

use vstd::string::StrSliceExecFns;

use crate::board::{BoardGeom, EdgeCoord, EdgeId, Orientation};

verus! {

/// `c` is an ASCII decimal digit.
pub open spec fn is_digit(c: char) -> bool {
    '0' <= c <= '9'
}

/// Decimal value of a string of digits.
pub open spec fn digits_value(d: Seq<char>) -> int
    decreases d.len(),
{
    if d.len() == 0 {
        0
    } else {
        10 * digits_value(d.drop_last()) + (d.last() as int - '0' as int)
    }
}

/// `s` without a leading `+`.
pub open spec fn literal_digits(s: Seq<char>) -> Seq<char> {
    if s.len() > 0 && s[0] == '+' {
        s.drop_first()
    } else {
        s
    }
}

/// `d` is one or more decimal digits.
pub open spec fn all_digits(d: Seq<char>) -> bool {
    d.len() > 0 && forall|i: int| 0 <= i < d.len() ==> is_digit(#[trigger] d[i])
}

/// Value of an unsigned decimal literal: an optional `+` then one or more
/// digits; `None` for anything else.
pub open spec fn unsigned_value(s: Seq<char>) -> Option<int> {
    if all_digits(literal_digits(s)) {
        Some(digits_value(literal_digits(s)))
    } else {
        None
    }
}

/// `s` read as a decimal literal of at most `max`.
pub open spec fn bounded_value(s: Seq<char>, max: int) -> Option<int> {
    match unsigned_value(s) {
        Some(v) => if v <= max {
            Some(v)
        } else {
            None
        },
        None => None,
    }
}

/// Digit strings have a nonnegative value at least that of each prefix.
proof fn lemma_digits_prefix(d: Seq<char>, k: int)
    requires
        0 <= k <= d.len(),
        forall|i: int| 0 <= i < d.len() ==> is_digit(#[trigger] d[i]),
    ensures
        0 <= digits_value(d.take(k)) <= digits_value(d),
    decreases d.len(),
{
    if k < d.len() {
        let p = d.drop_last();
        assert(p.take(k) =~= d.take(k));
        assert(is_digit(d[d.len() - 1]));
        lemma_digits_prefix(p, k);
    } else {
        assert(d.take(k) =~= d);
        if d.len() > 0 {
            let p = d.drop_last();
            assert(is_digit(d[d.len() - 1]));
            lemma_digits_prefix(p, p.len() as int);
            assert(p.take(p.len() as int) =~= p);
        }
    }
}

/// `s` read as an optional `+` and decimal digits, when its value is at most
/// `max`, as `str::parse` reads unsigned integers.
fn parse_bounded(s: &str, max: u32) -> (r: Option<u32>)
    requires
        max <= 65535,
    ensures
        r matches Some(v) ==> bounded_value(s@, max as int) == Some(v as int),
        r is None ==> bounded_value(s@, max as int) is None,
{
    let n = s.unicode_len();
    let start: usize = if n > 0 && s.get_char(0) == '+' {
        1
    } else {
        0
    };
    let ghost d = literal_digits(s@);
    proof {
        assert(d =~= s@.subrange(start as int, n as int));
    }
    if start >= n {
        return None;
    }
    let mut value: u32 = 0;
    let mut i: usize = start;
    while i < n
        invariant
            start <= i <= n,
            n == s@.len(),
            d == s@.subrange(start as int, n as int),
            d == literal_digits(s@),
            max <= 65535,
            value <= max,
            forall|k: int| 0 <= k < i - start ==> is_digit(#[trigger] d[k]),
            value == digits_value(d.take(i - start)),
        decreases n - i,
    {
        let c = s.get_char(i);
        if !('0' <= c && c <= '9') {
            proof {
                assert(d[i - start] == c);
                assert(!is_digit(d[i - start]));
                assert(!all_digits(d));
            }
            return None;
        }
        let digit = (c as u32) - ('0' as u32);
        proof {
            assert(d[i - start] == c);
            let t = d.take(i + 1 - start);
            assert(t.drop_last() =~= d.take(i - start));
            assert(t.last() == c);
        }
        let next = 10 * value + digit;
        proof {
            let t = d.take(i + 1 - start);
            assert(digit == c as int - '0' as int);
            assert(digits_value(t) == 10 * digits_value(t.drop_last()) + (t.last() as int - '0' as int));
            assert(digits_value(t) == next);
        }
        if next > max {
            proof {
                if forall|k: int| 0 <= k < d.len() ==> is_digit(#[trigger] d[k]) {
                    lemma_digits_prefix(d, i + 1 - start);
                    assert(digits_value(d) > max);
                }
            }
            return None;
        }
        value = next;
        i += 1;
    }
    proof {
        assert(d.take(n - start) =~= d);
    }
    Some(value)
}

/// `s` read as a `u8`, as `str::parse::<u8>` reads it: an optional `+` and
/// decimal digits of value at most 255.
fn parse_u8_digits(s: &str) -> (r: Option<u8>)
    ensures
        r matches Some(v) ==> bounded_value(s@, 255) == Some(v as int),
        r is None ==> bounded_value(s@, 255) is None,
{
    match parse_bounded(s, 255) {
        Some(v) => Some(v as u8),
        None => None,
    }
}

/// `s` read as a `u16`, as `str::parse::<u16>` reads it: an optional `+` and
/// decimal digits of value at most 65535.
fn parse_u16_digits(s: &str) -> (r: Option<u16>)
    ensures
        r matches Some(v) ==> bounded_value(s@, 65535) == Some(v as int),
        r is None ==> bounded_value(s@, 65535) is None,
{
    match parse_bounded(s, 65535) {
        Some(v) => Some(v as u16),
        None => None,
    }
}

/// Whether two strings hold the same characters.
pub fn str_equals(a: &str, b: &str) -> (r: bool)
    ensures
        r == (a@ == b@),
{
    let n = a.unicode_len();
    if n != b.unicode_len() {
        return false;
    }
    let mut i: usize = 0;
    while i < n
        invariant
            n == a@.len(),
            n == b@.len(),
            i <= n,
            forall|k: int| 0 <= k < i ==> a@[k] == b@[k],
        decreases n - i,
    {
        if a.get_char(i) != b.get_char(i) {
            return false;
        }
        i += 1;
    }
    proof {
        assert(a@ =~= b@);
    }
    true
}

/// Which size flag an argument error is about.
#[derive(Clone, Copy, Debug, PartialEq, Eq, Structural)]
pub enum Flag {
    Rows,
    Cols,
}

/// Why the command line was rejected.
#[derive(Debug)]
pub enum ArgsError {
    /// The flag was the last argument.
    MissingValue(Flag),
    /// The flag's value is not an integer in `0..=255`.
    NotAnInteger(Flag, String),
    /// An unknown argument starting with `-`.
    UnknownFlag(String),
    /// Any other unexpected argument.
    UnexpectedArgument(String),
}

/// Board size from the command line.
#[derive(Debug)]
pub struct Args {
    pub rows: u8,
    pub cols: u8,
}

/// What parsing a command line gives, over the arguments' characters.
pub enum ArgsOutcome {
    Parsed(int, int),
    MissingValue(Flag),
    NotAnInteger(Flag, Seq<char>),
    UnknownFlag(Seq<char>),
    UnexpectedArgument(Seq<char>),
}

/// The outcome of a parse result.
pub open spec fn outcome_of(r: Result<Args, ArgsError>) -> ArgsOutcome {
    match r {
        Ok(a) => ArgsOutcome::Parsed(a.rows as int, a.cols as int),
        Err(ArgsError::MissingValue(f)) => ArgsOutcome::MissingValue(f),
        Err(ArgsError::NotAnInteger(f, raw)) => ArgsOutcome::NotAnInteger(f, raw@),
        Err(ArgsError::UnknownFlag(a)) => ArgsOutcome::UnknownFlag(a@),
        Err(ArgsError::UnexpectedArgument(a)) => ArgsOutcome::UnexpectedArgument(a@),
    }
}

/// Parsing arguments `i..` with the sizes read so far: `--rows N` and `--cols M`
/// set the sizes (default 2 each), later flags win; the first bad argument stops.
pub open spec fn args_from(args: Seq<Seq<char>>, i: int, rows: int, cols: int) -> ArgsOutcome
    decreases args.len() - i,
{
    if i < 0 || i >= args.len() {
        ArgsOutcome::Parsed(rows, cols)
    } else if args[i] == "--rows"@ || args[i] == "--cols"@ {
        let flag = if args[i] == "--rows"@ {
            Flag::Rows
        } else {
            Flag::Cols
        };
        if i + 1 >= args.len() {
            ArgsOutcome::MissingValue(flag)
        } else {
            match bounded_value(args[i + 1], 255) {
                Some(v) => if flag == Flag::Rows {
                    args_from(args, i + 2, v, cols)
                } else {
                    args_from(args, i + 2, rows, v)
                },
                None => ArgsOutcome::NotAnInteger(flag, args[i + 1]),
            }
        }
    } else if args[i].len() > 0 && args[i][0] == '-' {
        ArgsOutcome::UnknownFlag(args[i])
    } else {
        ArgsOutcome::UnexpectedArgument(args[i])
    }
}

/// The characters of each argument.
pub open spec fn arg_chars(args: Seq<String>) -> Seq<Seq<char>> {
    args.map_values(|s: String| s@)
}

/// Read `raw` as the value of `flag`.
pub fn parse_u8(raw: &str, flag: Flag) -> (r: Result<u8, ArgsError>)
    ensures
        r matches Ok(v) ==> bounded_value(raw@, 255) == Some(v as int),
        r matches Err(e) ==> bounded_value(raw@, 255) is None && outcome_of(Err(e))
            == ArgsOutcome::NotAnInteger(flag, raw@),
{
    match parse_u8_digits(raw) {
        Some(v) => Ok(v),
        None => Err(ArgsError::NotAnInteger(flag, raw.to_owned())),
    }
}

impl Args {
    /// Parse `[--rows N] [--cols M]` (defaults 2×2).
    pub fn parse(args: Vec<String>) -> (r: Result<Self, ArgsError>)
        ensures
            outcome_of(r) == args_from(arg_chars(args@), 0, 2, 2),
    {
        let ghost a = arg_chars(args@);
        let mut rows: u8 = 2;
        let mut cols: u8 = 2;
        let mut i: usize = 0;
        proof {
            reveal_strlit("--rows");
            reveal_strlit("--cols");
        }
        while i < args.len()
            invariant
                a == arg_chars(args@),
                i <= args.len(),
                args_from(a, 0, 2, 2) == args_from(a, i as int, rows as int, cols as int),
            decreases args.len() - i,
        {
            let arg = args[i].as_str();
            proof {
                assert(a[i as int] == arg@);
            }
            let is_rows = str_equals(arg, "--rows");
            let is_cols = str_equals(arg, "--cols");
            if is_rows || is_cols {
                let flag = if is_rows {
                    Flag::Rows
                } else {
                    Flag::Cols
                };
                if i + 1 >= args.len() {
                    return Err(ArgsError::MissingValue(flag));
                }
                let raw = args[i + 1].as_str();
                proof {
                    assert(a[i + 1] == raw@);
                }
                let v = match parse_u8(raw, flag) {
                    Ok(v) => v,
                    Err(e) => {
                        return Err(e);
                    },
                };
                if is_rows {
                    rows = v;
                } else {
                    cols = v;
                }
                i += 2;
            } else if arg.unicode_len() > 0 && arg.get_char(0) == '-' {
                return Err(ArgsError::UnknownFlag(arg.to_owned()));
            } else {
                return Err(ArgsError::UnexpectedArgument(arg.to_owned()));
            }
        }
        Ok(Args { rows, cols })
    }
}

/// `c` is white space (the Unicode `White_Space` property, as `char::is_whitespace`).
pub open spec fn is_space(c: char) -> bool {
    ||| '\u{9}' <= c <= '\u{d}'
    ||| c == ' '
    ||| c == '\u{85}'
    ||| c == '\u{a0}'
    ||| c == '\u{1680}'
    ||| '\u{2000}' <= c <= '\u{200a}'
    ||| c == '\u{2028}'
    ||| c == '\u{2029}'
    ||| c == '\u{202f}'
    ||| c == '\u{205f}'
    ||| c == '\u{3000}'
}

fn space(c: char) -> (r: bool)
    ensures
        r == is_space(c),
{
    ('\u{9}' <= c && c <= '\u{d}') || c == ' ' || c == '\u{85}' || c == '\u{a0}' || c == '\u{1680}'
        || ('\u{2000}' <= c && c <= '\u{200a}') || c == '\u{2028}' || c == '\u{2029}' || c
        == '\u{202f}' || c == '\u{205f}' || c == '\u{3000}'
}

/// First index at or after `i` holding a non-space character (`s.len()` if none).
pub open spec fn skip_space(s: Seq<char>, i: int) -> int
    decreases s.len() - i,
{
    if i < 0 || i >= s.len() {
        s.len() as int
    } else if !is_space(s[i]) {
        i
    } else {
        skip_space(s, i + 1)
    }
}

/// First index at or after `i` holding a space character (`s.len()` if none).
pub open spec fn skip_word(s: Seq<char>, i: int) -> int
    decreases s.len() - i,
{
    if i < 0 || i >= s.len() {
        s.len() as int
    } else if is_space(s[i]) {
        i
    } else {
        skip_word(s, i + 1)
    }
}

/// End of the last non-space character among the first `j` characters (0 if none).
pub open spec fn trim_end(s: Seq<char>, j: int) -> int
    decreases j,
{
    if j <= 0 {
        0
    } else if !is_space(s[j - 1]) {
        j
    } else {
        trim_end(s, j - 1)
    }
}

/// `s` without leading and trailing white space (`str::trim`).
pub open spec fn trimmed(s: Seq<char>) -> Seq<char> {
    let a = skip_space(s, 0);
    let b = trim_end(s, s.len() as int);
    if a < b {
        s.subrange(a, b)
    } else {
        Seq::empty()
    }
}

pub proof fn lemma_skip_space(s: Seq<char>, i: int)
    requires
        0 <= i,
    ensures
        i <= skip_space(s, i) <= s.len() || (i > s.len() && skip_space(s, i) == s.len()),
        skip_space(s, i) < s.len() ==> !is_space(s[skip_space(s, i)]),
        forall|k: int| i <= k < skip_space(s, i) ==> is_space(#[trigger] s[k]),
    decreases s.len() - i,
{
    if i < s.len() && is_space(s[i]) {
        lemma_skip_space(s, i + 1);
    }
}

pub proof fn lemma_skip_word(s: Seq<char>, i: int)
    requires
        0 <= i <= s.len(),
    ensures
        i <= skip_word(s, i) <= s.len(),
        skip_word(s, i) < s.len() ==> is_space(s[skip_word(s, i)]),
        forall|k: int| i <= k < skip_word(s, i) ==> !is_space(#[trigger] s[k]),
    decreases s.len() - i,
{
    if i < s.len() && !is_space(s[i]) {
        lemma_skip_word(s, i + 1);
    }
}

pub proof fn lemma_trim_end(s: Seq<char>, j: int)
    requires
        0 <= j <= s.len(),
    ensures
        0 <= trim_end(s, j) <= j,
        trim_end(s, j) > 0 ==> !is_space(s[trim_end(s, j) - 1]),
        forall|k: int| trim_end(s, j) <= k < j ==> is_space(#[trigger] s[k]),
    decreases j,
{
    if j > 0 && is_space(s[j - 1]) {
        lemma_trim_end(s, j - 1);
    }
}

/// The white-space separated words of `s` from index `i` on (`str::split_whitespace`).
pub open spec fn words_from(s: Seq<char>, i: int) -> Seq<Seq<char>>
    decreases s.len() - i,
{
    let a = skip_space(s, i);
    if i < 0 || a >= s.len() {
        Seq::empty()
    } else {
        let b = skip_word(s, a);
        proof {
            lemma_skip_space(s, i);
            lemma_skip_word(s, a);
        }
        seq![s.subrange(a, b)] + words_from(s, b)
    }
}

/// The white-space separated words of `s`.
pub open spec fn words(s: Seq<char>) -> Seq<Seq<char>> {
    words_from(s, 0)
}

/// First index at or after `i` not holding `#`.
pub open spec fn skip_hashes(s: Seq<char>, i: int) -> int
    decreases s.len() - i,
{
    if i < 0 || i >= s.len() {
        s.len() as int
    } else if s[i] != '#' {
        i
    } else {
        skip_hashes(s, i + 1)
    }
}

/// Character code after ASCII lower-casing.
pub open spec fn lower_code(c: char) -> int {
    if 'A' <= c <= 'Z' {
        c as int + 32
    } else {
        c as int
    }
}

/// `s` equals the lower-case keyword `kw` ignoring ASCII case.
pub open spec fn is_keyword(s: Seq<char>, kw: Seq<char>) -> bool {
    s.len() == kw.len() && forall|i: int| 0 <= i < s.len() ==> lower_code(#[trigger] s[i]) == kw[i] as int
}

/// A single-letter word naming an edge orientation (`H` or `V`, any case).
pub open spec fn orientation_word(w: Seq<char>) -> Option<Orientation> {
    if w.len() == 1 && (w[0] == 'H' || w[0] == 'h') {
        Some(Orientation::Horizontal)
    } else if w.len() == 1 && (w[0] == 'V' || w[0] == 'v') {
        Some(Orientation::Vertical)
    } else {
        None
    }
}

/// A parsed playground command.
#[derive(Clone, Copy, Debug, PartialEq, Eq, Structural)]
pub enum Command {
    Play(EdgeId),
    Legal,
    Board,
    Help,
    Quit,
}

/// Why a command line was rejected.
#[derive(Debug)]
pub enum CommandError {
    /// Nothing but white space.
    Empty,
    /// `H`/`V` without both a row and a column.
    ExpectedCoord,
    /// The row is not an integer in `0..=255`.
    RowNotInteger,
    /// The column is not an integer in `0..=255`.
    ColNotInteger,
    /// More than three words after `H`/`V`.
    TooManyForCoord,
    /// The coordinate is not on this board.
    OffBoard(Orientation, u8, u8),
    /// More than one word for an edge id.
    TooManyForId,
    /// Not a keyword, coordinate or edge id; holds the trimmed line.
    Unknown(String),
}

/// What parsing a command line gives, over characters.
pub enum CommandOutcome {
    Command(Command),
    Empty,
    ExpectedCoord,
    RowNotInteger,
    ColNotInteger,
    TooManyForCoord,
    OffBoard(Orientation, int, int),
    TooManyForId,
    Unknown(Seq<char>),
}

/// The outcome of a command parse result.
pub open spec fn command_outcome(r: Result<Command, CommandError>) -> CommandOutcome {
    match r {
        Ok(c) => CommandOutcome::Command(c),
        Err(CommandError::Empty) => CommandOutcome::Empty,
        Err(CommandError::ExpectedCoord) => CommandOutcome::ExpectedCoord,
        Err(CommandError::RowNotInteger) => CommandOutcome::RowNotInteger,
        Err(CommandError::ColNotInteger) => CommandOutcome::ColNotInteger,
        Err(CommandError::TooManyForCoord) => CommandOutcome::TooManyForCoord,
        Err(CommandError::OffBoard(o, r, c)) => CommandOutcome::OffBoard(o, r as int, c as int),
        Err(CommandError::TooManyForId) => CommandOutcome::TooManyForId,
        Err(CommandError::Unknown(l)) => CommandOutcome::Unknown(l@),
    }
}

/// `H <row> <col>` / `V <row> <col>` after the orientation word.
pub open spec fn coord_command(ws: Seq<Seq<char>>, o: Orientation, geom: BoardGeom) -> CommandOutcome {
    if ws.len() < 2 {
        CommandOutcome::ExpectedCoord
    } else if bounded_value(ws[1], 255) is None {
        CommandOutcome::RowNotInteger
    } else if ws.len() < 3 {
        CommandOutcome::ExpectedCoord
    } else if bounded_value(ws[2], 255) is None {
        CommandOutcome::ColNotInteger
    } else if ws.len() > 3 {
        CommandOutcome::TooManyForCoord
    } else {
        let row = bounded_value(ws[1], 255)->0;
        let col = bounded_value(ws[2], 255)->0;
        let k = EdgeCoord { orientation: o, row: row as u8, col: col as u8 };
        match geom.spec_edge_id(k) {
            Some(id) => CommandOutcome::Command(Command::Play(id as u16)),
            None => CommandOutcome::OffBoard(o, row, col),
        }
    }
}

/// Meaning of a playground input line: `q`/`quit`/`exit`, `help`/`?`,
/// `legal`/`moves`/`l`, `board`/`b` (any case), `H|V <row> <col>`, or an edge
/// id with optional leading `#`s.
pub open spec fn spec_command(line: Seq<char>, geom: BoardGeom) -> CommandOutcome {
    let t = trimmed(line);
    if t.len() == 0 {
        CommandOutcome::Empty
    } else if is_keyword(t, "q"@) || is_keyword(t, "quit"@) || is_keyword(t, "exit"@) {
        CommandOutcome::Command(Command::Quit)
    } else if is_keyword(t, "help"@) || is_keyword(t, "?"@) {
        CommandOutcome::Command(Command::Help)
    } else if is_keyword(t, "legal"@) || is_keyword(t, "moves"@) || is_keyword(t, "l"@) {
        CommandOutcome::Command(Command::Legal)
    } else if is_keyword(t, "board"@) || is_keyword(t, "b"@) {
        CommandOutcome::Command(Command::Board)
    } else {
        let ws = words(t);
        let head = ws[0];
        match orientation_word(head) {
            Some(o) => coord_command(ws, o, geom),
            None => if ws.len() > 1 {
                CommandOutcome::TooManyForId
            } else {
                match bounded_value(head.subrange(skip_hashes(head, 0), head.len() as int), 65535) {
                    Some(id) => CommandOutcome::Command(Command::Play(id as u16)),
                    None => CommandOutcome::Unknown(t),
                }
            },
        }
    }
}

/// Index of the first non-space character at or after `i`.
fn skip_space_at(s: &str, n: usize, i: usize) -> (r: usize)
    requires
        n == s@.len(),
        i <= n,
    ensures
        r == skip_space(s@, i as int),
        i <= r <= n,
{
    let mut k = i;
    while k < n
        invariant
            n == s@.len(),
            i <= k <= n,
            skip_space(s@, i as int) == skip_space(s@, k as int),
        decreases n - k,
    {
        if !space(s.get_char(k)) {
            return k;
        }
        k += 1;
    }
    k
}

/// Index of the first space character at or after `i`.
fn skip_word_at(s: &str, n: usize, i: usize) -> (r: usize)
    requires
        n == s@.len(),
        i <= n,
    ensures
        r == skip_word(s@, i as int),
        i <= r <= n,
{
    let mut k = i;
    while k < n
        invariant
            n == s@.len(),
            i <= k <= n,
            skip_word(s@, i as int) == skip_word(s@, k as int),
        decreases n - k,
    {
        if space(s.get_char(k)) {
            return k;
        }
        k += 1;
    }
    k
}

/// `s` without leading and trailing white space.
fn trim_str(s: &str) -> (r: &str)
    ensures
        r@ == trimmed(s@),
{
    let n = s.unicode_len();
    let a = skip_space_at(s, n, 0);
    let mut b = n;
    while b > 0
        invariant
            n == s@.len(),
            b <= n,
            trim_end(s@, n as int) == trim_end(s@, b as int),
        ensures
            b <= n,
            trim_end(s@, n as int) == b,
        decreases b,
    {
        if !space(s.get_char(b - 1)) {
            break;
        }
        b -= 1;
    }
    proof {
        lemma_trim_end(s@, n as int);
    }
    if a < b {
        s.substring_char(a, b)
    } else {
        s.substring_char(0, 0)
    }
}

/// The white-space separated words of `s`.
fn split_words(s: &str) -> (r: Vec<&str>)
    ensures
        r@.map_values(|w: &str| w@) == words(s@),
{
    let n = s.unicode_len();
    let mut out: Vec<&str> = Vec::new();
    let mut i: usize = 0;
    while i < n
        invariant
            n == s@.len(),
            i <= n,
            out@.map_values(|w: &str| w@) + words_from(s@, i as int) == words(s@),
        decreases n - i,
    {
        let a = skip_space_at(s, n, i);
        if a >= n {
            proof {
                assert(words_from(s@, i as int) =~= Seq::<Seq<char>>::empty());
                assert(out@.map_values(|w: &str| w@) + Seq::<Seq<char>>::empty()
                    =~= out@.map_values(|w: &str| w@));
            }
            return out;
        }
        let b = skip_word_at(s, n, a);
        proof {
            lemma_skip_space(s@, i as int);
            lemma_skip_word(s@, a as int);
        }
        let w = s.substring_char(a, b);
        let ghost before = out@.map_values(|w: &str| w@);
        out.push(w);
        proof {
            assert(out@.map_values(|w: &str| w@) =~= before.push(w@));
            assert(words_from(s@, i as int) == seq![s@.subrange(a as int, b as int)] + words_from(
                s@,
                b as int,
            ));
            assert(before.push(w@) + words_from(s@, b as int) =~= before + words_from(
                s@,
                i as int,
            ));
        }
        i = b;
    }
    proof {
        assert(words_from(s@, n as int) =~= Seq::<Seq<char>>::empty());
        assert(out@.map_values(|w: &str| w@) + Seq::<Seq<char>>::empty()
            =~= out@.map_values(|w: &str| w@));
    }
    out
}

/// Whether `s` equals the lower-case keyword `kw` ignoring ASCII case.
fn keyword(s: &str, kw: &str) -> (r: bool)
    ensures
        r == is_keyword(s@, kw@),
{
    let n = s.unicode_len();
    if n != kw.unicode_len() {
        return false;
    }
    let mut i: usize = 0;
    while i < n
        invariant
            n == s@.len(),
            n == kw@.len(),
            i <= n,
            forall|k: int| 0 <= k < i ==> lower_code(#[trigger] s@[k]) == kw@[k] as int,
        decreases n - i,
    {
        let c = s.get_char(i) as u32;
        let lc = if 65 <= c && c <= 90 {
            c + 32
        } else {
            c
        };
        if lc != kw.get_char(i) as u32 {
            return false;
        }
        i += 1;
    }
    true
}

impl Command {
    /// Parse one input line of the playground against board `geom`.
    pub fn parse(line: &str, geom: BoardGeom) -> (r: Result<Self, CommandError>)
        ensures
            command_outcome(r) == spec_command(line@, geom),
    {
        let t = trim_str(line);
        if t.unicode_len() == 0 {
            return Err(CommandError::Empty);
        }
        proof {
            reveal_strlit("q");
            reveal_strlit("quit");
            reveal_strlit("exit");
            reveal_strlit("help");
            reveal_strlit("?");
            reveal_strlit("legal");
            reveal_strlit("moves");
            reveal_strlit("l");
            reveal_strlit("board");
            reveal_strlit("b");
        }
        if keyword(t, "q") || keyword(t, "quit") || keyword(t, "exit") {
            return Ok(Command::Quit);
        }
        if keyword(t, "help") || keyword(t, "?") {
            return Ok(Command::Help);
        }
        if keyword(t, "legal") || keyword(t, "moves") || keyword(t, "l") {
            return Ok(Command::Legal);
        }
        if keyword(t, "board") || keyword(t, "b") {
            return Ok(Command::Board);
        }
        let ws = split_words(t);
        let ghost wv = ws@.map_values(|w: &str| w@);
        proof {
            let s = line@;
            lemma_skip_space(s, 0);
            lemma_trim_end(s, s.len() as int);
            lemma_skip_space(t@, 0);
            assert(!is_space(t@[0]));
            lemma_skip_word(t@, 0);
            assert(wv.len() > 0);
        }
        let head = ws[0];
        proof {
            assert(wv[0] == head@);
        }
        let hn = head.unicode_len();
        let orientation = if hn == 1 && (head.get_char(0) == 'H' || head.get_char(0) == 'h') {
            Some(Orientation::Horizontal)
        } else if hn == 1 && (head.get_char(0) == 'V' || head.get_char(0) == 'v') {
            Some(Orientation::Vertical)
        } else {
            None
        };
        match orientation {
            Some(o) => {
                if ws.len() < 2 {
                    return Err(CommandError::ExpectedCoord);
                }
                proof {
                    assert(wv[1] == ws@[1]@);
                }
                let row = match parse_u8_digits(ws[1]) {
                    Some(v) => v,
                    None => {
                        return Err(CommandError::RowNotInteger);
                    },
                };
                if ws.len() < 3 {
                    return Err(CommandError::ExpectedCoord);
                }
                proof {
                    assert(wv[2] == ws@[2]@);
                }
                let col = match parse_u8_digits(ws[2]) {
                    Some(v) => v,
                    None => {
                        return Err(CommandError::ColNotInteger);
                    },
                };
                if ws.len() > 3 {
                    return Err(CommandError::TooManyForCoord);
                }
                match geom.edge_id(EdgeCoord { orientation: o, row, col }) {
                    Some(id) => Ok(Command::Play(id)),
                    None => Err(CommandError::OffBoard(o, row, col)),
                }
            },
            None => {
                if ws.len() > 1 {
                    return Err(CommandError::TooManyForId);
                }
                let mut k: usize = 0;
                while k < hn
                    invariant
                        hn == head@.len(),
                        k <= hn,
                        skip_hashes(head@, 0) == skip_hashes(head@, k as int),
                    ensures
                        k <= hn,
                        skip_hashes(head@, 0) == k,
                    decreases hn - k,
                {
                    if head.get_char(k) != '#' {
                        break;
                    }
                    k += 1;
                }
                let id_str = head.substring_char(k, hn);
                match parse_u16_digits(id_str) {
                    Some(id) => Ok(Command::Play(id)),
                    None => Err(CommandError::Unknown(t.to_owned())),
                }
            },
        }
    }
}

} // verus!
