//! Reading patterns in the run-length encoded (RLE) text format: a header
//! line `x = <cols>, y = <rows>`, then rows of runs (`<count>b` dead,
//! `<count>o` alive) ended by `$`, the pattern ended by `!`. Lines that
//! start with `#` before the header are comments.
use vstd::prelude::*;
use crate::cells::Coord;

verus! {

broadcast use vstd::string::group_string_axioms;

/// The characters of a string, in order.
pub fn chars_of(s: &str) -> (r: Vec<char>)
    ensures
        r@ == s@,
{
    let mut v: Vec<char> = Vec::new();
    for c in it: s.chars()
        invariant
            it.seq() == s@,
            v@ == it.seq().subrange(0, it.index() as int),
    {
        v.push(c);
    }
    assert(v@ =~= s@);
    v
}

/// A token of the header line.
#[derive(Debug, PartialEq)]
pub enum Lexem {
    ParamName(String),
    ValueNumeric(isize),
    ValueString(String),
    Comma,
}

/// Why a pattern could not be read.
#[derive(Debug, PartialEq)]
pub enum ParseError {
    NotANumber(String),
    UnexpectedSymbol(String),
    InputExhausted,
    EmptyName,
    WrongName(String),
}

/// A header token as a value.
pub enum LexemV {
    ParamName(Seq<char>),
    ValueNumeric(int),
    ValueString(Seq<char>),
    Comma,
}

/// A parse error as a value.
pub enum ParseErrorV {
    NotANumber(Seq<char>),
    UnexpectedSymbol(Seq<char>),
    InputExhausted,
    EmptyName,
    WrongName(Seq<char>),
}

impl View for Lexem {
    type V = LexemV;

    open spec fn view(&self) -> LexemV {
        match self {
            Lexem::ParamName(s) => LexemV::ParamName(s@),
            Lexem::ValueNumeric(v) => LexemV::ValueNumeric(*v as int),
            Lexem::ValueString(s) => LexemV::ValueString(s@),
            Lexem::Comma => LexemV::Comma,
        }
    }
}

impl View for ParseError {
    type V = ParseErrorV;

    open spec fn view(&self) -> ParseErrorV {
        match self {
            ParseError::NotANumber(s) => ParseErrorV::NotANumber(s@),
            ParseError::UnexpectedSymbol(s) => ParseErrorV::UnexpectedSymbol(s@),
            ParseError::InputExhausted => ParseErrorV::InputExhausted,
            ParseError::EmptyName => ParseErrorV::EmptyName,
            ParseError::WrongName(s) => ParseErrorV::WrongName(s@),
        }
    }
}

impl ParseError {
    /// A short description of the error.
    pub fn description(&self) -> (r: &'static str) {
        match self {
            ParseError::NotANumber(_) => "Not a number",
            ParseError::UnexpectedSymbol(_) => "Unexpected symbol",
            ParseError::InputExhausted => "Input exhausted",
            ParseError::EmptyName => "Option name can't be empty",
            ParseError::WrongName(_) => "Wrong option name",
        }
    }
}

/// Whether a char has Unicode's Alphabetic property.
pub uninterp spec fn alphabetic(c: char) -> bool;

/// Relies on `char::is_alphabetic`: the Alphabetic property of the char,
/// which every ASCII letter has.
#[verifier::external_body]
fn is_alphabetic(c: char) -> (r: bool)
    ensures
        r == alphabetic(c),
        ('a' <= c <= 'z' || 'A' <= c <= 'Z') ==> r,
{
    c.is_alphabetic()
}

/// Relies on `String::push`: appends one char.
#[verifier::external_body]
fn push_char(s: &mut String, c: char)
    ensures
        final(s)@ == old(s)@.push(c),
{
    s.push(c)
}

/// The chars `v[from..to]` as a string.
fn string_from(v: &Vec<char>, from: usize, to: usize) -> (r: String)
    requires
        from <= to <= v@.len(),
    ensures
        r@ == v@.subrange(from as int, to as int),
{
    let mut r = String::new();
    let mut i: usize = from;
    while i < to
        invariant
            from <= i <= to <= v@.len(),
            r@ == v@.subrange(from as int, i as int),
        decreases to - i,
    {
        push_char(&mut r, v[i]);
        i = i + 1;
        assert(r@ =~= v@.subrange(from as int, i as int));
    }
    r
}

pub open spec fn is_digit(c: char) -> bool {
    '0' <= c <= '9'
}

pub open spec fn digit_value(c: char) -> int {
    c as int - '0' as int
}

/// Reads the digits from `pos` on onto `acc`: the value and where the
/// digits end, or `None` once the value passes `isize::MAX`.
pub open spec fn scan_digits(s: Seq<char>, pos: int, acc: int) -> Option<(int, int)>
    decreases s.len() - pos,
{
    if 0 <= pos < s.len() && is_digit(s[pos]) {
        let v = acc * 10 + digit_value(s[pos]);
        if v > isize::MAX {
            None
        } else {
            scan_digits(s, pos + 1, v)
        }
    } else {
        Some((acc, pos))
    }
}

/// The decimal number at `pos`, and where it ends. Nothing left is
/// `InputExhausted`; no digit there, or a value past `isize::MAX`, is
/// `NotANumber` with the rest of the text.
pub open spec fn read_number(s: Seq<char>, pos: int) -> Result<(int, int), ParseErrorV> {
    if pos < 0 || pos >= s.len() {
        Err(ParseErrorV::InputExhausted)
    } else if !is_digit(s[pos]) {
        Err(ParseErrorV::NotANumber(s.subrange(pos, s.len() as int)))
    } else {
        match scan_digits(s, pos, 0) {
            Some(r) => Ok(r),
            None => Err(ParseErrorV::NotANumber(s.subrange(pos, s.len() as int))),
        }
    }
}

proof fn lemma_scan_digits_bounds(s: Seq<char>, pos: int, acc: int)
    requires
        0 <= pos,
        0 <= acc <= isize::MAX,
    ensures
        scan_digits(s, pos, acc) matches Some((v, e)) ==> pos <= e && (e <= s.len() || e == pos) && 0 <= v
            <= isize::MAX,
    decreases s.len() - pos,
{
    if 0 <= pos < s.len() && is_digit(s[pos]) {
        let v = acc * 10 + digit_value(s[pos]);
        if v <= isize::MAX {
            lemma_scan_digits_bounds(s, pos + 1, v);
        }
    }
}

/// Reads the decimal number at `pos` (see `read_number`).
pub fn get_num(s: &Vec<char>, pos: usize) -> (r: Result<(isize, usize), ParseError>)
    ensures
        match r {
            Ok((v, e)) => read_number(s@, pos as int) == Ok::<(int, int), ParseErrorV>((v as int, e as int)),
            Err(e) => read_number(s@, pos as int) == Err::<(int, int), ParseErrorV>(e@),
        },
{
    if pos >= s.len() {
        return Err(ParseError::InputExhausted);
    }
    if !(s[pos] >= '0' && s[pos] <= '9') {
        return Err(ParseError::NotANumber(string_from(s, pos, s.len())));
    }
    let mut result: isize = 0;
    let mut i: usize = pos;
    while i < s.len() && s[i] >= '0' && s[i] <= '9'
        invariant
            pos <= i <= s@.len(),
            0 <= result <= isize::MAX,
            scan_digits(s@, pos as int, 0) == scan_digits(s@, i as int, result as int),
        decreases s@.len() - i,
    {
        let d = (s[i] as u32 - '0' as u32) as isize;
        if result > (isize::MAX - d) / 10 {
            proof {
                assert(result * 10 + d > isize::MAX) by (nonlinear_arith)
                    requires result > (isize::MAX - d) / 10, 0 <= d <= 9;
            }
            return Err(ParseError::NotANumber(string_from(s, pos, s.len())));
        }
        proof {
            assert(result * 10 + d <= isize::MAX) by (nonlinear_arith)
                requires result <= (isize::MAX - d) / 10, 0 <= d <= 9, result >= 0;
        }
        result = result * 10 + d;
        i = i + 1;
    }
    Ok((result, i))
}

/// The chars of `s` before its first `=` (all of `s` where it has none).
pub fn get_str(s: &Vec<char>) -> (r: String)
    ensures
        r@.len() <= s@.len(),
        r@ == s@.take(r@.len() as int),
        forall|j: int| 0 <= j < r@.len() ==> s@[j] != '=',
        r@.len() == s@.len() || s@[r@.len() as int] == '=',
{
    let mut i: usize = 0;
    while i < s.len() && s[i] != '='
        invariant
            i <= s@.len(),
            forall|j: int| 0 <= j < i ==> s@[j] != '=',
        decreases s@.len() - i,
    {
        i = i + 1;
    }
    let r = string_from(s, 0, i);
    assert(r@ =~= s@.take(i as int));
    r
}

/// Whether `c` is one of `arr`.
pub fn contains(c: char, arr: &[char]) -> (r: bool)
    ensures
        r == arr@.contains(c),
{
    let mut i: usize = 0;
    while i < arr.len()
        invariant
            i <= arr@.len(),
            forall|j: int| 0 <= j < i ==> arr@[j] != c,
        decreases arr@.len() - i,
    {
        if arr[i] == c {
            assert(arr@[i as int] == c);
            return true;
        }
        i = i + 1;
    }
    false
}

/// Blanks and line ends carry no meaning in the format.
pub open spec fn is_blank(c: char) -> bool {
    c == ' ' || c == '\n' || c == '\r'
}

/// The chars of `s` without blanks and line ends.
pub open spec fn filtered(s: Seq<char>) -> Seq<char>
    decreases s.len(),
{
    if s.len() == 0 {
        s
    } else if is_blank(s.last()) {
        filtered(s.drop_last())
    } else {
        filtered(s.drop_last()).push(s.last())
    }
}

/// The chars of a line without blanks and line ends.
pub fn filter_line(line: &[char]) -> (r: Vec<char>)
    ensures
        r@ == filtered(line@),
{
    let blanks: [char; 3] = [' ', '\n', '\r'];
    let mut r: Vec<char> = Vec::new();
    let mut i: usize = 0;
    while i < line.len()
        invariant
            i <= line@.len(),
            blanks@ == seq![' ', '\n', '\r'],
            r@ == filtered(line@.take(i as int)),
        decreases line@.len() - i,
    {
        let c = line[i];
        let blank = contains(c, blanks.as_slice());
        proof {
            assert(line@.take(i + 1).drop_last() =~= line@.take(i as int));
            assert(blank == is_blank(c)) by {
                if is_blank(c) {
                    if c == ' ' {
                        assert(blanks@[0] == c);
                    } else if c == '\n' {
                        assert(blanks@[1] == c);
                    } else {
                        assert(blanks@[2] == c);
                    }
                }
            }
        }
        if !blank {
            r.push(c);
        }
        i = i + 1;
    }
    assert(line@.take(i as int) =~= line@);
    r
}

/// The header tokens from `pos` on, with `prefix` the chars read since
/// the last token and `acc` the tokens so far. At `=`, the prefix is the
/// parameter's name: it must be non-empty and alphabetic, and a number
/// must follow. A `,` is a token of its own; other chars join the prefix.
pub open spec fn lex_from(s: Seq<char>, pos: int, prefix: Seq<char>, acc: Seq<LexemV>) -> Result<
    Seq<LexemV>,
    ParseErrorV,
>
    decreases s.len() - pos,
{
    if pos < 0 || pos >= s.len() {
        Ok(acc)
    } else {
        let c = s[pos];
        if c == '=' {
            if prefix.len() == 0 {
                Err(ParseErrorV::EmptyName)
            } else if !(forall|j: int| 0 <= j < prefix.len() ==> alphabetic(#[trigger] prefix[j])) {
                Err(ParseErrorV::WrongName(prefix.push('=')))
            } else {
                match read_number(s, pos + 1) {
                    Err(e) => Err(e),
                    Ok((v, next)) => if pos < next <= s.len() {
                        lex_from(
                            s,
                            next,
                            Seq::empty(),
                            acc + seq![LexemV::ParamName(prefix), LexemV::ValueNumeric(v)],
                        )
                    } else {
                        Ok(acc)
                    },
                }
            }
        } else if c == ',' {
            lex_from(s, pos + 1, Seq::empty(), acc.push(LexemV::Comma))
        } else {
            lex_from(s, pos + 1, prefix.push(c), acc)
        }
    }
}

/// The tokens of a header line: `name = number` pairs and commas, blanks
/// and line ends ignored.
pub open spec fn lex_spec(line: Seq<char>) -> Result<Seq<LexemV>, ParseErrorV> {
    lex_from(filtered(line), 0, Seq::empty(), Seq::empty())
}

pub open spec fn lexem_views(v: Seq<Lexem>) -> Seq<LexemV> {
    v.map_values(|l: Lexem| l@)
}

/// Splits a header line into tokens (see `lex_spec`).
pub fn lexer(line: &str) -> (r: Result<Vec<Lexem>, ParseError>)
    ensures
        match r {
            Ok(v) => lex_spec(line@) == Ok::<Seq<LexemV>, ParseErrorV>(lexem_views(v@)),
            Err(e) => lex_spec(line@) == Err::<Seq<LexemV>, ParseErrorV>(e@),
        },
{
    let chars = chars_of(line);
    lexer_chars(&chars)
}

/// `lexer` on a sequence of chars.
pub fn lexer_chars(line: &Vec<char>) -> (r: Result<Vec<Lexem>, ParseError>)
    ensures
        match r {
            Ok(v) => lex_spec(line@) == Ok::<Seq<LexemV>, ParseErrorV>(lexem_views(v@)),
            Err(e) => lex_spec(line@) == Err::<Seq<LexemV>, ParseErrorV>(e@),
        },
{
    let s = filter_line(line.as_slice());
    let mut result: Vec<Lexem> = Vec::new();
    let mut prefix: Vec<char> = Vec::new();
    let mut pos: usize = 0;
    assert(lexem_views(result@) =~= Seq::<LexemV>::empty());
    while pos < s.len()
        invariant
            pos <= s@.len(),
            s@ == filtered(line@),
            forall|j: int| 0 <= j < prefix@.len() ==> prefix@[j] != '=',
            lex_from(s@, pos as int, prefix@, lexem_views(result@)) == lex_spec(line@),
        decreases s@.len() - pos,
    {
        let c = s[pos];
        if c == '=' {
            let ghost name_chars = prefix@;
            prefix.push(c);
            let name = get_str(&prefix);
            proof {
                let n = name_chars.len() as int;
                assert(prefix@ == name_chars.push('='));
                if name@.len() < n {
                    assert(prefix@[name@.len() as int] == name_chars[name@.len() as int]);
                    assert(prefix@[name@.len() as int] != '=');
                }
                if name@.len() == prefix@.len() {
                    assert(prefix@[n] == '=');
                    assert(prefix@[n] != '=');
                }
                assert(name@.len() == n);
                assert(prefix@.take(n) =~= name_chars);
                assert(name@ =~= name_chars);
            }
            if prefix.len() == 1 {
                return Err(ParseError::EmptyName);
            }
            let mut j: usize = 0;
            let mut ok = true;
            while j < prefix.len() - 1
                invariant
                    prefix@.len() == name_chars.len() + 1,
                    j <= name_chars.len(),
                    prefix@.take(name_chars.len() as int) == name_chars,
                    ok == (forall|m: int| 0 <= m < j ==> alphabetic(#[trigger] name_chars[m])),
                decreases name_chars.len() - j,
            {
                let a = is_alphabetic(prefix[j]);
                proof {
                    assert(prefix@[j as int] == name_chars[j as int]);
                    if ok && a {
                        assert forall|m: int| 0 <= m < j + 1 implies alphabetic(#[trigger] name_chars[m]) by {}
                    }
                }
                ok = ok && a;
                j = j + 1;
            }
            if !ok {
                let w = string_from(&prefix, 0, prefix.len());
                proof {
                    assert(prefix@.subrange(0, prefix@.len() as int) =~= name_chars.push('='));
                    assert(!(forall|m: int| 0 <= m < name_chars.len() ==> alphabetic(#[trigger] name_chars[m])));
                }
                return Err(ParseError::WrongName(w));
            }
            prefix = Vec::new();
            match get_num(&s, pos + 1) {
                Err(e) => {
                    return Err(e);
                },
                Ok((v, next)) => {
                    proof {
                        lemma_scan_digits_bounds(s@, pos + 1, 0);
                    }
                    let ghost before = lexem_views(result@);
                    result.push(Lexem::ParamName(name));
                    result.push(Lexem::ValueNumeric(v));
                    proof {
                        assert(lexem_views(result@) =~= before + seq![
                            LexemV::ParamName(name_chars),
                            LexemV::ValueNumeric(v as int),
                        ]);
                    }
                    pos = next;
                },
            }
        } else if c == ',' {
            let ghost before = lexem_views(result@);
            result.push(Lexem::Comma);
            prefix = Vec::new();
            proof {
                assert(lexem_views(result@) =~= before.push(LexemV::Comma));
            }
            pos = pos + 1;
        } else {
            prefix.push(c);
            pos = pos + 1;
        }
    }
    Ok(result)
}

/// The repeat count of a run: the number its text starts with, or 1
/// where it starts with no digit (or with one too large for `isize`).
pub open spec fn run_count(p: Seq<char>) -> int {
    match read_number(p, 0) {
        Ok((v, _)) => v,
        Err(_) => 1,
    }
}

/// The cells `(col + i, row)` for `0 <= i < n`.
pub open spec fn run_cells(col: int, row: int, n: int) -> Seq<(int, int)> {
    Seq::new(n as nat, |i: int| (col + i, row))
}

/// The live cells of one RLE row from `pos` on: `prefix` is the text since
/// the last run, `col` the next column. A run of `b` skips its count of
/// columns, a run of `o` makes them alive; columns stop at `isize::MAX`.
pub open spec fn rle_from(
    s: Seq<char>,
    pos: int,
    prefix: Seq<char>,
    col: int,
    row: int,
    acc: Seq<(int, int)>,
) -> Seq<(int, int)>
    decreases s.len() - pos,
{
    if pos < 0 || pos >= s.len() {
        acc
    } else {
        let c = s[pos];
        let p2 = prefix.push(c);
        if c == 'b' || c == 'o' {
            let n = run_count(p2);
            let end = if col + n > isize::MAX { isize::MAX as int } else { col + n };
            let acc2 = if c == 'o' { acc + run_cells(col, row, end - col) } else { acc };
            rle_from(s, pos + 1, Seq::empty(), end, row, acc2)
        } else {
            rle_from(s, pos + 1, p2, col, row, acc)
        }
    }
}

/// The live cells of one RLE row, blanks and line ends ignored.
pub open spec fn rle_spec(line: Seq<char>, row: int) -> Seq<(int, int)> {
    rle_from(filtered(line), 0, Seq::empty(), 0, row, Seq::empty())
}

pub open spec fn coord_pairs(v: Seq<Coord>) -> Seq<(int, int)> {
    v.map_values(|c: Coord| (c.col as int, c.row as int))
}

/// The live cells of one row of runs (see `rle_spec`).
pub fn rle_decoder(line: &Vec<char>, row: isize) -> (r: Vec<Coord>)
    ensures
        coord_pairs(r@) == rle_spec(line@, row as int),
{
    let s = filter_line(line.as_slice());
    let mut decoded: Vec<Coord> = Vec::new();
    let mut prefix: Vec<char> = Vec::new();
    let mut col: isize = 0;
    let mut pos: usize = 0;
    assert(coord_pairs(decoded@) =~= Seq::<(int, int)>::empty());
    while pos < s.len()
        invariant
            pos <= s@.len(),
            s@ == filtered(line@),
            0 <= col,
            rle_from(s@, pos as int, prefix@, col as int, row as int, coord_pairs(decoded@)) == rle_spec(
                line@,
                row as int,
            ),
        decreases s@.len() - pos,
    {
        let c = s[pos];
        prefix.push(c);
        if c == 'b' || c == 'o' {
            let repeat: isize = match get_num(&prefix, 0) {
                Ok((n, _)) => n,
                Err(_) => 1,
            };
            proof {
                if let Ok((n, _)) = read_number(prefix@, 0) {
                    lemma_scan_digits_bounds(prefix@, 0, 0);
                }
            }
            let ghost col0 = col as int;
            let ghost before = coord_pairs(decoded@);
            let mut idx: isize = 0;
            while idx < repeat && col < isize::MAX
                invariant
                    0 <= idx <= repeat,
                    0 <= col0 <= col <= isize::MAX,
                    col == col0 + idx,
                    c == 'o' ==> coord_pairs(decoded@) == before + run_cells(col0, row as int, idx as int),
                    c == 'b' ==> coord_pairs(decoded@) == before,
                decreases repeat - idx,
            {
                if c == 'o' {
                    let ghost prev = decoded@;
                    decoded.push(Coord { col: col, row: row });
                    proof {
                        assert(coord_pairs(decoded@) =~= coord_pairs(prev).push((col as int, row as int)));
                        assert(run_cells(col0, row as int, idx + 1) =~= run_cells(col0, row as int, idx as int).push(
                            (col0 + idx, row as int),
                        ));
                        assert(coord_pairs(decoded@) =~= before + run_cells(col0, row as int, idx + 1));
                    }
                }
                col = col + 1;
                idx = idx + 1;
            }
            proof {
                let end = if col0 + repeat > isize::MAX { isize::MAX as int } else { col0 + repeat };
                assert(col == end);
                if c == 'b' {
                    assert(coord_pairs(decoded@) == before);
                }
            }
            prefix = Vec::new();
        }
        pos = pos + 1;
    }
    decoded
}

/// Drops a final carriage return.
pub open spec fn strip_cr(line: Seq<char>) -> Seq<char> {
    if line.len() > 0 && line.last() == '\r' {
        line.drop_last()
    } else {
        line
    }
}

/// The lines of `s` from `pos` on, `cur` the line being read: lines end at
/// `\n` (a `\r` before it is dropped); a last line without `\n` counts
/// where it is not empty.
pub open spec fn lines_from(s: Seq<char>, pos: int, cur: Seq<char>, acc: Seq<Seq<char>>) -> Seq<Seq<char>>
    decreases s.len() - pos,
{
    if pos < 0 || pos >= s.len() {
        if cur.len() > 0 {
            acc.push(cur)
        } else {
            acc
        }
    } else if s[pos] == '\n' {
        lines_from(s, pos + 1, Seq::empty(), acc.push(strip_cr(cur)))
    } else {
        lines_from(s, pos + 1, cur.push(s[pos]), acc)
    }
}

pub open spec fn lines_of(s: Seq<char>) -> Seq<Seq<char>> {
    lines_from(s, 0, Seq::empty(), Seq::empty())
}

/// The lines of a text held in memory.
pub struct StringDataProvider {
    lines: Vec<Vec<char>>,
}

pub open spec fn line_views(v: Seq<Vec<char>>) -> Seq<Seq<char>> {
    v.map_values(|l: Vec<char>| l@)
}

impl StringDataProvider {
    pub closed spec fn lines_spec(&self) -> Seq<Seq<char>> {
        line_views(self.lines@)
    }

    /// Splits the text into lines (see `lines_of`).
    pub fn new(input_string: String) -> (r: StringDataProvider)
        ensures
            r.lines_spec() == lines_of(input_string@),
    {
        let s = chars_of(input_string.as_str());
        let mut lines: Vec<Vec<char>> = Vec::new();
        let mut cur: Vec<char> = Vec::new();
        let mut pos: usize = 0;
        assert(line_views(lines@) =~= Seq::<Seq<char>>::empty());
        while pos < s.len()
            invariant
                pos <= s@.len(),
                s@ == input_string@,
                lines_from(s@, pos as int, cur@, line_views(lines@)) == lines_of(input_string@),
            decreases s@.len() - pos,
        {
            let c = s[pos];
            if c == '\n' {
                let ghost full = cur@;
                let n = cur.len();
                if n > 0 && cur[n - 1] == '\r' {
                    cur.pop();
                    assert(cur@ =~= strip_cr(full));
                } else {
                    assert(cur@ == strip_cr(full));
                }
                let ghost before = line_views(lines@);
                let ghost stripped = cur@;
                lines.push(cur);
                proof {
                    assert(line_views(lines@) =~= before.push(stripped));
                }
                cur = Vec::new();
            } else {
                cur.push(c);
            }
            pos = pos + 1;
        }
        if cur.len() > 0 {
            let ghost before = line_views(lines@);
            let ghost last = cur@;
            lines.push(cur);
            proof {
                assert(line_views(lines@) =~= before.push(last));
            }
        }
        StringDataProvider { lines }
    }
}

/// The first line from `i` on that is not a comment (`#` first); the
/// number of lines where there is none.
pub open spec fn header_index(lines: Seq<Seq<char>>, i: int) -> int
    decreases lines.len() - i,
{
    if i < 0 || i >= lines.len() {
        lines.len() as int
    } else if lines[i].len() > 0 && lines[i][0] == '#' {
        header_index(lines, i + 1)
    } else {
        i
    }
}

/// The row that follows `row`; rows stop at `isize::MAX`.
pub open spec fn next_row(row: int) -> int {
    if row < isize::MAX { row + 1 } else { row }
}

/// Reads one line of the pattern body from `pos` on. The state is the
/// text of the current row, the row number and the cells so far; `$` and
/// `!` end a row, whose runs are then decoded.
pub open spec fn body_line(line: Seq<char>, pos: int, st: (Seq<char>, int, Seq<(int, int)>)) -> (
    Seq<char>,
    int,
    Seq<(int, int)>,
)
    decreases line.len() - pos,
{
    if pos < 0 || pos >= line.len() {
        st
    } else {
        let c = line[pos];
        if c != '$' && c != '!' {
            body_line(line, pos + 1, (st.0.push(c), st.1, st.2))
        } else {
            body_line(line, pos + 1, (Seq::empty(), next_row(st.1), st.2 + rle_spec(st.0, st.1)))
        }
    }
}

/// Reads the body lines from `i` on.
pub open spec fn body_lines(lines: Seq<Seq<char>>, i: int, st: (Seq<char>, int, Seq<(int, int)>)) -> (
    Seq<char>,
    int,
    Seq<(int, int)>,
)
    decreases lines.len() - i,
{
    if i < 0 || i >= lines.len() {
        st
    } else {
        body_lines(lines, i + 1, body_line(lines[i], 0, st))
    }
}

/// A pattern: comments, then a header line that must lex, then the body.
/// The live cells are listed row by row, left to right. No header line
/// means no cells.
pub open spec fn parse_spec(lines: Seq<Seq<char>>) -> Result<Seq<(int, int)>, ParseErrorV> {
    let h = header_index(lines, 0);
    if h >= lines.len() {
        Ok(Seq::empty())
    } else {
        match lex_spec(lines[h]) {
            Err(e) => Err(e),
            Ok(_) => Ok(body_lines(lines, h + 1, (Seq::empty(), 0, Seq::empty())).2),
        }
    }
}

/// Reads a pattern (see `parse_spec`).
pub fn parse_stream(data_provider: &StringDataProvider) -> (r: Result<Vec<Coord>, ParseError>)
    ensures
        match r {
            Ok(v) => parse_spec(data_provider.lines_spec()) == Ok::<Seq<(int, int)>, ParseErrorV>(coord_pairs(v@)),
            Err(e) => parse_spec(data_provider.lines_spec()) == Err::<Seq<(int, int)>, ParseErrorV>(e@),
        },
{
    let lines = &data_provider.lines;
    let ghost ls = line_views(lines@);
    let mut i: usize = 0;
    while i < lines.len() && lines[i].len() > 0 && lines[i][0] == '#'
        invariant
            i <= lines@.len(),
            ls == line_views(lines@),
            header_index(ls, i as int) == header_index(ls, 0),
        decreases lines@.len() - i,
    {
        // a comment line
        assert(ls[i as int] == lines@[i as int]@);
        i = i + 1;
    }
    proof {
        if i < lines@.len() {
            assert(ls[i as int] == lines@[i as int]@);
        }
    }
    if i >= lines.len() {
        let empty: Vec<Coord> = Vec::new();
        assert(coord_pairs(empty@) =~= Seq::<(int, int)>::empty());
        return Ok(empty);
    }
    match lexer_chars(&lines[i]) {
        Err(e) => {
            return Err(e);
        },
        Ok(_) => {},
    }
    let mut coords: Vec<Coord> = Vec::new();
    let mut rle_line: Vec<char> = Vec::new();
    let mut row: isize = 0;
    let ghost target = body_lines(ls, i + 1, (Seq::empty(), 0, Seq::empty()));
    let mut li: usize = i + 1;
    assert(coord_pairs(coords@) =~= Seq::<(int, int)>::empty());
    while li < lines.len()
        invariant
            i < li <= lines@.len(),
            ls == line_views(lines@),
            0 <= row,
            body_lines(ls, li as int, (rle_line@, row as int, coord_pairs(coords@))) == target,
        decreases lines@.len() - li,
    {
        let line = &lines[li];
        assert(ls[li as int] == line@);
        let mut pos: usize = 0;
        while pos < line.len()
            invariant
                pos <= line@.len(),
                li < lines@.len(),
                ls == line_views(lines@),
                *line == lines@[li as int],
                0 <= row,
                body_lines(ls, li + 1, body_line(line@, pos as int, (rle_line@, row as int, coord_pairs(coords@))))
                    == target,
            decreases line@.len() - pos,
        {
            let c = line[pos];
            if c != '$' && c != '!' {
                rle_line.push(c);
            } else {
                let mut decoded = rle_decoder(&rle_line, row);
                let ghost before = coord_pairs(coords@);
                let ghost added = coord_pairs(decoded@);
                let ghost old_coords = coords@;
                let ghost old_decoded = decoded@;
                coords.append(&mut decoded);
                proof {
                    assert(coords@ == old_coords + old_decoded);
                    assert(coord_pairs(coords@) =~= before + added);
                }
                rle_line = Vec::new();
                if row < isize::MAX {
                    row = row + 1;
                }
            }
            pos = pos + 1;
        }
        li = li + 1;
    }
    Ok(coords)
}

/// Reads a pattern from a text.
pub fn from_string(input_string: String) -> (r: Result<Vec<Coord>, ParseError>)
    ensures
        match r {
            Ok(v) => parse_spec(lines_of(input_string@)) == Ok::<Seq<(int, int)>, ParseErrorV>(coord_pairs(v@)),
            Err(e) => parse_spec(lines_of(input_string@)) == Err::<Seq<(int, int)>, ParseErrorV>(e@),
        },
{
    let data_provider = StringDataProvider::new(input_string);
    parse_stream(&data_provider)
}

} // verus!
