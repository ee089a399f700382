//! Diagnostics of the compiler: the error types and the layout of a
//! position-anchored message.

use vstd::prelude::*;

verus! {

broadcast use vstd::string::group_string_axioms;

/// The character that stands for the digit `d`.
pub open spec fn digit_char(d: nat) -> char
    recommends
        d < 10,
{
    ((d + 48) as u8) as char
}

/// `n` written in base ten, without leading zeros.
pub open spec fn decimal_digits(n: nat) -> Seq<char>
    decreases n,
{
    if n < 10 {
        seq![digit_char(n)]
    } else {
        decimal_digits(n / 10).push(digit_char(n % 10))
    }
}

/// Where the line begins that follows `k` line breaks counted from `from`;
/// the end of the text when it holds fewer.
pub open spec fn skip_lines(text: Seq<char>, from: int, k: nat) -> int
    decreases text.len() - from,
{
    if k == 0 || from >= text.len() {
        from
    } else if text[from] == '\n' {
        skip_lines(text, from + 1, (k - 1) as nat)
    } else {
        skip_lines(text, from + 1, k)
    }
}

/// The position of the first line break at or after `from`; the end of
/// the text when there is none.
pub open spec fn line_end(text: Seq<char>, from: int) -> int
    decreases text.len() - from,
{
    if from >= text.len() {
        from
    } else if text[from] == '\n' {
        from
    } else {
        line_end(text, from + 1)
    }
}

/// The text of line `line_number`, counted from one, without its line
/// break. A line that ends in a carriage return and a line feed loses both.
/// A line that the text does not have is empty.
pub open spec fn line_text(text: Seq<char>, line_number: nat) -> Seq<char> {
    if line_number == 0 {
        Seq::empty()
    } else {
        let start = skip_lines(text, 0, (line_number - 1) as nat);
        let end = line_end(text, start);
        let stop = if start < end < text.len() && text[end - 1] == '\r' {
            end - 1
        } else {
            end
        };
        text.subrange(start, stop)
    }
}

/// How many characters stand between the start of its line and position
/// `pos`. A position beyond the text counts as its end.
pub open spec fn column_at(text: Seq<char>, pos: int) -> nat
    decreases pos,
{
    if pos <= 0 {
        0
    } else if pos > text.len() {
        column_at(text, text.len() as int)
    } else if text[pos - 1] == '\n' {
        0
    } else {
        column_at(text, pos - 1) + 1
    }
}

/// The number of line breaks before position `pos`.
pub open spec fn newlines_before(text: Seq<char>, pos: int) -> nat
    decreases pos,
{
    if pos <= 0 || pos > text.len() {
        0
    } else if text[pos - 1] == '\n' {
        newlines_before(text, pos - 1) + 1
    } else {
        newlines_before(text, pos - 1)
    }
}

/// No more line breaks stand before a position than characters.
pub proof fn lemma_newlines_bound(text: Seq<char>, pos: int)
    ensures
        newlines_before(text, pos) <= pos || pos < 0,
    decreases pos,
{
    if 0 < pos <= text.len() {
        lemma_newlines_bound(text, pos - 1);
    }
}

/// A run of `n` dashes.
pub open spec fn dashes(n: nat) -> Seq<char> {
    Seq::new(n, |i: int| '-')
}

/// The rendered diagnostic: the line's number and text, a caret placed
/// under the offending column, an empty line, and what is wrong.
pub open spec fn error_message_text(
    code: Seq<char>,
    line_number: nat,
    global_char_index: int,
    error_message: Seq<char>,
) -> Seq<char> {
    "Line "@ + decimal_digits(line_number) + ": "@ + line_text(code, line_number) + "\n"@
        + "--------"@ + dashes(column_at(code, global_char_index)) + "^ Error here\n"@ + "\n"@
        + error_message
}

/// One structural error, as its rendered message.
#[derive(Debug)]
pub struct ParseError {
    pub message: String,
}

impl View for ParseError {
    type V = Seq<char>;

    open spec fn view(&self) -> Seq<char> {
        self.message@
    }
}

impl ParseError {
    /// An error with the given rendered message.
    pub fn new(message: &str) -> (error: Self)
        ensures
            error@ == message@,
    {
        ParseError { message: message.to_owned() }
    }
}

/// Every structural error found in one pass over a source text.
#[derive(Debug)]
pub struct ParseErrors {
    pub errors: Vec<ParseError>,
}

impl View for ParseErrors {
    type V = Seq<Seq<char>>;

    open spec fn view(&self) -> Seq<Seq<char>> {
        Seq::new(self.errors@.len(), |i: int| self.errors@[i]@)
    }
}

impl ParseErrors {
    /// No errors yet.
    pub fn new() -> (errors: Self)
        ensures
            errors@ == Seq::<Seq<char>>::empty(),
    {
        let errors = ParseErrors { errors: Vec::new() };
        assert(errors@ =~= Seq::<Seq<char>>::empty());
        errors
    }
}

/// The characters of `code`, one by one.
pub(crate) fn collect_chars(code: &str) -> (chars: Vec<char>)
    ensures
        chars@ == code@,
{
    let mut chars: Vec<char> = Vec::new();
    let source = code.chars();
    for c in it: source
        invariant
            it.seq() == code@,
            chars@ == it.seq().take(it.index()),
    {
        chars.push(c);
        assert(it.seq().take(it.index() + 1) =~= it.seq().take(it.index()).push(c));
    }
    assert(chars@ =~= code@);
    chars
}

/// Appends the base-ten form of `n` to `out`.
fn push_decimal(out: &mut String, n: usize)
    ensures
        final(out)@ == old(out)@ + decimal_digits(n as nat),
    decreases n,
{
    if n >= 10 {
        push_decimal(out, n / 10);
    }
    let d: usize = n % 10;
    let digit: &str = if d == 0 {
        "0"
    } else if d == 1 {
        "1"
    } else if d == 2 {
        "2"
    } else if d == 3 {
        "3"
    } else if d == 4 {
        "4"
    } else if d == 5 {
        "5"
    } else if d == 6 {
        "6"
    } else if d == 7 {
        "7"
    } else if d == 8 {
        "8"
    } else {
        "9"
    };
    proof {
        reveal_strlit("0");
        reveal_strlit("1");
        reveal_strlit("2");
        reveal_strlit("3");
        reveal_strlit("4");
        reveal_strlit("5");
        reveal_strlit("6");
        reveal_strlit("7");
        reveal_strlit("8");
        reveal_strlit("9");
        assert(digit@ =~= seq![digit_char(d as nat)]);
    }
    out.append(digit);
    assert(out@ =~= old(out)@ + decimal_digits(n as nat));
}

/// The bounds of line `line_number` within `chars`, its line break left out.
fn line_bounds(chars: &Vec<char>, line_number: usize) -> (bounds: (usize, usize))
    ensures
        bounds.0 <= bounds.1 <= chars@.len(),
        chars@.subrange(bounds.0 as int, bounds.1 as int) == line_text(chars@, line_number as nat),
{
    if line_number == 0 {
        assert(chars@.subrange(0, 0) =~= Seq::<char>::empty());
        return (0, 0);
    }
    let mut i: usize = 0;
    let mut k: usize = line_number - 1;
    while k > 0 && i < chars.len()
        invariant
            i <= chars@.len(),
            skip_lines(chars@, 0, (line_number - 1) as nat) == skip_lines(chars@, i as int, k as nat),
        decreases chars@.len() - i,
    {
        if chars[i] == '\n' {
            k -= 1;
        }
        i += 1;
    }
    let start: usize = i;
    while i < chars.len() && chars[i] != '\n'
        invariant
            start <= i <= chars@.len(),
            line_end(chars@, start as int) == line_end(chars@, i as int),
        decreases chars@.len() - i,
    {
        i += 1;
    }
    let end: usize = i;
    let stop: usize = if start < end && end < chars.len() && chars[end - 1] == '\r' {
        end - 1
    } else {
        end
    };
    (start, stop)
}

/// The column of position `global_char_index` within its line.
fn column_of(chars: &Vec<char>, global_char_index: usize) -> (column: usize)
    ensures
        column == column_at(chars@, global_char_index as int),
        column <= chars@.len(),
{
    let end: usize = if global_char_index < chars.len() {
        global_char_index
    } else {
        chars.len()
    };
    let mut column: usize = 0;
    let mut i: usize = 0;
    while i < end
        invariant
            i <= end <= chars@.len(),
            column <= i,
            column == column_at(chars@, i as int),
        decreases end - i,
    {
        if chars[i] == '\n' {
            column = 0;
        } else {
            column += 1;
        }
        i += 1;
    }
    column
}

/// Renders the diagnostic for an error at character `global_char_index` of
/// `code`, on line `line_number`.
pub fn format_error_message(
    code: &str,
    line_number: usize,
    global_char_index: usize,
    error_message: &str,
) -> (message: String)
    ensures
        message@ == error_message_text(
            code@,
            line_number as nat,
            global_char_index as int,
            error_message@,
        ),
{
    let chars = collect_chars(code);
    let (start, stop) = line_bounds(&chars, line_number);
    let column = column_of(&chars, global_char_index);

    let mut message = String::from_str("Line ");
    push_decimal(&mut message, line_number);
    message.append(": ");
    message.append(code.substring_char(start, stop));
    message.append("\n");
    message.append("--------");
    let ghost head = message@;
    let mut i: usize = 0;
    while i < column
        invariant
            i <= column,
            message@ == head + dashes(i as nat),
        decreases column - i,
    {
        proof {
            reveal_strlit("-");
        }
        message.append("-");
        i += 1;
        assert(message@ =~= head + dashes(i as nat));
    }
    message.append("^ Error here\n");
    message.append("\n");
    message.append(error_message);
    assert(message@ =~= error_message_text(
        code@,
        line_number as nat,
        global_char_index as int,
        error_message@,
    ));
    message
}

} // verus!
