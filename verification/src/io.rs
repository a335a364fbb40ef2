//! Obtaining the disk count from the user: parsing a command-line argument
//! and parsing one line of interactive input. The number format and the trim
//! behaviour follow the standard library's `str::parse::<u32>` and
//! `str::trim`, stated here as spec functions and implemented as verified
//! code; only the actual read from the input stream is trusted.

use vstd::prelude::*;

verus! {

/// Why a numeral failed to parse, mirroring the three cases of the standard
/// library's integer parser that a `u32` can hit.
#[derive(Clone, Copy, Debug, PartialEq, Eq, Structural)]
pub enum ParseNumberError {
    /// The input had no characters at all.
    Empty,
    /// A character was not a decimal digit (a lone sign counts here too).
    InvalidDigit,
    /// The digits denote a value above `u32::MAX`.
    Overflow,
}

/// The characters `str::trim` strips: the Unicode White_Space set.
pub open spec fn is_whitespace_char(c: char) -> bool {
    let v = c as u32;
    ||| v == 0x20
    ||| (0x09 <= v && v <= 0x0D)
    ||| v == 0x85
    ||| v == 0xA0
    ||| v == 0x1680
    ||| (0x2000 <= v && v <= 0x200A)
    ||| v == 0x2028
    ||| v == 0x2029
    ||| v == 0x202F
    ||| v == 0x205F
    ||| v == 0x3000
}

/// `s` with leading and trailing whitespace stripped.
pub open spec fn trimmed(s: Seq<char>) -> Seq<char>
    decreases s.len(),
{
    if s.len() == 0 {
        s
    } else if is_whitespace_char(s.first()) {
        trimmed(s.drop_first())
    } else if is_whitespace_char(s.last()) {
        trimmed(s.drop_last())
    } else {
        s
    }
}

/// Decimal digits.
pub open spec fn is_ascii_digit(c: char) -> bool {
    0x30 <= c as u32 && c as u32 <= 0x39
}

/// The value of the decimal digit `c`.
pub open spec fn digit_value(c: char) -> nat {
    (c as u32 - 0x30) as nat
}

/// Accumulating digits left to right onto `acc`, as the standard library's
/// integer parser does: the first non-digit stops with `InvalidDigit`, the
/// first accumulation past `u32::MAX` stops with `Overflow`.
pub open spec fn scan_digits(s: Seq<char>, acc: nat) -> Result<u32, ParseNumberError>
    decreases s.len(),
{
    if s.len() == 0 {
        Ok(acc as u32)
    } else if !is_ascii_digit(s.first()) {
        Err(ParseNumberError::InvalidDigit)
    } else if acc * 10 + digit_value(s.first()) > u32::MAX {
        Err(ParseNumberError::Overflow)
    } else {
        scan_digits(s.drop_first(), acc * 10 + digit_value(s.first()))
    }
}

/// What `str::parse::<u32>` returns for `s`: an optional leading `+`, then at
/// least one decimal digit, scanned left to right.
pub open spec fn spec_parse_u32(s: Seq<char>) -> Result<u32, ParseNumberError> {
    if s.len() == 0 {
        Err(ParseNumberError::Empty)
    } else {
        let body = if s.first() == '+' {
            s.drop_first()
        } else {
            s
        };
        if body.len() == 0 {
            Err(ParseNumberError::InvalidDigit)
        } else {
            scan_digits(body, 0)
        }
    }
}

/// The text the standard library's integer parser reports for each failure.
pub open spec fn parse_error_text(error: ParseNumberError) -> Seq<char> {
    match error {
        ParseNumberError::Empty => "cannot parse integer from empty string"@,
        ParseNumberError::InvalidDigit => "invalid digit found in string"@,
        ParseNumberError::Overflow => "number too large to fit in target type"@,
    }
}

/// Whether `c` is whitespace in the sense of `str::trim`.
fn is_whitespace(c: char) -> (white: bool)
    ensures
        white == is_whitespace_char(c),
{
    let v = c as u32;
    v == 0x20 || (0x09 <= v && v <= 0x0D) || v == 0x85 || v == 0xA0 || v == 0x1680 || (0x2000 <= v
        && v <= 0x200A) || v == 0x2028 || v == 0x2029 || v == 0x202F || v == 0x205F || v == 0x3000
}

/// A subrange that keeps no surrounding whitespace and drops only whitespace
/// is exactly the trimmed sequence.
proof fn lemma_trimmed_subrange(s: Seq<char>, start: int, end: int)
    requires
        0 <= start <= end <= s.len(),
        forall|i: int| 0 <= i < start ==> is_whitespace_char(#[trigger] s[i]),
        forall|i: int| end <= i < s.len() ==> is_whitespace_char(#[trigger] s[i]),
        start < end ==> !is_whitespace_char(s[start]) && !is_whitespace_char(s[end - 1]),
    ensures
        trimmed(s) == s.subrange(start, end),
    decreases s.len(),
{
    if s.len() == 0 {
        assert(trimmed(s) =~= s.subrange(start, end));
    } else if is_whitespace_char(s.first()) {
        let rest = s.drop_first();
        if start > 0 {
            lemma_trimmed_subrange(rest, start - 1, end - 1);
            assert(rest.subrange(start - 1, end - 1) =~= s.subrange(start, end));
        } else {
            // The first character is whitespace yet not before `start`, so
            // the kept range is empty and everything is whitespace.
            assert(start == end);
            lemma_trimmed_subrange(rest, 0, 0);
            assert(rest.subrange(0, 0) =~= s.subrange(start, end));
        }
    } else if is_whitespace_char(s.last()) {
        // The first character is kept, so `start == 0` and the whitespace
        // last character lies at or beyond `end`.
        let head = s.drop_last();
        assert(start == 0);
        assert(end < s.len());
        lemma_trimmed_subrange(head, 0, end);
        assert(head.subrange(0, end) =~= s.subrange(start, end));
    } else {
        // Neither end is whitespace: everything is kept.
        assert(start == 0);
        assert(end == s.len());
        assert(trimmed(s) =~= s.subrange(start, end));
    }
}

/// Strips leading and trailing whitespace, as `str::trim` does.
pub fn trim(s: &str) -> (t: &str)
    ensures
        t@ == trimmed(s@),
{
    let len = s.unicode_len();
    let mut start: usize = 0;
    while start < len && is_whitespace(s.get_char(start))
        invariant
            start <= len == s@.len(),
            forall|i: int| 0 <= i < start ==> is_whitespace_char(#[trigger] s@[i]),
        decreases len - start,
    {
        start = start + 1;
    }
    let mut end: usize = len;
    while end > start && is_whitespace(s.get_char(end - 1))
        invariant
            start <= end <= len == s@.len(),
            forall|i: int| 0 <= i < start ==> is_whitespace_char(#[trigger] s@[i]),
            start == len || !is_whitespace_char(s@[start as int]),
            forall|i: int| end <= i < len ==> is_whitespace_char(#[trigger] s@[i]),
        decreases end,
    {
        end = end - 1;
    }
    let t = s.substring_char(start, end);
    proof {
        lemma_trimmed_subrange(s@, start as int, end as int);
    }
    t
}

/// Parses `s` as the standard library's `str::parse::<u32>` does: an optional
/// leading `+`, then at least one decimal digit, with overflow checked at
/// each accumulation step.
pub fn parse_u32(s: &str) -> (result: Result<u32, ParseNumberError>)
    ensures
        result == spec_parse_u32(s@),
{
    let len = s.unicode_len();
    if len == 0 {
        return Err(ParseNumberError::Empty);
    }
    let first = s.get_char(0);
    let start: usize = if first == '+' {
        1
    } else {
        0
    };
    if start == len {
        return Err(ParseNumberError::InvalidDigit);
    }
    proof {
        assert(s@.drop_first() =~= s@.skip(1));
        assert(s@ =~= s@.skip(0));
    }
    let mut i: usize = start;
    let mut acc: u32 = 0;
    while i < len
        invariant
            start <= i <= len == s@.len(),
            spec_parse_u32(s@) == scan_digits(s@.skip(start as int), 0),
            scan_digits(s@.skip(start as int), 0) == scan_digits(s@.skip(i as int), acc as nat),
        decreases len - i,
    {
        let c = s.get_char(i);
        let v = c as u32;
        if v < 0x30 || v > 0x39 {
            return Err(ParseNumberError::InvalidDigit);
        }
        let d = v - 0x30;
        let next = match acc.checked_mul(10) {
            Some(times_ten) => times_ten.checked_add(d),
            None => None,
        };
        match next {
            Some(value) => {
                proof {
                    assert(s@.skip(i as int).drop_first() =~= s@.skip(i + 1));
                }
                acc = value;
                i = i + 1;
            },
            None => {
                return Err(ParseNumberError::Overflow);
            },
        }
    }
    proof {
        assert(s@.skip(len as int) =~= Seq::<char>::empty());
    }
    Ok(acc)
}

/// Renders a parse failure as the text given by `parse_error_text`.
pub fn parse_error_message(error: ParseNumberError) -> (text: String)
    ensures
        text@ == parse_error_text(error),
{
    match error {
        ParseNumberError::Empty => String::from_str("cannot parse integer from empty string"),
        ParseNumberError::InvalidDigit => String::from_str("invalid digit found in string"),
        ParseNumberError::Overflow => String::from_str("number too large to fit in target type"),
    }
}

/// Reads the disk count from the leading command-line argument: `None` when
/// no argument was given, the parsed number, or an error text naming the
/// rejected argument.
pub fn get_disk_command_line_parameter(args: &[String]) -> (result: Result<Option<u32>, String>)
    ensures
        args@.len() == 0 ==> result == Ok::<Option<u32>, String>(None),
        args@.len() > 0 ==> match spec_parse_u32(args@[0]@) {
            Ok(amount) => result == Ok::<Option<u32>, String>(Some(amount)),
            Err(_) => (result matches Err(text) && text@ == "Invalid disk amount: "@ + args@[0]@),
        },
{
    if args.len() == 0 {
        return Ok(None);
    }
    let argument = &args[0];
    match parse_u32(argument.as_str()) {
        Ok(amount) => Ok(Some(amount)),
        Err(_) => {
            let mut text = String::from_str("Invalid disk amount: ");
            text.append(argument.as_str());
            Err(text)
        },
    }
}

/// The reply to one line of user input: nothing on a line that is blank after
/// trimming, the parsed number, or the parser's error text.
pub open spec fn spec_user_input_reply(line: Seq<char>) -> Result<Option<u32>, Seq<char>> {
    let content = trimmed(line);
    if content.len() == 0 {
        Ok(None)
    } else {
        match spec_parse_u32(content) {
            Ok(amount) => Ok(Some(amount)),
            Err(error) => Err(parse_error_text(error)),
        }
    }
}

/// Handles one line of user input: strips surrounding whitespace, then treats
/// a blank line as "no answer" and parses anything else as the disk count.
pub fn parse_user_input_line(line: &str) -> (result: Result<Option<u32>, String>)
    ensures
        result matches Ok(reply) ==> spec_user_input_reply(line@) == Ok::<
            Option<u32>,
            Seq<char>,
        >(reply),
        result matches Err(text) ==> spec_user_input_reply(line@) == Err::<
            Option<u32>,
            Seq<char>,
        >(text@),
{
    let content = trim(line);
    if content.unicode_len() == 0 {
        return Ok(None);
    }
    match parse_u32(content) {
        Ok(amount) => Ok(Some(amount)),
        Err(error) => Err(parse_error_message(error)),
    }
}

/// Relies on `std::io::BufRead::read_line`: reads one line (terminator
/// included) from the reader, or reports the read failure as text. What comes
/// back depends on the reader's state, so nothing is assumed about it.
#[verifier::external_body]
fn read_line_text<R: std::io::BufRead>(reader: &mut R) -> (result: Result<String, String>) {
    let mut input = String::new();
    match reader.read_line(&mut input) {
        Ok(_) => Ok(input),
        Err(error) => Err(error.to_string()),
    }
}

/// Reads one line from `reader` and interprets it with
/// `parse_user_input_line`: a blank line yields no answer, a numeral yields
/// the disk count, anything else the parse error text; a failed read yields
/// the reader's error text. Every successful reply is the fixed reply to some
/// input line.
pub fn get_disk_amount_from_user_input<R: std::io::BufRead>(reader: &mut R) -> (result: Result<
    Option<u32>,
    String,
>)
    ensures
        result matches Ok(reply) ==> exists|line: Seq<char>|
            #[trigger] spec_user_input_reply(line) == Ok::<Option<u32>, Seq<char>>(reply),
{
    match read_line_text(reader) {
        Ok(line) => {
            let result = parse_user_input_line(line.as_str());
            proof {
                if result is Ok {
                    assert(spec_user_input_reply(line@) == Ok::<Option<u32>, Seq<char>>(
                        result->Ok_0,
                    ));
                }
            }
            result
        },
        Err(message) => Err(message),
    }
}

} // verus!
