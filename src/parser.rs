//! The log-line grammar and the parser that turns one line into a `LogEntry`.
//!
//! A line reads `TIMESTAMP [LEVEL] IP METHOD ENDPOINT STATUS`, its fields
//! separated by runs of whitespace, with any whitespace around the whole line
//! ignored.
use crate::text::{chars_of, first_chars, push_str, same_chars, split_words, string_of, words};
use vstd::prelude::*;

verus! {

/// A single parsed log entry.
#[derive(Debug, Clone, PartialEq)]
pub struct LogEntry {
    pub timestamp: String,
    pub level: LogLevel,
    pub ip: String,
    pub method: HttpMethod,
    pub endpoint: String,
    pub status_code: u16,
}

/// Log severity levels.
#[derive(Debug, Clone, Copy, PartialEq, Eq, Hash, Structural)]
pub enum LogLevel {
    Info,
    Warn,
    Error,
}

/// HTTP methods: seven known verbs, and any other upper-case token verbatim.
#[derive(Debug, Clone, PartialEq, Eq, Hash)]
pub enum HttpMethod {
    Get,
    Post,
    Put,
    Delete,
    Patch,
    Head,
    Options,
    Other(String),
}

/// Why a line could not be parsed.
#[derive(Debug)]
pub enum ParseError {
    /// The line does not have the shape of a log line; holds its first 100
    /// characters.
    InvalidFormat(String),
    /// A field had the right shape but could not be converted.
    InvalidField { field: &'static str, value: String },
}

/// How many characters of a rejected line an `InvalidFormat` keeps.
pub const SHOWN_CHARS: usize = 100;

pub open spec fn is_digit(c: char) -> bool {
    '0' <= c && c <= '9'
}

pub open spec fn is_upper(c: char) -> bool {
    'A' <= c && c <= 'Z'
}

/// The level that a bare level word names.
pub open spec fn level_named(w: Seq<char>) -> Option<LogLevel> {
    if w == seq!['I', 'N', 'F', 'O'] {
        Some(LogLevel::Info)
    } else if w == seq!['W', 'A', 'R', 'N'] {
        Some(LogLevel::Warn)
    } else if w == seq!['E', 'R', 'R', 'O', 'R'] {
        Some(LogLevel::Error)
    } else {
        None
    }
}

/// The level of a word such as `[INFO]`: a level name in square brackets.
pub open spec fn bracketed_level(w: Seq<char>) -> Option<LogLevel> {
    if w.len() >= 2 && w[0] == '[' && w.last() == ']' {
        level_named(w.subrange(1, w.len() - 1))
    } else {
        None
    }
}

/// The number of ASCII digits that end `t[..end]`.
pub open spec fn trailing_digits(t: Seq<char>, end: int) -> nat
    decreases end,
{
    if 0 < end <= t.len() && is_digit(t[end - 1]) {
        trailing_digits(t, end - 1) + 1
    } else {
        0
    }
}

/// `t[..end]` is `n` groups of one to three ASCII digits joined by dots.
pub open spec fn dotted_groups(t: Seq<char>, end: int, n: nat) -> bool
    decreases n,
{
    let k = trailing_digits(t, end);
    if n == 0 {
        false
    } else if n == 1 {
        1 <= k <= 3 && k == end
    } else {
        1 <= k <= 3 && k < end && t[end - k - 1] == '.' && dotted_groups(t, end - k - 1, (n - 1) as nat)
    }
}

/// A dotted quad: four groups of one to three digits. Group values are not
/// bounded.
pub open spec fn is_ip(t: Seq<char>) -> bool {
    dotted_groups(t, t.len() as int, 4)
}

pub open spec fn is_method_word(t: Seq<char>) -> bool {
    t.len() >= 1 && forall|i: int| 0 <= i < t.len() ==> is_upper(#[trigger] t[i])
}

pub open spec fn is_status_word(t: Seq<char>) -> bool {
    t.len() == 3 && forall|i: int| 0 <= i < 3 ==> is_digit(#[trigger] t[i])
}

pub open spec fn digit_value(c: char) -> int {
    c as int - '0' as int
}

pub open spec fn status_value(t: Seq<char>) -> int {
    100 * digit_value(t[0]) + 10 * digit_value(t[1]) + digit_value(t[2])
}

/// The text of a method: its verb, or the token an unknown method holds.
pub open spec fn method_text(m: HttpMethod) -> Seq<char> {
    match m {
        HttpMethod::Get => seq!['G', 'E', 'T'],
        HttpMethod::Post => seq!['P', 'O', 'S', 'T'],
        HttpMethod::Put => seq!['P', 'U', 'T'],
        HttpMethod::Delete => seq!['D', 'E', 'L', 'E', 'T', 'E'],
        HttpMethod::Patch => seq!['P', 'A', 'T', 'C', 'H'],
        HttpMethod::Head => seq!['H', 'E', 'A', 'D'],
        HttpMethod::Options => seq!['O', 'P', 'T', 'I', 'O', 'N', 'S'],
        HttpMethod::Other(s) => s@,
    }
}

pub open spec fn is_known_method(t: Seq<char>) -> bool {
    ||| t == method_text(HttpMethod::Get)
    ||| t == method_text(HttpMethod::Post)
    ||| t == method_text(HttpMethod::Put)
    ||| t == method_text(HttpMethod::Delete)
    ||| t == method_text(HttpMethod::Patch)
    ||| t == method_text(HttpMethod::Head)
    ||| t == method_text(HttpMethod::Options)
}

/// `m` is the method that the token `t` denotes: a known verb by its own
/// variant, anything else as `Other` holding the token.
pub open spec fn method_of(m: HttpMethod, t: Seq<char>) -> bool {
    &&& method_text(m) == t
    &&& (m is Other ==> !is_known_method(t))
}

pub open spec fn level_text(l: LogLevel) -> Seq<char> {
    match l {
        LogLevel::Info => seq!['I', 'N', 'F', 'O'],
        LogLevel::Warn => seq!['W', 'A', 'R', 'N'],
        LogLevel::Error => seq!['E', 'R', 'R', 'O', 'R'],
    }
}

/// The line has the shape of a log line.
pub open spec fn is_log_line(line: Seq<char>) -> bool {
    let w = words(line);
    &&& w.len() == 6
    &&& bracketed_level(w[1]) is Some
    &&& is_ip(w[2])
    &&& is_method_word(w[3])
    &&& is_status_word(w[5])
}

/// `e` holds the fields of the log line `line`.
pub open spec fn entry_of(line: Seq<char>, e: LogEntry) -> bool {
    let w = words(line);
    &&& e.timestamp@ == w[0]
    &&& bracketed_level(w[1]) == Some(e.level)
    &&& e.ip@ == w[2]
    &&& method_of(e.method, w[3])
    &&& e.endpoint@ == w[4]
    &&& e.status_code as int == status_value(w[5])
}

fn digit(c: char) -> (r: bool)
    ensures
        r == is_digit(c),
{
    '0' <= c && c <= '9'
}

/// Reads a bare level name.
pub fn parse_level(s: &str) -> (r: Result<LogLevel, ParseError>)
    ensures
        match level_named(s@) {
            Some(l) => r matches Ok(x) && x == l,
            None => r matches Err(ParseError::InvalidField { field, value }) && field@ == "level"@
                && value@ == s@,
        },
{
    let c = chars_of(s);
    if same_chars(&c, &vec!['I', 'N', 'F', 'O']) {
        Ok(LogLevel::Info)
    } else if same_chars(&c, &vec!['W', 'A', 'R', 'N']) {
        Ok(LogLevel::Warn)
    } else if same_chars(&c, &vec!['E', 'R', 'R', 'O', 'R']) {
        Ok(LogLevel::Error)
    } else {
        Err(ParseError::InvalidField { field: "level", value: s.to_owned() })
    }
}

/// Reads a method token: a known verb, or `Other` holding the token.
pub fn parse_method(s: &str) -> (r: HttpMethod)
    ensures
        method_of(r, s@),
{
    let c = chars_of(s);
    if same_chars(&c, &vec!['G', 'E', 'T']) {
        HttpMethod::Get
    } else if same_chars(&c, &vec!['P', 'O', 'S', 'T']) {
        HttpMethod::Post
    } else if same_chars(&c, &vec!['P', 'U', 'T']) {
        HttpMethod::Put
    } else if same_chars(&c, &vec!['D', 'E', 'L', 'E', 'T', 'E']) {
        HttpMethod::Delete
    } else if same_chars(&c, &vec!['P', 'A', 'T', 'C', 'H']) {
        HttpMethod::Patch
    } else if same_chars(&c, &vec!['H', 'E', 'A', 'D']) {
        HttpMethod::Head
    } else if same_chars(&c, &vec!['O', 'P', 'T', 'I', 'O', 'N', 'S']) {
        HttpMethod::Options
    } else {
        HttpMethod::Other(s.to_owned())
    }
}

fn trailing_digit_count(t: &Vec<char>, end: usize) -> (k: usize)
    requires
        end <= t.len(),
    ensures
        k == trailing_digits(t@, end as int),
{
    let mut j = end;
    while j > 0 && digit(t[j - 1])
        invariant
            j <= end <= t.len(),
            trailing_digits(t@, end as int) == trailing_digits(t@, j as int) + (end - j),
        decreases j,
    {
        j = j - 1;
    }
    end - j
}

fn has_dotted_groups(t: &Vec<char>, end: usize, n: usize) -> (r: bool)
    requires
        end <= t.len(),
    ensures
        r == dotted_groups(t@, end as int, n as nat),
    decreases n,
{
    let k = trailing_digit_count(t, end);
    if n == 0 {
        false
    } else if n == 1 {
        1 <= k && k <= 3 && k == end
    } else {
        1 <= k && k <= 3 && k < end && t[end - k - 1] == '.' && has_dotted_groups(t, end - k - 1, n - 1)
    }
}

fn ip_shaped(t: &Vec<char>) -> (r: bool)
    ensures
        r == is_ip(t@),
{
    has_dotted_groups(t, t.len(), 4)
}

fn method_shaped(t: &Vec<char>) -> (r: bool)
    ensures
        r == is_method_word(t@),
{
    if t.len() == 0 {
        return false;
    }
    let mut i: usize = 0;
    while i < t.len()
        invariant
            i <= t.len(),
            forall|j: int| 0 <= j < i ==> is_upper(#[trigger] t@[j]),
        decreases t.len() - i,
    {
        if !('A' <= t[i] && t[i] <= 'Z') {
            return false;
        }
        i = i + 1;
    }
    true
}

fn status_shaped(t: &Vec<char>) -> (r: bool)
    ensures
        r == is_status_word(t@),
{
    t.len() == 3 && digit(t[0]) && digit(t[1]) && digit(t[2])
}

fn format_error(line: &Vec<char>) -> (e: ParseError)
    ensures
        e matches ParseError::InvalidFormat(m) && m@ == first_chars(line@, SHOWN_CHARS as nat),
{
    let n = if line.len() <= SHOWN_CHARS {
        line.len()
    } else {
        SHOWN_CHARS
    };
    assert(line@.subrange(0, line.len() as int) == line@);
    ParseError::InvalidFormat(string_of(line, 0, n))
}

/// Parses one log line. The line is either a log line, and the result the
/// entry holding its fields, or it is not, and the result an `InvalidFormat`
/// holding its first 100 characters. Parsing never fails otherwise.
pub fn parse_log_line(line: &str) -> (r: Result<LogEntry, ParseError>)
    ensures
        match r {
            Ok(e) => is_log_line(line@) && entry_of(line@, e),
            Err(ParseError::InvalidFormat(m)) => !is_log_line(line@) && m@ == first_chars(
                line@,
                SHOWN_CHARS as nat,
            ),
            Err(ParseError::InvalidField { .. }) => false,
        },
{
    let chars = chars_of(line);
    let w = split_words(&chars);
    let ghost ws = words(line@);
    if w.len() != 6 {
        return Err(format_error(&chars));
    }
    assert(forall|i: int| 0 <= i < 6 ==> w@[i]@ == #[trigger] ws[i]);
    let lw = &w[1];
    if !(lw.len() >= 2 && lw[0] == '[' && lw[lw.len() - 1] == ']') {
        return Err(format_error(&chars));
    }
    let inner = string_of(lw, 1, lw.len() - 1);
    let level = match parse_level(inner.as_str()) {
        Ok(l) => l,
        Err(_) => {
            return Err(format_error(&chars));
        },
    };
    if !(ip_shaped(&w[2]) && method_shaped(&w[3]) && status_shaped(&w[5])) {
        return Err(format_error(&chars));
    }
    let st = &w[5];
    let status_code = ((st[0] as u32 - '0' as u32) * 100 + (st[1] as u32 - '0' as u32) * 10 + (
    st[2] as u32 - '0' as u32)) as u16;
    let method_word = string_of(&w[3], 0, w[3].len());
    assert(w@[3]@.subrange(0, w@[3]@.len() as int) == w@[3]@);
    let method = parse_method(method_word.as_str());
    assert(w@[0]@.subrange(0, w@[0]@.len() as int) == w@[0]@);
    assert(w@[2]@.subrange(0, w@[2]@.len() as int) == w@[2]@);
    assert(w@[4]@.subrange(0, w@[4]@.len() as int) == w@[4]@);
    assert(status_code as int == status_value(ws[5]));
    assert(bracketed_level(ws[1]) == Some(level));
    assert(is_log_line(line@));
    Ok(
        LogEntry {
            timestamp: string_of(&w[0], 0, w[0].len()),
            level,
            ip: string_of(&w[2], 0, w[2].len()),
            method,
            endpoint: string_of(&w[4], 0, w[4].len()),
            status_code,
        },
    )
}

impl ParseError {
    /// A one-line description of the failure.
    pub fn to_string(&self) -> (r: String)
        ensures
            r@ == match self {
                ParseError::InvalidFormat(m) => "invalid format: line does not match expected pattern: \""@
                    + m@ + "\""@,
                ParseError::InvalidField { field, value } => "invalid value for field '"@ + field@
                    + "': '"@ + value@ + "'"@,
            },
    {
        let mut r = String::new();
        match self {
            ParseError::InvalidFormat(m) => {
                push_str(&mut r, "invalid format: line does not match expected pattern: \"");
                push_str(&mut r, m.as_str());
                push_str(&mut r, "\"");
            },
            ParseError::InvalidField { field, value } => {
                push_str(&mut r, "invalid value for field '");
                push_str(&mut r, field);
                push_str(&mut r, "': '");
                push_str(&mut r, value.as_str());
                push_str(&mut r, "'");
            },
        }
        r
    }
}

impl LogLevel {
    /// The level's name as it appears in a log line.
    pub fn to_string(&self) -> (r: String)
        ensures
            r@ == level_text(*self),
    {
        proof {
            reveal_strlit("INFO");
            reveal_strlit("WARN");
            reveal_strlit("ERROR");
        }
        match self {
            LogLevel::Info => "INFO".to_owned(),
            LogLevel::Warn => "WARN".to_owned(),
            LogLevel::Error => "ERROR".to_owned(),
        }
    }
}

impl HttpMethod {
    /// The method's verb, or the token an unknown method holds.
    pub fn to_string(&self) -> (r: String)
        ensures
            r@ == method_text(*self),
    {
        proof {
            reveal_strlit("GET");
            reveal_strlit("POST");
            reveal_strlit("PUT");
            reveal_strlit("DELETE");
            reveal_strlit("PATCH");
            reveal_strlit("HEAD");
            reveal_strlit("OPTIONS");
        }
        match self {
            HttpMethod::Get => "GET".to_owned(),
            HttpMethod::Post => "POST".to_owned(),
            HttpMethod::Put => "PUT".to_owned(),
            HttpMethod::Delete => "DELETE".to_owned(),
            HttpMethod::Patch => "PATCH".to_owned(),
            HttpMethod::Head => "HEAD".to_owned(),
            HttpMethod::Options => "OPTIONS".to_owned(),
            HttpMethod::Other(s) => s.clone(),
        }
    }
}

} // verus!
