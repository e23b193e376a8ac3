//! Source expressions of the export schema: which field of a log a column is filled from.

use vstd::prelude::*;
use vstd::string::*;

use crate::order;
use crate::text;

verus! {

/// Resource-level fields addressable from a source expression.
#[derive(Debug, Clone, Copy, PartialEq, Eq, Structural)]
pub enum ResourceField {
    DroppedAttributesCount,
}

/// Scope-level fields addressable from a source expression.
#[derive(Debug, Clone, Copy, PartialEq, Eq, Structural)]
pub enum ScopeField {
    Name,
    Version,
    DroppedAttributesCount,
}

/// Log-record-level fields addressable from a source expression.
#[derive(Debug, Clone, Copy, PartialEq, Eq, Structural)]
pub enum LogRecordField {
    TimeUnixNano,
    ObservedTimeUnixNano,
    TraceId,
    SpanId,
    Flags,
    SeverityNumber,
    SeverityText,
    Body,
    EventName,
    DroppedAttributesCount,
}

/// Where a path ends: an attribute, written as a quoted literal, or a named field.
#[derive(Debug)]
pub enum PathEnd {
    Attribute(String),
    Field(String),
}

/// A source expression, taken apart.
#[derive(Debug)]
pub enum SourcePath {
    Resource(PathEnd),
    Scope(PathEnd),
    LogRecord(PathEnd),
}

/// What a source expression refers to.
#[derive(Debug)]
pub enum OtlpField {
    ResourceAttribute(String),
    ResourceField(ResourceField),
    ScopeAttribute(String),
    ScopeField(ScopeField),
    LogRecordAttribute(String),
    LogRecordField(LogRecordField),
}

/// What is wrong with an escape sequence.
#[derive(Debug, Clone, Copy, PartialEq, Eq, Structural)]
pub enum EscapeError {
    DanglingBackslash,
    ShortUnicodeEscape,
    NotAScalar(u32),
    UnknownEscape(char),
}

/// What is wrong with a source expression.
#[derive(Debug)]
pub enum FieldError {
    UnknownResourceField(String),
    UnknownScopeField(String),
    UnknownLogRecordField(String),
    Escape(EscapeError),
    /// An attribute literal without its two quotes.
    Unquoted,
}

impl EscapeError {
    /// The message of the error.
    pub open spec fn text(&self) -> Seq<char> {
        match *self {
            EscapeError::DanglingBackslash => "dangling backslash"@,
            EscapeError::ShortUnicodeEscape => "\\u escape requires 4 hex digits"@,
            EscapeError::NotAScalar(code) => "\\u"@ + text::upper_hex(code as nat, 4)
                + " is not a valid Unicode scalar value (surrogates U+D800..U+DFFF are not allowed; write the literal character instead)"@,
            EscapeError::UnknownEscape(c) => "unknown escape sequence '\\"@ + seq![c] + "'"@,
        }
    }

    /// The message of the error.
    pub fn message(&self) -> (r: String)
        ensures
            r@ == self.text(),
    {
        match self {
            EscapeError::DanglingBackslash => String::from_str("dangling backslash"),
            EscapeError::ShortUnicodeEscape => String::from_str(
                "\\u escape requires 4 hex digits",
            ),
            EscapeError::NotAScalar(code) => {
                let digits: String = text::hex_text(*code, 4);
                text::joined3(
                    "\\u",
                    digits.as_str(),
                    " is not a valid Unicode scalar value (surrogates U+D800..U+DFFF are not allowed; write the literal character instead)",
                )
            },
            EscapeError::UnknownEscape(c) => {
                let shown: String = text::one_char(*c);
                text::joined3("unknown escape sequence '\\", shown.as_str(), "'")
            },
        }
    }
}

impl FieldError {
    /// The message of the error.
    pub open spec fn text(&self) -> Seq<char> {
        match *self {
            FieldError::UnknownResourceField(name) => "unknown resource field '"@ + name@ + "'"@,
            FieldError::UnknownScopeField(name) => "unknown scope field '"@ + name@ + "'"@,
            FieldError::UnknownLogRecordField(name) => "unknown log_record field '"@ + name@
                + "'"@,
            FieldError::Escape(e) => e.text(),
            FieldError::Unquoted => "attribute literal without quotes"@,
        }
    }

    /// The message of the error.
    pub fn message(&self) -> (r: String)
        ensures
            r@ == self.text(),
    {
        match self {
            FieldError::UnknownResourceField(name) => text::joined3(
                "unknown resource field '",
                name.as_str(),
                "'",
            ),
            FieldError::UnknownScopeField(name) => text::joined3(
                "unknown scope field '",
                name.as_str(),
                "'",
            ),
            FieldError::UnknownLogRecordField(name) => text::joined3(
                "unknown log_record field '",
                name.as_str(),
                "'",
            ),
            FieldError::Escape(e) => e.message(),
            FieldError::Unquoted => String::from_str("attribute literal without quotes"),
        }
    }
}

/// The field with that name, whatever the case of its letters.
pub open spec fn log_record_field(s: Seq<char>) -> Option<LogRecordField> {
    if text::same_but_case(s, "time_unix_nano"@) {
        Some(LogRecordField::TimeUnixNano)
    } else if text::same_but_case(s, "observed_time_unix_nano"@) {
        Some(LogRecordField::ObservedTimeUnixNano)
    } else if text::same_but_case(s, "trace_id"@) {
        Some(LogRecordField::TraceId)
    } else if text::same_but_case(s, "span_id"@) {
        Some(LogRecordField::SpanId)
    } else if text::same_but_case(s, "flags"@) {
        Some(LogRecordField::Flags)
    } else if text::same_but_case(s, "severity_number"@) {
        Some(LogRecordField::SeverityNumber)
    } else if text::same_but_case(s, "severity_text"@) {
        Some(LogRecordField::SeverityText)
    } else if text::same_but_case(s, "body"@) {
        Some(LogRecordField::Body)
    } else if text::same_but_case(s, "event_name"@) {
        Some(LogRecordField::EventName)
    } else if text::same_but_case(s, "dropped_attributes_count"@) {
        Some(LogRecordField::DroppedAttributesCount)
    } else {
        None
    }
}

impl LogRecordField {
    /// Case-insensitive lookup.
    pub fn from_str_ci(s: &str) -> (r: Option<Self>)
        ensures
            r == log_record_field(s@),
    {
        if text::eq_ignore_ascii_case(s, "time_unix_nano") {
            Some(LogRecordField::TimeUnixNano)
        } else if text::eq_ignore_ascii_case(s, "observed_time_unix_nano") {
            Some(LogRecordField::ObservedTimeUnixNano)
        } else if text::eq_ignore_ascii_case(s, "trace_id") {
            Some(LogRecordField::TraceId)
        } else if text::eq_ignore_ascii_case(s, "span_id") {
            Some(LogRecordField::SpanId)
        } else if text::eq_ignore_ascii_case(s, "flags") {
            Some(LogRecordField::Flags)
        } else if text::eq_ignore_ascii_case(s, "severity_number") {
            Some(LogRecordField::SeverityNumber)
        } else if text::eq_ignore_ascii_case(s, "severity_text") {
            Some(LogRecordField::SeverityText)
        } else if text::eq_ignore_ascii_case(s, "body") {
            Some(LogRecordField::Body)
        } else if text::eq_ignore_ascii_case(s, "event_name") {
            Some(LogRecordField::EventName)
        } else if text::eq_ignore_ascii_case(s, "dropped_attributes_count") {
            Some(LogRecordField::DroppedAttributesCount)
        } else {
            None
        }
    }
}

/// What a one-letter escape stands for.
pub open spec fn simple_escape(c: char) -> Option<char> {
    if c == 'n' {
        Some('\n')
    } else if c == 'r' {
        Some('\r')
    } else if c == 't' {
        Some('\t')
    } else if c == 'b' {
        Some('\u{8}')
    } else if c == 'f' {
        Some('\u{c}')
    } else if c == '\\' || c == '/' || c == '\'' || c == '"' {
        Some(c)
    } else {
        None
    }
}

/// The number that four hexadecimal digits at the start of `s` stand for.
pub open spec fn hex4(s: Seq<char>) -> Option<int> {
    if s.len() >= 4 && text::hex_value(s[0]) is Some && text::hex_value(s[1]) is Some
        && text::hex_value(s[2]) is Some && text::hex_value(s[3]) is Some {
        Some(
            4096 * text::hex_value(s[0])->0 + 256 * text::hex_value(s[1])->0 + 16
                * text::hex_value(s[2])->0 + text::hex_value(s[3])->0,
        )
    } else {
        None
    }
}

/// `front` before whatever was decoded.
pub open spec fn after(
    front: Seq<char>,
    rest: Result<Seq<char>, EscapeError>,
) -> Result<Seq<char>, EscapeError> {
    match rest {
        Ok(t) => Ok(front + t),
        Err(e) => Err(e),
    }
}

/// The text that `s` stands for when its escapes are read: a backslash and a letter, or a
/// backslash, `u` and four hexadecimal digits. The first bad escape is the error.
pub open spec fn decoded(s: Seq<char>) -> Result<Seq<char>, EscapeError>
    decreases s.len(),
{
    if s.len() == 0 {
        Ok(Seq::empty())
    } else if s[0] != '\\' {
        after(seq![s[0]], decoded(s.skip(1)))
    } else if s.len() == 1 {
        Err(EscapeError::DanglingBackslash)
    } else if simple_escape(s[1]) is Some {
        after(seq![simple_escape(s[1])->0], decoded(s.skip(2)))
    } else if s[1] == 'u' {
        match hex4(s.skip(2)) {
            None => Err(EscapeError::ShortUnicodeEscape),
            Some(code) => if text::is_scalar(code as u32) {
                after(seq![code as u32 as char], decoded(s.skip(6)))
            } else {
                Err(EscapeError::NotAScalar(code as u32))
            },
        }
    } else {
        Err(EscapeError::UnknownEscape(s[1]))
    }
}

fn simple(c: char) -> (r: Option<char>)
    ensures
        r == simple_escape(c),
{
    if c == 'n' {
        Some('\n')
    } else if c == 'r' {
        Some('\r')
    } else if c == 't' {
        Some('\t')
    } else if c == 'b' {
        Some('\u{8}')
    } else if c == 'f' {
        Some('\u{c}')
    } else if c == '\\' || c == '/' || c == '\'' || c == '"' {
        Some(c)
    } else {
        None
    }
}

fn hex_number(v: &Vec<char>, at: usize) -> (r: Option<u32>)
    requires
        at <= v@.len(),
    ensures
        match r {
            Some(code) => hex4(v@.skip(at as int)) == Some(code as int) && code < 0x10000,
            None => hex4(v@.skip(at as int)) is None,
        },
{
    if v.len() - at < 4 {
        return None;
    }
    match (
        text::hex_digit(v[at]),
        text::hex_digit(v[at + 1]),
        text::hex_digit(v[at + 2]),
        text::hex_digit(v[at + 3]),
    ) {
        (Some(a), Some(b), Some(c), Some(d)) => Some(4096 * a + 256 * b + 16 * c + d),
        _ => None,
    }
}

/// Reads the escapes in `s`.
pub fn decode_escaped(s: &str) -> (r: Result<String, EscapeError>)
    ensures
        match r {
            Ok(t) => decoded(s@) == Ok::<Seq<char>, EscapeError>(t@),
            Err(e) => decoded(s@) == Err::<Seq<char>, EscapeError>(e),
        },
{
    let v: Vec<char> = order::chars_of(s);
    let mut out: String = String::new();
    let mut i: usize = 0;
    proof {
        assert(v@.skip(0) =~= v@);
        lemma_after_nothing(decoded(v@));
    }
    while i < v.len()
        invariant
            i <= v@.len(),
            v@ == s@,
            decoded(s@) == after(out@, decoded(v@.skip(i as int))),
        decreases v@.len() - i,
    {
        let c: char = v[i];
        let ghost rest = v@.skip(i as int);
        let ghost out0 = out@;
        assert(rest[0] == c);
        if c != '\\' {
            out.push(c);
            proof {
                assert(rest.skip(1) =~= v@.skip(i + 1));
                lemma_after_after(out0, c, decoded(v@.skip(i + 1)));
            }
            i = i + 1;
        } else if i + 1 >= v.len() {
            return Err(EscapeError::DanglingBackslash);
        } else {
            let esc: char = v[i + 1];
            assert(rest[1] == esc);
            match simple(esc) {
                Some(d) => {
                    out.push(d);
                    proof {
                        assert(rest.skip(2) =~= v@.skip(i + 2));
                        lemma_after_after(out0, d, decoded(v@.skip(i + 2)));
                    }
                    i = i + 2;
                },
                None => {
                    if esc == 'u' {
                        assert(rest.skip(2) =~= v@.skip(i + 2));
                        match hex_number(&v, i + 2) {
                            None => {
                                return Err(EscapeError::ShortUnicodeEscape);
                            },
                            Some(code) => {
                                match char::from_u32(code) {
                                    Some(d) => {
                                        out.push(d);
                                        proof {
                                            vstd::utf8::char_u32_cast(d, code);
                                            assert(rest.skip(6) =~= v@.skip(i + 6));
                                            lemma_after_after(out0, d, decoded(v@.skip(i + 6)));
                                        }
                                        i = i + 6;
                                    },
                                    None => {
                                        return Err(EscapeError::NotAScalar(code));
                                    },
                                }
                            },
                        }
                    } else {
                        return Err(EscapeError::UnknownEscape(esc));
                    }
                },
            }
        }
    }
    proof {
        assert(v@.skip(i as int) =~= Seq::<char>::empty());
        assert(out@ + Seq::<char>::empty() =~= out@);
    }
    Ok(out)
}

/// Text without a backslash stands for itself.
pub proof fn plain_text_stands_for_itself(s: Seq<char>)
    requires
        !s.contains('\\'),
    ensures
        decoded(s) == Ok::<Seq<char>, EscapeError>(s),
    decreases s.len(),
{
    if s.len() > 0 {
        assert(s.contains(s[0]));
        let rest = s.skip(1);
        assert(!rest.contains('\\')) by {
            if rest.contains('\\') {
                let i = rest.index_of('\\');
                assert(s[i + 1] == '\\');
            }
        }
        plain_text_stands_for_itself(rest);
        assert(seq![s[0]] + rest =~= s);
    } else {
        assert(s =~= Seq::<char>::empty());
    }
}

proof fn lemma_after_nothing(r: Result<Seq<char>, EscapeError>)
    ensures
        after(Seq::<char>::empty(), r) == r,
{
    if r is Ok {
        assert(Seq::<char>::empty() + r->Ok_0 =~= r->Ok_0);
    }
}

proof fn lemma_after_after(front: Seq<char>, c: char, rest: Result<Seq<char>, EscapeError>)
    ensures
        after(front, after(seq![c], rest)) == after(front.push(c), rest),
{
    if rest is Ok {
        assert(front + (seq![c] + rest->Ok_0) =~= front.push(c) + rest->Ok_0);
    }
}

/// The key in an attribute literal: what stands between its quotes, with escapes read.
pub fn decode_attribute_key(literal: &str) -> (r: Result<String, FieldError>)
    ensures
        attribute_key(literal@, r),
{
    let v: Vec<char> = order::chars_of(literal);
    if v.len() < 2 {
        return Err(FieldError::Unquoted);
    }
    let inner: &str = literal.substring_char(1, v.len() - 1);
    match decode_escaped(inner) {
        Ok(key) => Ok(key),
        Err(e) => Err(FieldError::Escape(e)),
    }
}

/// `r` is what an attribute literal stands for.
pub open spec fn attribute_key(literal: Seq<char>, r: Result<String, FieldError>) -> bool {
    if literal.len() < 2 {
        r matches Err(FieldError::Unquoted)
    } else {
        match decoded(literal.subrange(1, literal.len() - 1)) {
            Ok(key) => r matches Ok(k) && k@ == key,
            Err(e) => r matches Err(FieldError::Escape(f)) && f == e,
        }
    }
}

/// The field of a resource, or an error for another name.
pub fn build_resource(end: &PathEnd) -> (r: Result<OtlpField, FieldError>)
    ensures
        match *end {
            PathEnd::Attribute(literal) => match r {
                Ok(f) => f matches OtlpField::ResourceAttribute(key) && attribute_key(
                    literal@,
                    Ok(key),
                ),
                Err(e) => attribute_key(literal@, Err(e)),
            },
            PathEnd::Field(name) => if name@ == "dropped_attributes_count"@ {
                r == Ok::<OtlpField, FieldError>(
                    OtlpField::ResourceField(ResourceField::DroppedAttributesCount),
                )
            } else {
                r matches Err(FieldError::UnknownResourceField(n)) && n@ == name@
            },
        },
{
    match end {
        PathEnd::Attribute(literal) => {
            match decode_attribute_key(literal.as_str()) {
                Ok(key) => Ok(OtlpField::ResourceAttribute(key)),
                Err(e) => Err(e),
            }
        },
        PathEnd::Field(name) => {
            if order::str_same(name.as_str(), "dropped_attributes_count") {
                Ok(OtlpField::ResourceField(ResourceField::DroppedAttributesCount))
            } else {
                Err(FieldError::UnknownResourceField(name.clone()))
            }
        },
    }
}

/// The scope field with that name.
pub open spec fn scope_field(name: Seq<char>) -> Option<ScopeField> {
    if name == "name"@ {
        Some(ScopeField::Name)
    } else if name == "version"@ {
        Some(ScopeField::Version)
    } else if name == "dropped_attributes_count"@ {
        Some(ScopeField::DroppedAttributesCount)
    } else {
        None
    }
}

/// The field of a scope, or an error for another name.
pub fn build_scope(end: &PathEnd) -> (r: Result<OtlpField, FieldError>)
    ensures
        match *end {
            PathEnd::Attribute(literal) => match r {
                Ok(f) => f matches OtlpField::ScopeAttribute(key) && attribute_key(
                    literal@,
                    Ok(key),
                ),
                Err(e) => attribute_key(literal@, Err(e)),
            },
            PathEnd::Field(name) => match scope_field(name@) {
                Some(f) => r == Ok::<OtlpField, FieldError>(OtlpField::ScopeField(f)),
                None => r matches Err(FieldError::UnknownScopeField(n)) && n@ == name@,
            },
        },
{
    match end {
        PathEnd::Attribute(literal) => {
            match decode_attribute_key(literal.as_str()) {
                Ok(key) => Ok(OtlpField::ScopeAttribute(key)),
                Err(e) => Err(e),
            }
        },
        PathEnd::Field(name) => {
            if order::str_same(name.as_str(), "name") {
                Ok(OtlpField::ScopeField(ScopeField::Name))
            } else if order::str_same(name.as_str(), "version") {
                Ok(OtlpField::ScopeField(ScopeField::Version))
            } else if order::str_same(name.as_str(), "dropped_attributes_count") {
                Ok(OtlpField::ScopeField(ScopeField::DroppedAttributesCount))
            } else {
                Err(FieldError::UnknownScopeField(name.clone()))
            }
        },
    }
}

/// The field of a log record, or an error for another name.
pub fn build_log_record(end: &PathEnd) -> (r: Result<OtlpField, FieldError>)
    ensures
        match *end {
            PathEnd::Attribute(literal) => match r {
                Ok(f) => f matches OtlpField::LogRecordAttribute(key) && attribute_key(
                    literal@,
                    Ok(key),
                ),
                Err(e) => attribute_key(literal@, Err(e)),
            },
            PathEnd::Field(name) => match log_record_field(name@) {
                Some(f) => r == Ok::<OtlpField, FieldError>(OtlpField::LogRecordField(f)),
                None => r matches Err(FieldError::UnknownLogRecordField(n)) && n@ == name@,
            },
        },
{
    match end {
        PathEnd::Attribute(literal) => {
            match decode_attribute_key(literal.as_str()) {
                Ok(key) => Ok(OtlpField::LogRecordAttribute(key)),
                Err(e) => Err(e),
            }
        },
        PathEnd::Field(name) => {
            match LogRecordField::from_str_ci(name.as_str()) {
                Some(f) => Ok(OtlpField::LogRecordField(f)),
                None => Err(FieldError::UnknownLogRecordField(name.clone())),
            }
        },
    }
}

/// What a source expression refers to.
pub fn parse_otlp_field(path: &SourcePath) -> (r: Result<OtlpField, FieldError>)
    ensures
        match *path {
            SourcePath::Resource(end) => match end {
                PathEnd::Attribute(literal) => match r {
                    Ok(f) => f matches OtlpField::ResourceAttribute(key) && attribute_key(
                        literal@,
                        Ok(key),
                    ),
                    Err(e) => attribute_key(literal@, Err(e)),
                },
                PathEnd::Field(name) => if name@ == "dropped_attributes_count"@ {
                    r == Ok::<OtlpField, FieldError>(
                        OtlpField::ResourceField(ResourceField::DroppedAttributesCount),
                    )
                } else {
                    r matches Err(FieldError::UnknownResourceField(n)) && n@ == name@
                },
            },
            SourcePath::Scope(end) => match end {
                PathEnd::Attribute(literal) => match r {
                    Ok(f) => f matches OtlpField::ScopeAttribute(key) && attribute_key(
                        literal@,
                        Ok(key),
                    ),
                    Err(e) => attribute_key(literal@, Err(e)),
                },
                PathEnd::Field(name) => match scope_field(name@) {
                    Some(f) => r == Ok::<OtlpField, FieldError>(OtlpField::ScopeField(f)),
                    None => r matches Err(FieldError::UnknownScopeField(n)) && n@ == name@,
                },
            },
            SourcePath::LogRecord(end) => match end {
                PathEnd::Attribute(literal) => match r {
                    Ok(f) => f matches OtlpField::LogRecordAttribute(key) && attribute_key(
                        literal@,
                        Ok(key),
                    ),
                    Err(e) => attribute_key(literal@, Err(e)),
                },
                PathEnd::Field(name) => match log_record_field(name@) {
                    Some(f) => r == Ok::<OtlpField, FieldError>(OtlpField::LogRecordField(f)),
                    None => r matches Err(FieldError::UnknownLogRecordField(n)) && n@ == name@,
                },
            },
        },
{
    match path {
        SourcePath::Resource(end) => build_resource(end),
        SourcePath::Scope(end) => build_scope(end),
        SourcePath::LogRecord(end) => build_log_record(end),
    }
}

/// Each name stands for the field of that name and for no other, in whatever case it is written,
/// and every other text stands for none.
pub proof fn each_log_record_name_stands_for_its_field(s: Seq<char>)
    ensures
        log_record_field(s) == Some(LogRecordField::TimeUnixNano) <==> text::same_but_case(
            s,
            "time_unix_nano"@,
        ),
        log_record_field(s) == Some(LogRecordField::ObservedTimeUnixNano) <==> text::same_but_case(
            s,
            "observed_time_unix_nano"@,
        ),
        log_record_field(s) == Some(LogRecordField::TraceId) <==> text::same_but_case(
            s,
            "trace_id"@,
        ),
        log_record_field(s) == Some(LogRecordField::SpanId) <==> text::same_but_case(
            s,
            "span_id"@,
        ),
        log_record_field(s) == Some(LogRecordField::Flags) <==> text::same_but_case(s, "flags"@),
        log_record_field(s) == Some(LogRecordField::SeverityNumber) <==> text::same_but_case(
            s,
            "severity_number"@,
        ),
        log_record_field(s) == Some(LogRecordField::SeverityText) <==> text::same_but_case(
            s,
            "severity_text"@,
        ),
        log_record_field(s) == Some(LogRecordField::Body) <==> text::same_but_case(s, "body"@),
        log_record_field(s) == Some(LogRecordField::EventName) <==> text::same_but_case(
            s,
            "event_name"@,
        ),
        log_record_field(s) == Some(LogRecordField::DroppedAttributesCount)
            <==> text::same_but_case(s, "dropped_attributes_count"@),
{
    reveal_strlit("time_unix_nano");
    reveal_strlit("observed_time_unix_nano");
    reveal_strlit("trace_id");
    reveal_strlit("span_id");
    reveal_strlit("flags");
    reveal_strlit("severity_number");
    reveal_strlit("severity_text");
    reveal_strlit("body");
    reveal_strlit("event_name");
    reveal_strlit("dropped_attributes_count");
}

/// Each name stands for the scope's field of that name and for no other.
pub proof fn each_scope_name_stands_for_its_field(s: Seq<char>)
    ensures
        scope_field(s) == Some(ScopeField::Name) <==> s == "name"@,
        scope_field(s) == Some(ScopeField::Version) <==> s == "version"@,
        scope_field(s) == Some(ScopeField::DroppedAttributesCount) <==> s
            == "dropped_attributes_count"@,
{
    reveal_strlit("name");
    reveal_strlit("version");
    reveal_strlit("dropped_attributes_count");
    assert("name"@.len() == 4);
    assert("version"@.len() == 7);
    assert("dropped_attributes_count"@.len() == 24);
}

/// Text without a backslash stands for itself, whatever follows it.
pub proof fn plain_text_comes_first(plain: Seq<char>, rest: Seq<char>)
    requires
        !plain.contains('\\'),
    ensures
        decoded(plain + rest) == after(plain, decoded(rest)),
    decreases plain.len(),
{
    if plain.len() == 0 {
        assert(plain + rest =~= rest);
        assert(plain =~= Seq::<char>::empty());
        lemma_after_nothing(decoded(rest));
    } else {
        let all = plain + rest;
        let tail = plain.skip(1);
        assert(plain.contains(plain[0]));
        assert(!tail.contains('\\')) by {
            if tail.contains('\\') {
                let i = tail.index_of('\\');
                assert(plain[i + 1] == '\\');
            }
        }
        plain_text_comes_first(tail, rest);
        assert(all.skip(1) =~= tail + rest);
        assert(all[0] == plain[0]);
        if decoded(rest) is Ok {
            assert(seq![plain[0]] + (tail + decoded(rest)->Ok_0) =~= plain + decoded(rest)->Ok_0);
        }
    }
}

proof fn lemma_letter(c: char, rest: Seq<char>)
    ensures
        simple_escape(c) is Some ==> decoded(seq!['\\', c] + rest) == after(
            seq![simple_escape(c)->0],
            decoded(rest),
        ),
{
    let all = seq!['\\', c] + rest;
    assert(all.skip(2) =~= rest);
    assert(all[0] == '\\' && all[1] == c);
}

/// A backslash and a letter stand for the character that the letter is short for: line feed,
/// carriage return, tab, backspace, form feed, or the mark itself.
pub proof fn each_escape_stands_for_its_character(rest: Seq<char>)
    ensures
        decoded(seq!['\\', 'n'] + rest) == after(seq!['\n'], decoded(rest)),
        decoded(seq!['\\', 'r'] + rest) == after(seq!['\r'], decoded(rest)),
        decoded(seq!['\\', 't'] + rest) == after(seq!['\t'], decoded(rest)),
        decoded(seq!['\\', 'b'] + rest) == after(seq!['\u{8}'], decoded(rest)),
        decoded(seq!['\\', 'f'] + rest) == after(seq!['\u{c}'], decoded(rest)),
        decoded(seq!['\\', '\\'] + rest) == after(seq!['\\'], decoded(rest)),
        decoded(seq!['\\', '/'] + rest) == after(seq!['/'], decoded(rest)),
        decoded(seq!['\\', '\''] + rest) == after(seq!['\''], decoded(rest)),
        decoded(seq!['\\', '"'] + rest) == after(seq!['"'], decoded(rest)),
{
    lemma_letter('n', rest);
    lemma_letter('r', rest);
    lemma_letter('t', rest);
    lemma_letter('b', rest);
    lemma_letter('f', rest);
    lemma_letter('\\', rest);
    lemma_letter('/', rest);
    lemma_letter('\'', rest);
    lemma_letter('"', rest);
}

/// Every other character after a backslash is an error that names it, but for the `u` of a code.
pub proof fn other_escapes_are_refused(c: char, rest: Seq<char>)
    requires
        c != 'n' && c != 'r' && c != 't' && c != 'b' && c != 'f' && c != 'u',
        c != '\\' && c != '/' && c != '\'' && c != '"',
    ensures
        decoded(seq!['\\', c] + rest) == Err::<Seq<char>, EscapeError>(
            EscapeError::UnknownEscape(c),
        ),
{
    let all = seq!['\\', c] + rest;
    assert(all[0] == '\\' && all[1] == c);
}

/// A backslash, `u` and the four hexadecimal digits of a code stand for the character of that
/// code. A code without a character is an error that names it.
pub proof fn codes_stand_for_their_characters(code: u32, rest: Seq<char>)
    requires
        code < 0x10000,
    ensures
        ({
            let written = seq!['\\', 'u'] + text::upper_hex(code as nat, 4) + rest;
            if code < 0xD800 || code > 0xDFFF {
                decoded(written) == after(seq![code as char], decoded(rest))
            } else {
                decoded(written) == Err::<Seq<char>, EscapeError>(EscapeError::NotAScalar(code))
            }
        }),
{
    let n = code as nat;
    let hex = text::upper_hex(n, 4);
    let all = seq!['\\', 'u'] + hex + rest;
    text::hex_digits_read_back(n, 4);
    lemma_four_digits(n);
    assert(all[0] == '\\' && all[1] == 'u');
    let tail = all.skip(2);
    assert(tail =~= hex + rest);
    assert(tail[0] == hex[0] && tail[1] == hex[1] && tail[2] == hex[2] && tail[3] == hex[3]);
    reveal_with_fuel(text::read_hex, 5);
    let a = hex.drop_last();
    let b = a.drop_last();
    let c = b.drop_last();
    assert(a.last() == hex[2] && b.last() == hex[1] && c.last() == hex[0]);
    assert(c.drop_last() =~= Seq::<char>::empty());
    assert(text::read_hex(c) == text::hex_value(hex[0])->0);
    assert(text::read_hex(b) == 16 * text::read_hex(c) + text::hex_value(hex[1])->0);
    assert(text::read_hex(a) == 16 * text::read_hex(b) + text::hex_value(hex[2])->0);
    assert(hex4(tail) == Some(code as int));
    assert(all.skip(6) =~= rest);
}

proof fn lemma_four_digits(n: nat)
    requires
        n < 0x10000,
    ensures
        text::upper_hex(n, 4).len() == 4,
{
    reveal_with_fuel(text::upper_hex, 5);
}

/// A backslash at the end is an error, and so is a `u` with fewer than four digits behind it.
pub proof fn unfinished_escapes_are_refused(digits: Seq<char>)
    requires
        digits.len() < 4,
    ensures
        decoded(seq!['\\']) == Err::<Seq<char>, EscapeError>(EscapeError::DanglingBackslash),
        decoded(seq!['\\', 'u'] + digits) == Err::<Seq<char>, EscapeError>(
            EscapeError::ShortUnicodeEscape,
        ),
{
    let all = seq!['\\', 'u'] + digits;
    assert(all[0] == '\\' && all[1] == 'u');
}

/// The key of an attribute is what stands between the quotes: without a backslash in it, it is
/// taken as it is, whichever quotes they are.
pub proof fn attribute_keys_stand_between_quotes(
    open: char,
    key: Seq<char>,
    close: char,
    r: Result<String, FieldError>,
)
    requires
        !key.contains('\\'),
        attribute_key(seq![open] + key + seq![close], r),
    ensures
        r is Ok,
        r->Ok_0@ == key,
{
    let literal = seq![open] + key + seq![close];
    assert(literal.subrange(1, literal.len() - 1) =~= key);
    plain_text_stands_for_itself(key);
}

} // verus!
