use vstd::prelude::*;

use crate::error::ParseError;
use crate::parser::parse;

verus! {

/// A calendar date and time of day, with the UTC offset it was written with.
#[derive(Debug, Clone, Copy, PartialEq, Eq, Structural)]
pub struct DateTime {
    pub year: u32,
    pub month: u32,
    pub day: u32,
    pub hour: u32,
    pub minute: u32,
    pub second: u32,
    pub nanosecond: u32,
    /// Minutes east of UTC.
    pub offset_minutes: i32,
}

/// A time of day without a date.
#[derive(Debug, Clone, Copy, PartialEq, Eq, Structural)]
pub struct Time {
    pub hour: u32,
    pub minute: u32,
    pub second: u32,
    pub nanosecond: u32,
}

/// A parsed value. A float is kept as the decimal literal it was written as.
#[derive(Debug, PartialEq)]
pub enum Value {
    StringValue(String),
    Integer(i64),
    Float(String),
    Boolean(bool),
    DateTimeValue(DateTime),
    TimeValue(Time),
    Array(Vec<Value>),
    InlineTable(Vec<(String, Value)>),
    TableArray(Vec<Value>),
    Table(Vec<(String, Value)>),
}

impl std::str::FromStr for Value {
    type Err = ParseError;

    fn from_str(s: &str) -> (r: Result<Value, ParseError>)
        ensures
            r is Ok ==> r->Ok_0 is Table,
            r matches Ok(Value::Table(t)) ==> crate::table::keys_unique(t@),
            s@.len() == 0 ==> (r matches Ok(Value::Table(t)) && t@.len() == 0),
            crate::parser::fails_within(r, s@.len()),
            s@.len() > 0 && crate::parser::starts_stray(s@[0]) ==> r == Err::<Value, ParseError>(
                ParseError::IllegalChar(s@[0], 0, 0),
            ),
            forall|klen: int| #[trigger] crate::parser::one_assignment(s@, klen)
                ==> crate::parser::assignment_result(s@, klen, r),
            forall|klen: int, e: int| #[trigger] crate::parser::repeated_key(s@, klen, e) ==> (
            r matches Err(ParseError::DuplicateKey(k, l, k2)) && k@ == s@.subrange(0, klen) && l
                == 1 && k2 == 0),
            forall|klen: int| #[trigger] crate::parser::unclosed_string(s@, klen) ==> r == Err::<
                Value,
                ParseError,
            >(ParseError::UnexpectedEndOfInput),
            forall|klen: int| #[trigger] crate::parser::quoted_assignment(s@, klen)
                ==> crate::parser::quoted_result(s@, klen, r),
    {
        parse(s)
    }
}

} // verus!
