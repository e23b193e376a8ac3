//! Operands of arithmetic: which reader each rule of the grammar goes to.

use vstd::prelude::*;

verus! {

/// The rules of the grammar that can stand as an operand.
#[derive(Debug, Clone, Copy, PartialEq, Eq, Structural)]
pub enum Rule {
    NullLiteral,
    RealExpression,
    DatetimeExpression,
    TimeExpression,
    ConditionalExpression,
    CaseExpression,
    CoalesceExpression,
    TostringExpression,
    TointExpression,
    ToboolExpression,
    TofloatExpression,
    TolongExpression,
    TorealExpression,
    TodoubleExpression,
    TodatetimeExpression,
    TotimespanExpression,
    StrlenExpression,
    ReplaceStringExpression,
    SubstringExpression,
    ParseJsonExpression,
    StrcatExpression,
    StrcatDelimExpression,
    ArrayConcatExpression,
    TrueLiteral,
    FalseLiteral,
    DoubleLiteral,
    IntegerLiteral,
    StringLiteral,
    BinExpression,
    NowExpression,
    AccessorExpression,
    ScalarExpression,
}

/// A reader of constants.
#[derive(Debug, Clone, Copy, PartialEq, Eq, Structural)]
pub enum StaticReader {
    Null,
    Real,
    Datetime,
    Timespan,
    Bool,
    Double,
    Integer,
    Text,
}

/// How an operand is read.
#[derive(Debug, Clone, Copy, PartialEq, Eq, Structural)]
pub enum Primary {
    /// As a constant.
    Static(StaticReader),
    /// As an accessor, which may fold to a constant at its root.
    Accessor { allow_root_scalar: bool },
    /// As an expression in the scope of the query, by the reader of its rule.
    Scoped(Rule),
}

impl Rule {
    /// The reader of the constants of this rule.
    pub open spec fn static_reader(self) -> Option<StaticReader> {
        match self {
            Rule::NullLiteral => Some(StaticReader::Null),
            Rule::RealExpression => Some(StaticReader::Real),
            Rule::DatetimeExpression => Some(StaticReader::Datetime),
            Rule::TimeExpression => Some(StaticReader::Timespan),
            Rule::TrueLiteral => Some(StaticReader::Bool),
            Rule::FalseLiteral => Some(StaticReader::Bool),
            Rule::DoubleLiteral => Some(StaticReader::Double),
            Rule::IntegerLiteral => Some(StaticReader::Integer),
            Rule::StringLiteral => Some(StaticReader::Text),
            _ => None,
        }
    }
}

/// How an operand of the given rule is read.
pub fn parse_primary(rule: Rule) -> (r: Primary)
    ensures
        r == match rule.static_reader() {
            Some(reader) => Primary::Static(reader),
            None => if rule is AccessorExpression {
                Primary::Accessor { allow_root_scalar: true }
            } else {
                Primary::Scoped(rule)
            },
        },
{
    match rule {
        Rule::NullLiteral => Primary::Static(StaticReader::Null),
        Rule::RealExpression => Primary::Static(StaticReader::Real),
        Rule::DatetimeExpression => Primary::Static(StaticReader::Datetime),
        Rule::TimeExpression => Primary::Static(StaticReader::Timespan),
        Rule::TrueLiteral | Rule::FalseLiteral => Primary::Static(StaticReader::Bool),
        Rule::DoubleLiteral => Primary::Static(StaticReader::Double),
        Rule::IntegerLiteral => Primary::Static(StaticReader::Integer),
        Rule::StringLiteral => Primary::Static(StaticReader::Text),
        Rule::AccessorExpression => Primary::Accessor { allow_root_scalar: true },
        _ => Primary::Scoped(rule),
    }
}

/// Every rule of a constant goes to the reader of that constant, and no other rule goes to one.
pub proof fn constants_go_to_their_readers(rule: Rule)
    ensures
        rule.static_reader() == Some(StaticReader::Null) <==> rule is NullLiteral,
        rule.static_reader() == Some(StaticReader::Real) <==> rule is RealExpression,
        rule.static_reader() == Some(StaticReader::Datetime) <==> rule is DatetimeExpression,
        rule.static_reader() == Some(StaticReader::Timespan) <==> rule is TimeExpression,
        rule.static_reader() == Some(StaticReader::Bool) <==> rule is TrueLiteral
            || rule is FalseLiteral,
        rule.static_reader() == Some(StaticReader::Double) <==> rule is DoubleLiteral,
        rule.static_reader() == Some(StaticReader::Integer) <==> rule is IntegerLiteral,
        rule.static_reader() == Some(StaticReader::Text) <==> rule is StringLiteral,
{
}

} // verus!
