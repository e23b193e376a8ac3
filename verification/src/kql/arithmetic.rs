//! Arithmetic expressions: from a row of operators and operands to a tree.
//!
//! `+` and `-` bind least, then `*`, `/` and `%`; all of them group to the left. A minus in
//! front of an operand binds most.

use std::collections::VecDeque;
use vstd::prelude::*;

verus! {

/// Where in the query an expression stands.
#[derive(Debug, Clone, Copy, PartialEq, Eq, Structural)]
pub struct QueryLocation {
    pub start: usize,
    pub end: usize,
    pub line_number: usize,
    pub column_number: usize,
}

/// An operator between two operands.
#[derive(Debug, Clone, Copy, PartialEq, Eq, Structural)]
pub enum MathOp {
    Add,
    Subtract,
    Multiply,
    Divide,
    Modulus,
}

impl MathOp {
    /// Whether the operator binds least.
    pub open spec fn is_additive(self) -> bool {
        self is Add || self is Subtract
    }

    fn additive(&self) -> (r: bool)
        ensures
            r == self.is_additive(),
    {
        match self {
            MathOp::Add => true,
            MathOp::Subtract => true,
            _ => false,
        }
    }
}

/// One element of the row.
#[derive(Debug)]
pub enum Token<E> {
    Primary(E),
    UnaryMinus,
    Infix(MathOp),
}

/// A tree of operators and operands. Every operator carries the location of the whole
/// arithmetic expression.
#[derive(Debug)]
pub enum ScalarExpression<E> {
    Primary(E),
    Negate(QueryLocation, Box<ScalarExpression<E>>),
    Math(QueryLocation, MathOp, Box<ScalarExpression<E>>, Box<ScalarExpression<E>>),
}

/// From `i` on the row is operands, each with any number of minuses in front, and an operator
/// between two.
pub open spec fn operands_from<E>(row: Seq<Token<E>>, i: int) -> bool
    decreases row.len() - i,
{
    0 <= i < row.len() && match row[i] {
        Token::UnaryMinus => operands_from(row, i + 1),
        Token::Primary(_) => i + 1 == row.len() || (row[i + 1] is Infix && operands_from(
            row,
            i + 2,
        )),
        Token::Infix(_) => false,
    }
}

impl<E> ScalarExpression<E> {
    /// The row that the tree was read from.
    pub open spec fn row(self) -> Seq<Token<E>>
        decreases self,
    {
        match self {
            ScalarExpression::Primary(e) => seq![Token::Primary(e)],
            ScalarExpression::Negate(_, x) => seq![Token::<E>::UnaryMinus] + x.row(),
            ScalarExpression::Math(_, op, l, r) => l.row() + seq![Token::<E>::Infix(op)] + r.row(),
        }
    }

    /// All operators carry the location.
    pub open spec fn located(self, at: QueryLocation) -> bool
        decreases self,
    {
        match self {
            ScalarExpression::Primary(_) => true,
            ScalarExpression::Negate(loc, x) => loc == at && x.located(at),
            ScalarExpression::Math(loc, _, l, r) => loc == at && l.located(at) && r.located(at),
        }
    }

    /// An operand with any number of minuses in front.
    pub open spec fn is_factor(self) -> bool
        decreases self,
    {
        match self {
            ScalarExpression::Primary(_) => true,
            ScalarExpression::Negate(_, x) => x.is_factor(),
            ScalarExpression::Math(..) => false,
        }
    }

    /// Factors joined by `*`, `/` and `%`, grouped to the left.
    pub open spec fn is_term(self) -> bool
        decreases self,
    {
        match self {
            ScalarExpression::Math(_, op, l, r) => !op.is_additive() && l.is_term()
                && r.is_factor(),
            _ => self.is_factor(),
        }
    }

    /// Terms joined by `+` and `-`, grouped to the left.
    pub open spec fn is_sum(self) -> bool
        decreases self,
    {
        match self {
            ScalarExpression::Math(_, op, l, r) => if op.is_additive() {
                l.is_sum() && r.is_term()
            } else {
                self.is_term()
            },
            _ => self.is_factor(),
        }
    }
}

/// What is left of a row after an operand: nothing, or an operator and more operands.
spec fn continues<E>(rest: Seq<Token<E>>) -> bool {
    rest.len() == 0 || (rest[0] is Infix && operands_from(rest, 1))
}

/// Whether operands follow does not depend on what stands before them.
proof fn lemma_operands_shift<E>(row: Seq<Token<E>>, i: int, k: int)
    requires
        0 <= i,
        0 <= k <= i,
        i <= row.len(),
    ensures
        operands_from(row, i) == operands_from(row.skip(k), i - k),
    decreases row.len() - i,
{
    if i < row.len() {
        lemma_operands_shift(row, i + 1, k);
        assert(row.skip(k)[i - k] == row[i]);
        if i + 1 < row.len() {
            assert(row.skip(k)[i + 1 - k] == row[i + 1]);
            lemma_operands_shift(row, i + 2, k);
        }
    }
}

/// Reads an operand with the minuses in front of it.
fn parse_factor<E>(at: QueryLocation, row: &mut VecDeque<Token<E>>) -> (r: ScalarExpression<E>)
    requires
        operands_from(old(row)@, 0),
    ensures
        r.row() + final(row)@ == old(row)@,
        r.is_factor(),
        r.located(at),
        continues(final(row)@),
    decreases old(row)@.len(),
{
    let ghost all = row@;
    match row.pop_front() {
        Some(Token::Primary(e)) => {
            let r = ScalarExpression::Primary(e);
            proof {
                assert(row@ =~= all.skip(1));
                if all.len() > 1 {
                    lemma_operands_shift(all, 2, 1);
                }
                assert(r.row() + row@ =~= all);
            }
            r
        },
        Some(Token::UnaryMinus) => {
            proof {
                assert(row@ =~= all.skip(1));
                lemma_operands_shift(all, 1, 1);
            }
            let ghost mid = row@;
            let x: ScalarExpression<E> = parse_factor(at, row);
            let ghost xrow = x.row();
            let r = ScalarExpression::Negate(at, Box::new(x));
            proof {
                assert(r.row() == seq![Token::<E>::UnaryMinus] + xrow);
                assert(r.row() + row@ =~= seq![Token::<E>::UnaryMinus] + (xrow + row@));
                assert(seq![Token::<E>::UnaryMinus] + mid =~= all);
            }
            r
        },
        _ => vstd::pervasive::unreached(),
    }
}

/// Takes the operator off the front if it is additive, or if it is not, as asked.
fn next_operator<E>(row: &mut VecDeque<Token<E>>, additive: bool) -> (r: Option<MathOp>)
    requires
        continues(old(row)@),
    ensures
        match r {
            Some(op) => {
                &&& op.is_additive() == additive
                &&& old(row)@ == seq![Token::<E>::Infix(op)] + final(row)@
                &&& operands_from(final(row)@, 0)
            },
            None => {
                &&& final(row)@ == old(row)@
                &&& old(row)@.len() > 0 ==> old(row)@[0]->Infix_0.is_additive() != additive
            },
        },
{
    let ghost all = row@;
    if row.len() == 0 {
        return None;
    }
    let op: MathOp = match &row[0] {
        Token::Infix(op) => *op,
        _ => vstd::pervasive::unreached(),
    };
    if op.additive() != additive {
        return None;
    }
    let _ = row.pop_front();
    proof {
        assert(row@ =~= all.skip(1));
        lemma_operands_shift(all, 1, 1);
        assert(all =~= seq![Token::<E>::Infix(op)] + row@);
    }
    Some(op)
}

/// Reads factors joined by `*`, `/` and `%`.
fn parse_term<E>(at: QueryLocation, row: &mut VecDeque<Token<E>>) -> (r: ScalarExpression<E>)
    requires
        operands_from(old(row)@, 0),
    ensures
        r.row() + final(row)@ == old(row)@,
        r.is_term(),
        r.located(at),
        continues(final(row)@),
        final(row)@.len() > 0 ==> final(row)@[0]->Infix_0.is_additive(),
{
    let ghost all = row@;
    let mut left: ScalarExpression<E> = parse_factor(at, row);
    loop
        invariant
            all == old(row)@,
            left.row() + row@ == all,
            left.is_term(),
            left.located(at),
            continues(row@),
        ensures
            left.row() + row@ == all,
            left.is_term(),
            left.located(at),
            continues(row@),
            row@.len() > 0 ==> row@[0]->Infix_0.is_additive(),
        decreases row@.len(),
    {
        let ghost lrow = left.row();
        let ghost rest = row@;
        match next_operator(row, false) {
            Some(op) => {
                let ghost mid = row@;
                let right: ScalarExpression<E> = parse_factor(at, row);
                let ghost rrow = right.row();
                left = ScalarExpression::Math(at, op, Box::new(left), Box::new(right));
                proof {
                    assert(left.row() == lrow + seq![Token::<E>::Infix(op)] + rrow);
                    assert(left.row() + row@ =~= lrow + (seq![Token::<E>::Infix(op)] + (rrow
                        + row@)));
                    assert(rrow.len() + row@.len() == mid.len());
                }
            },
            None => {
                break;
            },
        }
    }
    left
}

/// Reads terms joined by `+` and `-`, to the end of the row.
fn parse_sum<E>(at: QueryLocation, row: &mut VecDeque<Token<E>>) -> (r: ScalarExpression<E>)
    requires
        operands_from(old(row)@, 0),
    ensures
        r.row() == old(row)@,
        r.is_sum(),
        r.located(at),
{
    let ghost all = row@;
    let mut left: ScalarExpression<E> = parse_term(at, row);
    proof {
        lemma_term_is_sum(left);
    }
    loop
        invariant
            all == old(row)@,
            left.row() + row@ == all,
            left.is_sum(),
            left.located(at),
            continues(row@),
            row@.len() > 0 ==> row@[0]->Infix_0.is_additive(),
        ensures
            left.row() == all,
            left.is_sum(),
            left.located(at),
        decreases row@.len(),
    {
        let ghost lrow = left.row();
        let ghost rest = row@;
        match next_operator(row, true) {
            Some(op) => {
                let ghost mid = row@;
                let right: ScalarExpression<E> = parse_term(at, row);
                let ghost rrow = right.row();
                left = ScalarExpression::Math(at, op, Box::new(left), Box::new(right));
                proof {
                    assert(left.row() == lrow + seq![Token::<E>::Infix(op)] + rrow);
                    assert(left.row() + row@ =~= lrow + (seq![Token::<E>::Infix(op)] + (rrow
                        + row@)));
                    assert(rrow.len() + row@.len() == mid.len());
                }
            },
            None => {
                assert(row@ =~= Seq::<Token<E>>::empty());
                assert(left.row() + row@ =~= left.row());
                break;
            },
        }
    }
    left
}

proof fn lemma_term_is_sum<E>(t: ScalarExpression<E>)
    requires
        t.is_term(),
    ensures
        t.is_sum(),
{
}

/// Position `i` holds an operand that could not be read.
pub open spec fn bad_at<E, X>(row: Seq<Token<Result<E, X>>>, i: int) -> bool {
    0 <= i < row.len() && row[i] is Primary && row[i]->Primary_0 is Err
}

/// The row with the operands that could be read.
pub open spec fn good_row<E, X>(row: Seq<Token<Result<E, X>>>) -> Seq<Token<E>> {
    Seq::new(
        row.len(),
        |i: int|
            match row[i] {
                Token::Primary(p) => Token::Primary(p->Ok_0),
                Token::UnaryMinus => Token::UnaryMinus,
                Token::Infix(op) => Token::Infix(op),
            },
    )
}

proof fn lemma_good_operands<E, X>(row: Seq<Token<Result<E, X>>>, i: int)
    requires
        operands_from(row, i),
    ensures
        operands_from(good_row(row), i),
    decreases row.len() - i,
{
    match row[i] {
        Token::UnaryMinus => lemma_good_operands(row, i + 1),
        Token::Primary(_) => {
            if i + 1 != row.len() {
                lemma_good_operands(row, i + 2);
            }
        },
        Token::Infix(_) => {},
    }
}

/// Reads an arithmetic expression: the operands come as they were read, the tree groups them
/// by precedence. The first operand that could not be read is the error.
pub fn parse_arithmetic_with_pratt<E, X>(
    location: QueryLocation,
    row: Vec<Token<Result<E, X>>>,
) -> (r: Result<ScalarExpression<E>, X>)
    requires
        operands_from(row@, 0),
    ensures
        match r {
            Ok(t) => {
                &&& forall|i: int| !#[trigger] bad_at(row@, i)
                &&& t.row() == good_row(row@)
                &&& t.is_sum()
                &&& t.located(location)
            },
            Err(x) => exists|i: int| #[trigger]
                bad_at(row@, i) && row@[i]->Primary_0 == Err::<E, X>(x) && forall|j: int|
                    0 <= j < i ==> !#[trigger] bad_at(row@, j),
        },
{
    let ghost all = row@;
    let mut rest: Vec<Token<Result<E, X>>> = row;
    let mut good: VecDeque<Token<E>> = VecDeque::new();
    let mut error: Option<X> = None;
    let ghost mut worst: int = all.len() as int;
    while rest.len() > 0
        invariant
            rest@ == all.take(rest@.len() as int),
            rest@.len() <= all.len(),
            rest@.len() <= worst <= all.len(),
            match error {
                None => worst == all.len(),
                Some(x) => bad_at(all, worst) && all[worst]->Primary_0 == Err::<E, X>(x),
            },
            forall|j: int| rest@.len() <= j < worst ==> !#[trigger] bad_at(all, j),
            error is None ==> good@ == good_row(all).skip(rest@.len() as int),
        decreases rest@.len(),
    {
        let ghost n = rest@.len() - 1;
        let ghost good0 = good@;
        match rest.pop() {
            Some(token) => {
                assert(token == all[n]);
                match token {
                    Token::Primary(Ok(e)) => {
                        good.push_front(Token::Primary(e));
                    },
                    Token::Primary(Err(x)) => {
                        proof {
                            worst = n;
                        }
                        error = Some(x);
                    },
                    Token::UnaryMinus => {
                        good.push_front(Token::UnaryMinus);
                    },
                    Token::Infix(op) => {
                        good.push_front(Token::Infix(op));
                    },
                }
                proof {
                    if error is None {
                        assert(good@ =~= good_row(all).skip(n));
                    }
                }
            },
            None => {},
        }
    }
    match error {
        Some(x) => {
            assert(bad_at(all, worst));
            Err(x)
        },
        None => {
            proof {
                assert(good_row(all).skip(0) =~= good_row(all));
                lemma_good_operands(all, 0);
                assert forall|i: int| !#[trigger] bad_at(all, i) by {}
            }
            Ok(parse_sum(location, &mut good))
        },
    }
}

/// Reads an arithmetic expression.
pub fn parse_arithmetic_expression<E, X>(
    location: QueryLocation,
    row: Vec<Token<Result<E, X>>>,
) -> (r: Result<ScalarExpression<E>, X>)
    requires
        operands_from(row@, 0),
    ensures
        match r {
            Ok(t) => {
                &&& forall|i: int| !#[trigger] bad_at(row@, i)
                &&& t.row() == good_row(row@)
                &&& t.is_sum()
                &&& t.located(location)
            },
            Err(x) => exists|i: int| #[trigger]
                bad_at(row@, i) && row@[i]->Primary_0 == Err::<E, X>(x) && forall|j: int|
                    0 <= j < i ==> !#[trigger] bad_at(row@, j),
        },
{
    parse_arithmetic_with_pratt(location, row)
}

proof fn lemma_factor_row<E>(t: ScalarExpression<E>)
    requires
        t.is_factor(),
    ensures
        t.row().len() > 0,
        forall|i: int| 0 <= i < t.row().len() ==> !(#[trigger] t.row()[i] is Infix),
    decreases t,
{
    match t {
        ScalarExpression::Negate(_, x) => {
            lemma_factor_row(*x);
            assert forall|i: int| 0 <= i < t.row().len() implies !(#[trigger] t.row()[i] is Infix) by {
                if i > 0 {
                    assert(t.row()[i] == x.row()[i - 1]);
                }
            }
        },
        _ => {},
    }
}

proof fn lemma_term_row<E>(t: ScalarExpression<E>)
    requires
        t.is_term(),
    ensures
        t.row().len() > 0,
        forall|i: int|
            0 <= i < t.row().len() && #[trigger] t.row()[i] is Infix
                ==> !t.row()[i]->Infix_0.is_additive(),
    decreases t,
{
    match t {
        ScalarExpression::Math(_, op, l, r) => {
            lemma_term_row(*l);
            lemma_factor_row(*r);
            let n = l.row().len() as int;
            assert forall|i: int| 0 <= i < t.row().len() && #[trigger] t.row()[i] is Infix implies
                !t.row()[i]->Infix_0.is_additive() by {
                if i < n {
                    assert(t.row()[i] == l.row()[i]);
                } else if i > n {
                    assert(t.row()[i] == r.row()[i - n - 1]);
                }
            }
        },
        _ => lemma_factor_row(t),
    }
}

proof fn lemma_factor_unique<E>(
    a: ScalarExpression<E>,
    b: ScalarExpression<E>,
    at: QueryLocation,
)
    requires
        a.is_factor(),
        b.is_factor(),
        a.located(at),
        b.located(at),
        a.row() == b.row(),
    ensures
        a == b,
    decreases a,
{
    match a {
        ScalarExpression::Negate(_, x) => {
            assert(a.row()[0] == Token::<E>::UnaryMinus);
            match b {
                ScalarExpression::Negate(_, y) => {
                    assert(x.row() =~= a.row().skip(1));
                    assert(y.row() =~= b.row().skip(1));
                    lemma_factor_unique(*x, *y, at);
                },
                ScalarExpression::Primary(e) => {
                    assert(b.row()[0] == Token::Primary(e));
                },
                _ => {},
            }
        },
        ScalarExpression::Primary(e) => {
            assert(a.row()[0] == Token::Primary(e));
            match b {
                ScalarExpression::Negate(_, y) => {
                    assert(b.row()[0] == Token::<E>::UnaryMinus);
                },
                ScalarExpression::Primary(f) => {
                    assert(b.row()[0] == Token::Primary(f));
                },
                _ => {},
            }
        },
        _ => {},
    }
}

/// Splits of the same row at an operator agree if nothing right of either split is of the
/// operator's sort.
proof fn lemma_same_split<E>(
    l: Seq<Token<E>>,
    r: Seq<Token<E>>,
    l2: Seq<Token<E>>,
    r2: Seq<Token<E>>,
    op: MathOp,
    op2: MathOp,
    sort: spec_fn(Token<E>) -> bool,
)
    requires
        l + seq![Token::<E>::Infix(op)] + r == l2 + seq![Token::<E>::Infix(op2)] + r2,
        sort(Token::Infix(op)),
        sort(Token::Infix(op2)),
        forall|i: int| 0 <= i < r.len() ==> !sort(#[trigger] r[i]),
        forall|i: int| 0 <= i < r2.len() ==> !sort(#[trigger] r2[i]),
    ensures
        l == l2,
        r == r2,
        op == op2,
{
    let all = l + seq![Token::<E>::Infix(op)] + r;
    let n = l.len() as int;
    let m = l2.len() as int;
    let again = l2 + seq![Token::<E>::Infix(op2)] + r2;
    assert(all[n] == Token::<E>::Infix(op));
    assert(again[m] == Token::<E>::Infix(op2));
    assert(again.len() == all.len() && n < all.len());
    if m < n {
        assert(again[n] == r2[n - m - 1]);
    }
    if n < m {
        assert(all[m] == r[m - n - 1]);
    }
    assert(l =~= all.take(n));
    assert(l2 =~= all.take(n));
    assert(r =~= all.skip(n + 1));
    assert(r2 =~= all.skip(n + 1));
}

proof fn lemma_term_unique<E>(a: ScalarExpression<E>, b: ScalarExpression<E>, at: QueryLocation)
    requires
        a.is_term(),
        b.is_term(),
        a.located(at),
        b.located(at),
        a.row() == b.row(),
    ensures
        a == b,
    decreases a,
{
    match (a, b) {
        (ScalarExpression::Math(_, op, l, r), ScalarExpression::Math(_, op2, l2, r2)) => {
            lemma_factor_row(*r);
            lemma_factor_row(*r2);
            lemma_same_split(
                l.row(),
                r.row(),
                l2.row(),
                r2.row(),
                op,
                op2,
                |t: Token<E>| t is Infix,
            );
            lemma_term_unique(*l, *l2, at);
            lemma_factor_unique(*r, *r2, at);
        },
        (ScalarExpression::Math(_, op, l, r), _) => {
            lemma_factor_row(b);
            assert(a.row()[l.row().len() as int] is Infix);
        },
        (_, ScalarExpression::Math(_, op, l, r)) => {
            lemma_factor_row(a);
            assert(b.row()[l.row().len() as int] is Infix);
        },
        _ => lemma_factor_unique(a, b, at),
    }
}

/// A row of operators and operands has one tree that groups it by precedence and to the left.
pub proof fn grouping_is_unique<E>(
    a: ScalarExpression<E>,
    b: ScalarExpression<E>,
    at: QueryLocation,
)
    requires
        a.is_sum(),
        b.is_sum(),
        a.located(at),
        b.located(at),
        a.row() == b.row(),
    ensures
        a == b,
    decreases a,
{
    let sort = |t: Token<E>| t is Infix && t->Infix_0.is_additive();
    let split_a = a is Math && a->Math_1.is_additive();
    let split_b = b is Math && b->Math_1.is_additive();
    if split_a && split_b {
        let (l, r) = (a->Math_2, a->Math_3);
        let (l2, r2) = (b->Math_2, b->Math_3);
        lemma_term_row(*r);
        lemma_term_row(*r2);
        lemma_same_split(l.row(), r.row(), l2.row(), r2.row(), a->Math_1, b->Math_1, sort);
        grouping_is_unique(*l, *l2, at);
        lemma_term_unique(*r, *r2, at);
    } else if split_a {
        lemma_term_row(b);
        assert(a.row()[a->Math_2.row().len() as int] == Token::<E>::Infix(a->Math_1));
    } else if split_b {
        lemma_term_row(a);
        assert(b.row()[b->Math_2.row().len() as int] == Token::<E>::Infix(b->Math_1));
    } else {
        lemma_term_unique(a, b, at);
    }
}

impl<E> ScalarExpression<E> {
    /// The tree is `whole` or stands somewhere in it.
    pub open spec fn part_of(self, whole: ScalarExpression<E>) -> bool
        decreases whole,
    {
        self == whole || match whole {
            ScalarExpression::Primary(_) => false,
            ScalarExpression::Negate(_, x) => self.part_of(*x),
            ScalarExpression::Math(_, _, l, r) => self.part_of(*l) || self.part_of(*r),
        }
    }
}

proof fn lemma_factor_parts<E>(whole: ScalarExpression<E>, part: ScalarExpression<E>)
    requires
        whole.is_factor(),
        part.part_of(whole),
    ensures
        part.is_factor(),
    decreases whole,
{
    if part != whole {
        if let ScalarExpression::Negate(_, x) = whole {
            lemma_factor_parts(*x, part);
        }
    }
}

proof fn lemma_term_parts<E>(whole: ScalarExpression<E>, part: ScalarExpression<E>)
    requires
        whole.is_term(),
        part.part_of(whole),
    ensures
        part.is_term(),
    decreases whole,
{
    if part != whole {
        match whole {
            ScalarExpression::Math(_, _, l, r) => {
                if part.part_of(*l) {
                    lemma_term_parts(*l, part);
                } else {
                    lemma_factor_parts(*r, part);
                }
            },
            _ => lemma_factor_parts(whole, part),
        }
    }
}

proof fn lemma_sum_parts<E>(whole: ScalarExpression<E>, part: ScalarExpression<E>)
    requires
        whole.is_sum(),
        part.part_of(whole),
    ensures
        part.is_sum(),
    decreases whole,
{
    if part != whole {
        match whole {
            ScalarExpression::Math(_, op, l, r) => {
                if !op.is_additive() {
                    lemma_term_parts(whole, part);
                } else if part.part_of(*l) {
                    lemma_sum_parts(*l, part);
                } else {
                    lemma_term_parts(*r, part);
                }
            },
            _ => lemma_factor_parts(whole, part),
        }
    }
}

/// `*`, `/` and `%` bind more than `+` and `-`: nowhere in a tree is an operand of one of the
/// former a sum or a difference.
pub proof fn products_hold_no_sums<E>(whole: ScalarExpression<E>, part: ScalarExpression<E>)
    requires
        whole.is_sum(),
        part.part_of(whole),
    ensures
        part matches ScalarExpression::Math(_, op, l, r) ==> (op is Multiply || op is Divide
            || op is Modulus) ==> {
            &&& !(*l matches ScalarExpression::Math(_, MathOp::Add, _, _))
            &&& !(*l matches ScalarExpression::Math(_, MathOp::Subtract, _, _))
            &&& !(*r matches ScalarExpression::Math(_, MathOp::Add, _, _))
            &&& !(*r matches ScalarExpression::Math(_, MathOp::Subtract, _, _))
        },
{
    lemma_sum_parts(whole, part);
    if let ScalarExpression::Math(_, op, l, r) = part {
        assert(!op.is_additive() ==> l.is_term() && r.is_factor());
    }
}

/// Operators that bind alike group to the left: the right operand of `+` or `-` is no sum or
/// difference, and that of `*`, `/` or `%` has no operator but minuses in front.
pub proof fn operators_group_to_the_left<E>(
    whole: ScalarExpression<E>,
    part: ScalarExpression<E>,
)
    requires
        whole.is_sum(),
        part.part_of(whole),
    ensures
        part matches ScalarExpression::Math(_, op, _, r) ==> {
            &&& op is Add || op is Subtract ==> {
                &&& !(*r matches ScalarExpression::Math(_, MathOp::Add, _, _))
                &&& !(*r matches ScalarExpression::Math(_, MathOp::Subtract, _, _))
            }
            &&& op is Multiply || op is Divide || op is Modulus ==> !(*r is Math)
        },
{
    lemma_sum_parts(whole, part);
}

/// A minus in front binds most: what it turns is an operand, with or without further minuses,
/// and never an operation on two.
pub proof fn minus_in_front_binds_most<E>(whole: ScalarExpression<E>, part: ScalarExpression<E>)
    requires
        whole.is_sum(),
        part.part_of(whole),
    ensures
        part matches ScalarExpression::Negate(_, x) ==> !(*x is Math),
{
    lemma_sum_parts(whole, part);
    if let ScalarExpression::Negate(_, x) = part {
        assert(x.is_factor());
    }
}

/// Every operator and every minus stays what and where it is, and every operand is the one that
/// was read there.
pub proof fn tokens_stay_in_place<E, X>(row: Seq<Token<Result<E, X>>>, i: int)
    requires
        0 <= i < row.len(),
        !bad_at(row, i),
    ensures
        good_row(row).len() == row.len(),
        row[i] matches Token::Infix(op) ==> good_row(row)[i] == Token::<E>::Infix(op),
        row[i] is UnaryMinus ==> good_row(row)[i] is UnaryMinus,
        row[i] matches Token::Primary(p) ==> good_row(row)[i] is Primary && p == Ok::<E, X>(
            good_row(row)[i]->Primary_0,
        ),
{
}

} // verus!
