//! The code of a proc, as far as the overlay analysis reads it, and how it is summed up in words.

use crate::text::{debug_quote, debug_text, dec, i32_text, joined};
use vstd::prelude::*;

verus! {

/// What an expression begins with.
pub enum Term {
    Null,
    Int(i32),
    /// A floating-point number, as it is written out.
    Float(String),
    Ident(String),
    Str(String),
    Resource(String),
    /// A text with expressions in it: the text before the first, then each expression, where
    /// there is one, with the text after it.
    InterpString(String, Vec<(Option<Expression>, String)>),
    /// A call of a proc, with its arguments.
    Call(String, Vec<Expression>),
    /// Anything else.
    Other,
}

/// What may follow the term of an expression.
pub enum Follow {
    Field(String),
    Call(String),
    Index,
    StaticField(String),
    ProcReference(String),
    /// A unary operator, by name.
    Unary(String),
}

/// How an assignment assigns.
#[derive(Clone, Copy, PartialEq, Eq, Structural)]
pub enum AssignKind {
    /// `=`
    Assign,
    /// `+=`
    AddAssign,
    /// Any other.
    Other,
}

/// An expression.
pub enum Expression {
    Base { term: Box<Term>, follow: Vec<Follow> },
    /// A binary operator, by name.
    BinaryOp { op: String, lhs: Box<Expression>, rhs: Box<Expression> },
    AssignOp { kind: AssignKind, lhs: Box<Expression>, rhs: Box<Expression> },
    /// Anything else.
    Other,
}

/// What a case of a switch asks for.
pub enum Case {
    Exact(Expression),
    Range(Expression, Expression),
}

/// A statement.
pub enum Statement {
    Expr(Expression),
    /// The declaration of a variable.
    Var { name: String, value: Option<Expression> },
    If { arms: Vec<(Expression, Vec<Statement>)>, else_arm: Option<Vec<Statement>> },
    Switch { input: Expression, cases: Vec<(Vec<Case>, Vec<Statement>)>, default: Option<Vec<Statement>> },
    /// A loop over a list.
    ForList(Vec<Statement>),
    /// Anything else, with the statements inside it.
    Other(Vec<Statement>),
}

/// The term of an expression that is nothing but a term.
pub open spec fn bare(e: Expression) -> Option<Term> {
    match e {
        Expression::Base { term, follow } => if follow@.len() == 0 {
            Some(*term)
        } else {
            None
        },
        _ => None,
    }
}

/// The term of an expression that is nothing but a term.
pub fn bare_term(e: &Expression) -> (r: Option<&Term>)
    ensures
        match r {
            Some(t) => bare(*e) == Some(*t),
            None => bare(*e) is None,
        },
{
    match e {
        Expression::Base { term, follow } => if follow.len() == 0 {
            Some(&**term)
        } else {
            None
        },
        _ => None,
    }
}

/// The text of an expression that is a plain text.
pub open spec fn literal(e: Expression) -> Option<Seq<char>> {
    match bare(e) {
        Some(Term::Str(s)) => Some(s@),
        _ => None,
    }
}

/// The name of an expression that is a plain name.
pub open spec fn ident(e: Expression) -> Option<Seq<char>> {
    match bare(e) {
        Some(Term::Ident(s)) => Some(s@),
        _ => None,
    }
}

/// The path of an expression that is a plain resource.
pub open spec fn resource(e: Expression) -> Option<Seq<char>> {
    match bare(e) {
        Some(Term::Resource(s)) => Some(s@),
        _ => None,
    }
}

/// Whether an expression is `.`, the value that a proc returns.
pub open spec fn is_dot(e: Expression) -> bool {
    ident(e) == Some("."@)
}

/// Extracts a plain text.
pub fn extract_string_from_expr(e: &Expression) -> (r: Option<String>)
    ensures
        crate::prefab::opt_text(r) == literal(*e),
{
    match bare_term(e) {
        Some(Term::Str(s)) => Some(s.clone()),
        _ => None,
    }
}

/// Extracts a plain name.
pub fn extract_ident(e: &Expression) -> (r: Option<String>)
    ensures
        crate::prefab::opt_text(r) == ident(*e),
{
    match bare_term(e) {
        Some(Term::Ident(s)) => Some(s.clone()),
        _ => None,
    }
}

/// Extracts the path of a resource.
pub fn extract_resource_from_expr(e: &Expression) -> (r: Option<String>)
    ensures
        crate::prefab::opt_text(r) == resource(*e),
{
    match bare_term(e) {
        Some(Term::Resource(s)) => Some(s.clone()),
        _ => None,
    }
}

/// Tests whether an expression is `.`.
pub fn is_dot_expr(e: &Expression) -> (r: bool)
    ensures
        r == is_dot(*e),
{
    match bare_term(e) {
        Some(Term::Ident(s)) => crate::text::same_text(s.as_str(), "."),
        _ => false,
    }
}

// ── In words ─────────────────────────────────────────────────────────

/// A term in words.
pub open spec fn term_text(t: Term) -> Seq<char> {
    match t {
        Term::Ident(s) => s@,
        Term::Str(s) => "\""@ + s@ + "\""@,
        Term::Int(i) => dec(i as int),
        Term::Float(s) => s@,
        Term::Null => "null"@,
        _ => "..."@,
    }
}

/// What follows a term, in words.
pub open spec fn follow_text(f: Follow) -> Seq<char> {
    match f {
        Follow::Field(name) => "."@ + name@,
        Follow::Call(name) => "."@ + name@ + "()"@,
        Follow::Index => "[...]"@,
        Follow::StaticField(name) => "::"@ + name@,
        Follow::ProcReference(name) => "::proc/"@ + name@,
        Follow::Unary(name) => name@,
    }
}

/// All that follows a term, in words.
pub open spec fn follows_text(list: Seq<Follow>) -> Seq<char>
    decreases list.len(),
{
    if list.len() == 0 {
        Seq::empty()
    } else {
        follows_text(list.drop_last()) + follow_text(list.last())
    }
}

/// An expression in words.
pub open spec fn summary(e: Expression) -> Seq<char>
    decreases e,
{
    match e {
        Expression::Base { term, follow } => term_text(*term) + follows_text(follow@),
        Expression::BinaryOp { op, lhs, rhs } => summary(*lhs) + " "@ + op@ + " "@ + summary(*rhs),
        _ => "..."@,
    }
}

fn write_term(t: &Term) -> (r: String)
    ensures
        r@ == term_text(*t),
{
    match t {
        Term::Ident(s) => s.clone(),
        Term::Str(s) => {
            let mut out = "\"".to_string();
            out.append(s.as_str());
            out.append("\"");
            out
        },
        Term::Int(i) => i32_text(*i),
        Term::Float(s) => s.clone(),
        Term::Null => "null".to_string(),
        _ => "...".to_string(),
    }
}

fn write_follow(f: &Follow) -> (r: String)
    ensures
        r@ == follow_text(*f),
{
    match f {
        Follow::Field(name) => {
            let mut out = ".".to_string();
            out.append(name.as_str());
            out
        },
        Follow::Call(name) => {
            let mut out = ".".to_string();
            out.append(name.as_str());
            out.append("()");
            out
        },
        Follow::Index => "[...]".to_string(),
        Follow::StaticField(name) => {
            let mut out = "::".to_string();
            out.append(name.as_str());
            out
        },
        Follow::ProcReference(name) => {
            let mut out = "::proc/".to_string();
            out.append(name.as_str());
            out
        },
        Follow::Unary(name) => name.clone(),
    }
}

/// Sums up an expression in words.
pub fn summarize_expr(e: &Expression) -> (r: String)
    ensures
        r@ == summary(*e),
    decreases e,
{
    match e {
        Expression::Base { term, follow } => {
            let mut tail = String::new();
            let mut i: usize = 0;
            while i < follow.len()
                invariant
                    i <= follow@.len(),
                    tail@ == follows_text(follow@.take(i as int)),
                decreases follow@.len() - i,
            {
                assert(follow@.take(i + 1).drop_last() =~= follow@.take(i as int));
                tail.append(write_follow(&follow[i]).as_str());
                i = i + 1;
            }
            assert(follow@.take(i as int) =~= follow@);
            let mut out = write_term(term);
            out.append(tail.as_str());
            out
        },
        Expression::BinaryOp { op, lhs, rhs } => {
            let mut out = summarize_expr(lhs);
            out.append(" ");
            out.append(op.as_str());
            out.append(" ");
            out.append(summarize_expr(rhs).as_str());
            out
        },
        _ => "...".to_string(),
    }
}

/// A condition in words.
pub fn summarize_condition(e: &Expression) -> (r: String)
    ensures
        r@ == summary(*e),
{
    summarize_expr(e)
}

/// A case in words.
pub open spec fn case_text(c: Case) -> Seq<char> {
    match c {
        Case::Exact(e) => summary(e),
        Case::Range(a, b) => summary(a) + " to "@ + summary(b),
    }
}

/// Sums up a case in words.
pub fn summarize_case(c: &Case) -> (r: String)
    ensures
        r@ == case_text(*c),
{
    match c {
        Case::Exact(e) => summarize_expr(e),
        Case::Range(a, b) => {
            let mut out = summarize_expr(a);
            out.append(" to ");
            out.append(summarize_expr(b).as_str());
            out
        },
    }
}

/// The cases of a list in words, each quoted.
pub open spec fn quoted_cases(list: Seq<Case>) -> Seq<Seq<char>> {
    list.map_values(|c: Case| debug_text(case_text(c)))
}

/// The cases of a list in words.
pub open spec fn cases_text(list: Seq<Case>) -> Seq<char> {
    "["@ + joined(quoted_cases(list), ", "@) + "]"@
}

/// Sums up the cases of a list in words.
pub fn summarize_cases(list: &Vec<Case>) -> (r: String)
    ensures
        r@ == cases_text(list@),
{
    let mut quoted: Vec<String> = Vec::new();
    let mut i: usize = 0;
    while i < list.len()
        invariant
            i <= list@.len(),
            crate::text::texts(quoted@) == quoted_cases(list@.take(i as int)),
        decreases list@.len() - i,
    {
        let ghost before = crate::text::texts(quoted@);
        let q = debug_quote(summarize_case(&list[i]).as_str());
        quoted.push(q);
        assert(crate::text::texts(quoted@) =~= before.push(q@));
        assert(quoted_cases(list@.take(i + 1)) =~= quoted_cases(list@.take(i as int)).push(
            debug_text(case_text(list@[i as int])),
        ));
        i = i + 1;
    }
    assert(list@.take(i as int) =~= list@);
    let mut out = "[".to_string();
    out.append(crate::text::join_texts(&quoted, ", ").as_str());
    out.append("]");
    out
}

} // verus!
